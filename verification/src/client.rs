//! The connection handle: the identity of one accepted connection together
//! with the sending end of the queue that the connection's writer drains.

use bytes::Bytes;
use std::sync::mpsc::Sender;
use std::sync::Arc;
use vstd::prelude::*;

verus! {

/// `std::sync::mpsc::Sender`, the sending end of an unbounded channel. The
/// verifier sees nothing inside it, and nothing is claimed of the channel
/// behind it, which other threads fill and drain.
#[verifier::external_type_specification]
#[verifier::external_body]
#[verifier::reject_recursive_types(T)]
pub struct ExSender<T>(Sender<T>);

/// `Sender::send`: puts `frame` at the back of the channel's queue without
/// blocking. The call fails when the receiving end is gone, and the frame is
/// then dropped; nothing is claimed about which of the two happened.
#[verifier::external_body]
fn enqueue(queue: &Sender<Bytes>, frame: Bytes) {
    let _ = queue.send(frame);
}

/// `Arc::clone`: another pointer to the same allocation, hence to the same
/// value.
#[verifier::external_body]
pub(crate) fn share(client: &Arc<Client>) -> (same: Arc<Client>)
    ensures
        same == *client,
{
    Arc::clone(client)
}

/// Handle of one accepted connection. Its fields never change after
/// construction, so it can be shared freely between the workers.
#[derive(Debug)]
pub struct Client {
    addr: String,
    tx: Sender<Bytes>,
}

impl Client {
    /// The peer address that identifies the connection.
    pub closed spec fn peer(&self) -> Seq<char> {
        self.addr@
    }

    /// The sending end of the connection's outbound queue.
    pub closed spec fn outbound(&self) -> Sender<Bytes> {
        self.tx
    }

    /// Makes the handle of a connection whose peer is `addr` and whose writer
    /// drains the queue behind `tx`.
    pub fn new(addr: String, tx: Sender<Bytes>) -> (client: Client)
        ensures
            client.peer() == addr@,
            client.outbound() == tx,
    {
        Client { addr, tx }
    }

    /// The peer address that identifies the connection.
    pub fn addr(&self) -> (addr: &String)
        ensures
            addr@ == self.peer(),
    {
        &self.addr
    }

    /// Queues `frame` for the connection's writer and returns at once. A
    /// frame queued after the writer has stopped is lost without an error.
    pub fn send(&self, frame: Bytes) {
        enqueue(&self.tx, frame)
    }
}

} // verus!
