//! The way of a frame through the three workers: from the reader that made
//! it, through the dispatcher that sends it back, to the writer of the
//! connection it came from.
//!
//! Between the dispatcher and a writer lies the connection's outbound queue,
//! which gives its frames out in the order in which they were put in.

use crate::client::Client;
use crate::dispatcher::lemma_queue_holds_own_frames;
use crate::dispatcher::queued_for;
use crate::dispatcher::react;
use crate::event::events_of;
use crate::event::EventView;
use crate::reader::delivered;
use crate::reader::lemma_connect_and_disconnect_once;
use crate::reader::lemma_events_name_their_connection;
use crate::reader::lemma_frames_are_what_arrived;
use crate::reader::session_trace;
use crate::reader::Arrival;
use crate::writer::dequeue_all;
use crate::writer::lemma_queue_order_is_write_order;
use crate::writer::writer_run;
use crate::writer::WriterPhase;
use std::sync::Arc;
use vstd::prelude::*;

verus! {

/// The bytes that the writer of `client` puts on the socket, write by write,
/// when the dispatcher reacts to `events` and nothing stops the writer.
pub open spec fn echoed_to(client: Arc<Client>, events: Seq<EventView>) -> Seq<Seq<u8>> {
    writer_run(WriterPhase::Running, dequeue_all(queued_for(client, events))).1
}

/// A stream of events holds the whole session of a connection when the
/// events about that connection, taken in their order, are that session.
pub open spec fn holds_session(
    events: Seq<EventView>,
    client: Arc<Client>,
    arrivals: Seq<Arrival>,
) -> bool {
    events_of(client, events) == session_trace(client, arrivals)
}

/// A connection gets back exactly the bytes that it delivered, chunk for
/// chunk and in the same order.
pub proof fn lemma_echo_round_trip(client: Arc<Client>, arrivals: Seq<Arrival>)
    ensures
        echoed_to(client, session_trace(client, arrivals)) == delivered(arrivals),
        echoed_to(client, session_trace(client, arrivals)).flatten() == delivered(
            arrivals,
        ).flatten(),
{
    let trace = session_trace(client, arrivals);
    lemma_events_name_their_connection(client, arrivals);
    lemma_all_pass_filter(client, trace);
    lemma_echo_in_shared_stream(client, arrivals, trace);
}

/// The same holds in a stream that the connection shares with others: it
/// gets back what it delivered, and no byte of any other connection.
pub proof fn lemma_echo_in_shared_stream(
    client: Arc<Client>,
    arrivals: Seq<Arrival>,
    events: Seq<EventView>,
)
    requires
        holds_session(events, client, arrivals),
    ensures
        echoed_to(client, events) == delivered(arrivals),
        echoed_to(client, events).flatten() == delivered(arrivals).flatten(),
{
    lemma_queue_holds_own_frames(client, events);
    lemma_frames_are_what_arrived(client, arrivals);
    lemma_queue_order_is_write_order(queued_for(client, events));
}

/// Nothing that one connection delivers is ever queued for another.
pub proof fn lemma_nothing_for_others(
    client: Arc<Client>,
    other: Arc<Client>,
    arrivals: Seq<Arrival>,
)
    requires
        other != client,
    ensures
        queued_for(other, session_trace(client, arrivals)) == Seq::<Seq<u8>>::empty(),
        echoed_to(other, session_trace(client, arrivals)) == Seq::<Seq<u8>>::empty(),
{
    let trace = session_trace(client, arrivals);
    lemma_events_name_their_connection(client, arrivals);
    lemma_none_pass_filter(other, trace);
    lemma_queue_holds_own_frames(other, trace);
    lemma_queue_order_is_write_order(queued_for(other, trace));
}

/// Once the dispatcher has seen the disconnect event of a session, it asks
/// for no further frame to be queued for that connection: every echo it asks
/// for comes before.
pub proof fn lemma_no_echo_after_disconnect(client: Arc<Client>, arrivals: Seq<Arrival>)
    ensures
        forall|i: int, j: int|
            0 <= i <= j < session_trace(client, arrivals).len() && (#[trigger] session_trace(
                client,
                arrivals,
            )[i]) is Disconnect ==> !(react(#[trigger] session_trace(client, arrivals)[j])
                is Echo),
{
    lemma_connect_and_disconnect_once(client, arrivals);
}

proof fn lemma_all_pass_filter(client: Arc<Client>, events: Seq<EventView>)
    requires
        forall|i: int| 0 <= i < events.len() ==> (#[trigger] events[i]).client() == client,
    ensures
        events_of(client, events) == events,
    decreases events.len(),
{
    reveal(Seq::filter);
    if events.len() > 0 {
        lemma_all_pass_filter(client, events.drop_last());
    }
}

proof fn lemma_none_pass_filter(client: Arc<Client>, events: Seq<EventView>)
    requires
        forall|i: int| 0 <= i < events.len() ==> (#[trigger] events[i]).client() != client,
    ensures
        events_of(client, events) == Seq::<EventView>::empty(),
    decreases events.len(),
{
    reveal(Seq::filter);
    if events.len() > 0 {
        lemma_none_pass_filter(client, events.drop_last());
    }
}

} // verus!
