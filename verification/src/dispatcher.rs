//! The event dispatcher: the one place where the events of all connections
//! meet. For every event it decides what is to be done; doing it, printing a
//! notice or queueing a frame, is left to the caller.

use crate::client::Client;
use crate::event::events_of;
use crate::event::frames;
use crate::event::Event;
use crate::event::EventView;
use crate::frame::frame_bytes;
use bytes::Bytes;
use std::sync::Arc;
use vstd::prelude::*;
use vstd::string::StringExecFns;

verus! {

/// What the dispatcher wants done about an event.
#[derive(Debug)]
pub enum Reaction {
    /// Show this line to the operator.
    Notice(String),
    /// Queue this frame for the writer of this connection.
    Echo(Arc<Client>, Bytes),
}

/// A reaction with its text and its frame seen as sequences.
pub enum ReactionView {
    Notice(Seq<char>),
    Echo(Arc<Client>, Seq<u8>),
}

impl View for Reaction {
    type V = ReactionView;

    open spec fn view(&self) -> ReactionView {
        match self {
            Reaction::Notice(line) => ReactionView::Notice(line@),
            Reaction::Echo(to, frame) => ReactionView::Echo(*to, frame_bytes(*frame)),
        }
    }
}

/// The dispatcher's policy. The arrival and the departure of a connection
/// are noted with the peer's address; a frame goes back, byte for byte, to
/// the connection it came from.
pub open spec fn react(event: EventView) -> ReactionView {
    match event {
        EventView::Connect(client) => ReactionView::Notice(client.peer() + " connected"@),
        EventView::Disconnect(client) => ReactionView::Notice(client.peer() + " disconnected"@),
        EventView::Frame(client, bytes) => ReactionView::Echo(client, bytes),
    }
}

/// The frames that the dispatcher, reacting to `events` in their order,
/// wants queued for `client`, in the order in which it wants them queued.
pub open spec fn queued_for(client: Arc<Client>, events: Seq<EventView>) -> Seq<Seq<u8>>
    decreases events.len(),
{
    if events.len() == 0 {
        Seq::empty()
    } else {
        match react(events.last()) {
            ReactionView::Echo(to, bytes) if to == client => queued_for(
                client,
                events.drop_last(),
            ).push(bytes),
            _ => queued_for(client, events.drop_last()),
        }
    }
}

/// What is queued for a connection is made of the frames of that
/// connection's own events, in their order, and of nothing else: the events
/// of other connections, however they fall between them, add nothing to it
/// and take nothing from it.
pub proof fn lemma_queue_holds_own_frames(client: Arc<Client>, events: Seq<EventView>)
    ensures
        queued_for(client, events) == frames(events_of(client, events)),
    decreases events.len(),
{
    reveal(Seq::filter);
    if events.len() > 0 {
        let earlier = events.drop_last();
        lemma_queue_holds_own_frames(client, earlier);
        let own = events_of(client, earlier);
        if events.last().client() == client {
            assert(own.push(events.last()).drop_last() =~= own);
        }
    }
}

/// Decides what is to be done about `event`.
pub fn dispatch(event: Event) -> (reaction: Reaction)
    ensures
        reaction@ == react(event@),
        event matches Event::Frame(_, frame) ==> reaction matches Reaction::Echo(_, echoed)
            && echoed == frame,
{
    match event {
        Event::Connect(client) => Reaction::Notice(client.addr().clone().concat(" connected")),
        Event::Disconnect(client) => Reaction::Notice(
            client.addr().clone().concat(" disconnected"),
        ),
        Event::Frame(client, frame) => Reaction::Echo(client, frame),
    }
}

} // verus!
