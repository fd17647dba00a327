//! Events: what a reader tells the dispatcher about its connection.

use crate::client::Client;
use crate::frame::frame_bytes;
use bytes::Bytes;
use std::sync::Arc;
use vstd::prelude::*;

verus! {

/// One message on the shared event channel. Every event names the connection
/// it is about; a frame event also carries the bytes of one read.
#[derive(Debug)]
pub enum Event {
    Connect(Arc<Client>),
    Disconnect(Arc<Client>),
    Frame(Arc<Client>, Bytes),
}

/// An event with its frame, if it has one, seen as a sequence of bytes.
pub enum EventView {
    Connect(Arc<Client>),
    Disconnect(Arc<Client>),
    Frame(Arc<Client>, Seq<u8>),
}

impl EventView {
    /// The connection that the event is about.
    pub open spec fn client(self) -> Arc<Client> {
        match self {
            EventView::Connect(client) => client,
            EventView::Disconnect(client) => client,
            EventView::Frame(client, _) => client,
        }
    }
}

impl View for Event {
    type V = EventView;

    open spec fn view(&self) -> EventView {
        match self {
            Event::Connect(client) => EventView::Connect(*client),
            Event::Disconnect(client) => EventView::Disconnect(*client),
            Event::Frame(client, frame) => EventView::Frame(*client, frame_bytes(*frame)),
        }
    }
}

/// The view of an event that may be absent.
pub open spec fn view_of(event: Option<Event>) -> Option<EventView> {
    match event {
        Some(event) => Some(event@),
        None => None,
    }
}

/// The bytes of the frame events among `events`, in the order of the events.
pub open spec fn frames(events: Seq<EventView>) -> Seq<Seq<u8>>
    decreases events.len(),
{
    if events.len() == 0 {
        Seq::empty()
    } else {
        match events.last() {
            EventView::Frame(_, bytes) => frames(events.drop_last()).push(bytes),
            _ => frames(events.drop_last()),
        }
    }
}

/// The events among `events` that are about `client`, in the order of the
/// events: what is left of a stream shared by many connections when only
/// this one is looked at.
pub open spec fn events_of(client: Arc<Client>, events: Seq<EventView>) -> Seq<EventView> {
    events.filter(|event: EventView| event.client() == client)
}

} // verus!
