//! Schedules: the order in which the readers of many connections take their
//! turns at the shared event channel. The workers run side by side, so any
//! order may come about; the channel carries what the readers send in the
//! order of their sends. Whatever the order, the dispatcher finds the session
//! of every connection whole in the stream it receives.

use crate::client::Client;
use crate::event::events_of;
use crate::event::EventView;
use crate::pipeline::echoed_to;
use crate::pipeline::holds_session;
use crate::pipeline::lemma_echo_in_shared_stream;
use crate::reader::delivered;
use crate::reader::lemma_connect_and_disconnect_once;
use crate::reader::lemma_session_shape;
use crate::reader::reader_run;
use crate::reader::reader_step;
use crate::reader::session_trace;
use crate::reader::stream_ended;
use crate::reader::Arrival;
use crate::reader::ReaderPhase;
use std::sync::Arc;
use vstd::prelude::*;

verus! {

/// One turn of one reader.
pub enum Turn {
    /// The connection was accepted and its reader starts.
    Accept(Arc<Client>),
    /// The reader of the connection learns what a read delivered.
    Read(Arc<Client>, Arrival),
}

impl Turn {
    /// The connection whose reader takes the turn.
    pub open spec fn client(self) -> Arc<Client> {
        match self {
            Turn::Accept(client) => client,
            Turn::Read(client, _) => client,
        }
    }
}

/// Whether `client` was accepted in the course of `turns`.
pub open spec fn accepted(client: Arc<Client>, turns: Seq<Turn>) -> bool {
    exists|i: int| 0 <= i < turns.len() && #[trigger] turns[i] == Turn::Accept(client)
}

/// A schedule is orderly when the first turn of every connection is its
/// accept and all its later turns are reads: the listener makes one reader
/// for each connection, and the reader starts before it reads.
pub open spec fn orderly(turns: Seq<Turn>) -> bool {
    forall|j: int|
        0 <= j < turns.len() ==> ((#[trigger] turns[j]) is Accept <==> !accepted(
            turns[j].client(),
            turns.take(j),
        ))
}

/// What the reads of `client`'s reader delivered in the course of `turns`,
/// in order.
pub open spec fn arrivals_of(client: Arc<Client>, turns: Seq<Turn>) -> Seq<Arrival>
    decreases turns.len(),
{
    if turns.len() == 0 {
        Seq::empty()
    } else {
        match turns.last() {
            Turn::Read(reader, arrival) if reader == client => arrivals_of(
                client,
                turns.drop_last(),
            ).push(arrival),
            _ => arrivals_of(client, turns.drop_last()),
        }
    }
}

/// The event that a turn puts on the channel, if any, after the turns
/// `before` it.
pub open spec fn posted(before: Seq<Turn>, turn: Turn) -> Option<EventView> {
    match turn {
        Turn::Accept(client) => Some(EventView::Connect(client)),
        Turn::Read(client, arrival) => reader_step(
            reader_run(ReaderPhase::Open, client, arrivals_of(client, before)).0,
            client,
            arrival,
        ).1,
    }
}

/// The stream of events that the channel carries to the dispatcher in the
/// course of `turns`.
pub open spec fn shared_stream(turns: Seq<Turn>) -> Seq<EventView>
    decreases turns.len(),
{
    if turns.len() == 0 {
        Seq::empty()
    } else {
        match posted(turns.drop_last(), turns.last()) {
            Some(event) => shared_stream(turns.drop_last()).push(event),
            None => shared_stream(turns.drop_last()),
        }
    }
}

/// Every event is posted under the name of the connection whose reader took
/// the turn: no frame of one connection travels under the name of another.
pub proof fn lemma_turn_posts_under_own_name(before: Seq<Turn>, turn: Turn)
    ensures
        posted(before, turn) matches Some(event) ==> event.client() == turn.client(),
{
}

/// In an orderly schedule, whatever its order, the events about a connection
/// that was accepted are, taken in their order, the session of that
/// connection; about a connection that was not accepted there are none.
pub proof fn lemma_sessions_stay_whole(client: Arc<Client>, turns: Seq<Turn>)
    requires
        orderly(turns),
    ensures
        accepted(client, turns) ==> holds_session(
            shared_stream(turns),
            client,
            arrivals_of(client, turns),
        ),
        !accepted(client, turns) ==> events_of(client, shared_stream(turns)) == Seq::<
            EventView,
        >::empty() && arrivals_of(client, turns) == Seq::<Arrival>::empty(),
    decreases turns.len(),
{
    reveal(Seq::filter);
    if turns.len() > 0 {
        let before = turns.drop_last();
        let turn = turns.last();
        let last = turns.len() - 1;
        assert forall|j: int| 0 <= j < before.len() implies ((#[trigger] before[j]) is Accept
            <==> !accepted(before[j].client(), before.take(j))) by {
            assert(before[j] == turns[j]);
            assert(before.take(j) =~= turns.take(j));
        }
        lemma_sessions_stay_whole(client, before);
        if accepted(client, turns) && !accepted(client, before) {
            let i = choose|i: int| 0 <= i < turns.len() && #[trigger] turns[i] == Turn::Accept(
                client,
            );
            if i < last {
                assert(before[i] == Turn::Accept(client));
            }
        }
        let stream = shared_stream(before);
        let own = events_of(client, stream);
        match posted(before, turn) {
            Some(event) => {
                assert(stream.push(event).drop_last() =~= stream);
                if turn.client() == client {
                    match turn {
                        Turn::Accept(_) => {
                            assert(own.push(event) =~= session_trace(
                                client,
                                arrivals_of(client, turns),
                            ));
                        },
                        Turn::Read(_, arrival) => {
                            let earlier = arrivals_of(client, before);
                            assert(earlier.push(arrival).drop_last() =~= earlier);
                            assert(own.push(event) =~= session_trace(
                                client,
                                arrivals_of(client, turns),
                            ));
                        },
                    }
                }
            },
            None => {
                if turn.client() == client {
                    let earlier = arrivals_of(client, before);
                    let arrival = turn->Read_1;
                    assert(earlier.push(arrival).drop_last() =~= earlier);
                }
            },
        }
    }
}

/// Whatever the order in which the readers take their turns, the dispatcher
/// sees of every accepted connection exactly one connect event, before
/// anything else about that connection, and at most one disconnect event,
/// after everything else about it and exactly when its stream has ended.
pub proof fn lemma_lifecycle_seen_once(client: Arc<Client>, turns: Seq<Turn>)
    requires
        orderly(turns),
        accepted(client, turns),
    ensures
        ({
            let seen = events_of(client, shared_stream(turns));
            let ended = stream_ended(arrivals_of(client, turns));
            &&& seen.len() >= 1
            &&& forall|i: int| 0 <= i < seen.len() ==> ((#[trigger] seen[i]) is Connect <==> i == 0)
            &&& forall|i: int|
                0 <= i < seen.len() ==> ((#[trigger] seen[i]) is Disconnect <==> ended && i
                    == seen.len() - 1)
        }),
{
    lemma_sessions_stay_whole(client, turns);
    lemma_connect_and_disconnect_once(client, arrivals_of(client, turns));
}

/// When the peer closes a connection that is open, the next turn of that
/// connection's reader puts the disconnect event on the channel, whatever
/// the other readers have done in between and whether or not the connection
/// ever delivered a byte.
pub proof fn lemma_close_is_posted_in_one_turn(client: Arc<Client>, before: Seq<Turn>)
    requires
        orderly(before),
        accepted(client, before),
        !stream_ended(arrivals_of(client, before)),
    ensures
        ({
            let closing = Turn::Read(client, Arrival::Data(Seq::empty()));
            &&& orderly(before.push(closing))
            &&& shared_stream(before.push(closing)) == shared_stream(before).push(
                EventView::Disconnect(client),
            )
        }),
{
    let closing = Turn::Read(client, Arrival::Data(Seq::empty()));
    let turns = before.push(closing);
    lemma_session_shape(client, arrivals_of(client, before));
    assert(turns.drop_last() =~= before);
    assert forall|j: int| 0 <= j < turns.len() implies ((#[trigger] turns[j]) is Accept
        <==> !accepted(turns[j].client(), turns.take(j))) by {
        if j < before.len() {
            assert(turns[j] == before[j]);
            assert(turns.take(j) =~= before.take(j));
        } else {
            assert(turns.take(j) =~= before);
        }
    }
}

/// Whatever the order in which the readers take their turns, a connection
/// gets back what it delivered, and only that.
pub proof fn lemma_echo_under_any_schedule(client: Arc<Client>, turns: Seq<Turn>)
    requires
        orderly(turns),
        accepted(client, turns),
    ensures
        echoed_to(client, shared_stream(turns)) == delivered(arrivals_of(client, turns)),
{
    lemma_sessions_stay_whole(client, turns);
    lemma_echo_in_shared_stream(client, arrivals_of(client, turns), shared_stream(turns));
}

} // verus!
