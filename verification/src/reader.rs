//! The frame reader: one per connection. It announces the connection, turns
//! every read that delivered bytes into one frame event, and announces the
//! end of the connection when a read delivers nothing or fails.
//!
//! The reader never touches the socket. Its driver performs each blocking
//! read into a buffer of `READ_BUFFER_SIZE` bytes and reports the outcome;
//! the reader answers with the event to put on the event channel.

use crate::client::share;
use crate::client::Client;
use crate::event::frames;
use crate::event::view_of;
use crate::event::Event;
use crate::event::EventView;
use crate::frame::copy_frame;
use crate::frame::frame_bytes;
use crate::frame::READ_BUFFER_SIZE;
use std::sync::Arc;
use vstd::array::array_as_slice;
use vstd::prelude::*;

verus! {

/// Where a reader stands in the life of its connection.
#[derive(Clone, Copy, Debug, PartialEq, Eq, Structural)]
pub enum ReaderPhase {
    /// The connection was announced and reads go on.
    Open,
    /// The end of the connection was announced; nothing follows.
    Closed,
}

/// What a read call returned: the number of bytes it put at the start of the
/// buffer, or a failure. A count of zero is the peer's orderly close.
#[derive(Clone, Copy, Debug)]
pub enum ReadOutcome {
    Data(usize),
    Failed,
}

/// What a read delivered: the bytes themselves, or a failure.
pub enum Arrival {
    Data(Seq<u8>),
    Failed,
}

impl Arrival {
    /// A read that delivered no bytes, or failed, ends the stream of the
    /// connection. The two are not told apart.
    pub open spec fn ends_stream(self) -> bool {
        match self {
            Arrival::Data(bytes) => bytes.len() == 0,
            Arrival::Failed => true,
        }
    }
}

/// The arrival that a read stands for, given the buffer it filled.
pub open spec fn arrival(buf: Seq<u8>, outcome: ReadOutcome) -> Arrival {
    match outcome {
        ReadOutcome::Data(n) => Arrival::Data(buf.subrange(0, n as int)),
        ReadOutcome::Failed => Arrival::Failed,
    }
}

/// One step of a reader: the phase it moves to and the event it emits when,
/// in `phase`, it learns of `arrival` on the connection of `client`.
pub open spec fn reader_step(phase: ReaderPhase, client: Arc<Client>, arrival: Arrival) -> (
    ReaderPhase,
    Option<EventView>,
) {
    match phase {
        ReaderPhase::Closed => (ReaderPhase::Closed, None),
        ReaderPhase::Open => if arrival.ends_stream() {
            (ReaderPhase::Closed, Some(EventView::Disconnect(client)))
        } else {
            (ReaderPhase::Open, Some(EventView::Frame(client, arrival->Data_0)))
        },
    }
}

/// What a reader emits, and the phase it ends in, when it starts in `phase`
/// and learns of `arrivals` one after the other.
pub open spec fn reader_run(phase: ReaderPhase, client: Arc<Client>, arrivals: Seq<Arrival>) -> (
    ReaderPhase,
    Seq<EventView>,
)
    decreases arrivals.len(),
{
    if arrivals.len() == 0 {
        (phase, Seq::empty())
    } else {
        let (before, emitted) = reader_run(phase, client, arrivals.drop_last());
        let (after, event) = reader_step(before, client, arrivals.last());
        match event {
            Some(event) => (after, emitted.push(event)),
            None => (after, emitted),
        }
    }
}

/// Everything that the reader of `client` emits from the moment it is
/// opened: the connect event, then what `arrivals` give rise to.
pub open spec fn session_trace(client: Arc<Client>, arrivals: Seq<Arrival>) -> Seq<EventView> {
    seq![EventView::Connect(client)] + reader_run(ReaderPhase::Open, client, arrivals).1
}

/// Whether some arrival ends the stream.
pub open spec fn stream_ended(arrivals: Seq<Arrival>) -> bool {
    exists|i: int| 0 <= i < arrivals.len() && (#[trigger] arrivals[i]).ends_stream()
}

/// The number of arrivals that come before the first one that ends the
/// stream: all of them, if none does.
pub open spec fn live_reads(arrivals: Seq<Arrival>) -> nat
    decreases arrivals.len(),
{
    if arrivals.len() == 0 || arrivals.first().ends_stream() {
        0
    } else {
        1 + live_reads(arrivals.drop_first())
    }
}

/// The chunks of bytes that the connection delivered before its stream
/// ended, in the order of their arrival.
pub open spec fn delivered(arrivals: Seq<Arrival>) -> Seq<Seq<u8>> {
    Seq::new(live_reads(arrivals), |i: int| arrivals[i]->Data_0)
}

/// The reader of one connection.
#[derive(Debug)]
pub struct Reader {
    client: Arc<Client>,
    phase: ReaderPhase,
}

impl Reader {
    /// The connection that the reader serves.
    pub closed spec fn client(&self) -> Arc<Client> {
        self.client
    }

    /// The phase that the reader is in.
    pub closed spec fn phase(&self) -> ReaderPhase {
        self.phase
    }

    /// Starts the reader of `client`'s connection. The connect event comes
    /// with the reader itself, so it is emitted once and before any read.
    pub fn open(client: Arc<Client>) -> (started: (Reader, Event))
        ensures
            started.0.client() == client,
            started.0.phase() == ReaderPhase::Open,
            started.1@ == EventView::Connect(client),
    {
        let announced = share(&client);
        (Reader { client, phase: ReaderPhase::Open }, Event::Connect(announced))
    }

    /// Takes the outcome of one read into `buf` and returns the event to
    /// emit, if any. The frame of a frame event is a copy of the bytes read,
    /// so `buf` is free for the next read. After the disconnect event the
    /// reader emits nothing, whatever it is told.
    pub fn on_read(&mut self, buf: &[u8; READ_BUFFER_SIZE], outcome: ReadOutcome) -> (event: Option<
        Event,
    >)
        requires
            outcome matches ReadOutcome::Data(n) ==> n <= READ_BUFFER_SIZE,
        ensures
            final(self).client() == old(self).client(),
            (final(self).phase(), view_of(event)) == reader_step(
                old(self).phase(),
                old(self).client(),
                arrival(buf@, outcome),
            ),
            event matches Some(Event::Frame(_, frame)) ==> 0 < frame_bytes(frame).len()
                <= READ_BUFFER_SIZE,
    {
        match self.phase {
            ReaderPhase::Closed => None,
            ReaderPhase::Open => {
                match outcome {
                    ReadOutcome::Data(n) if n > 0 => {
                        let frame = copy_frame(array_as_slice(buf), n);
                        Some(Event::Frame(share(&self.client), frame))
                    },
                    _ => {
                        self.phase = ReaderPhase::Closed;
                        Some(Event::Disconnect(share(&self.client)))
                    },
                }
            },
        }
    }

    /// Whether the reader has announced the end of its connection.
    pub fn is_closed(&self) -> (closed: bool)
        ensures
            closed == (self.phase() == ReaderPhase::Closed),
    {
        match self.phase {
            ReaderPhase::Closed => true,
            ReaderPhase::Open => false,
        }
    }
}

/// A session is the connect event, then one frame event for each read that
/// delivered bytes before the stream ended, each carrying the bytes of its
/// read and none of them empty, and then, once the stream has ended, the
/// disconnect event. The reader is closed exactly when the stream has ended.
pub proof fn lemma_session_shape(client: Arc<Client>, arrivals: Seq<Arrival>)
    ensures
        ({
            let trace = session_trace(client, arrivals);
            let chunks = delivered(arrivals);
            &&& trace.len() == 1 + chunks.len() + if stream_ended(arrivals) {
                1nat
            } else {
                0nat
            }
            &&& trace[0] == EventView::Connect(client)
            &&& forall|i: int|
                0 <= i < chunks.len() ==> #[trigger] trace[i + 1] == EventView::Frame(
                    client,
                    chunks[i],
                )
            &&& forall|i: int| 0 <= i < chunks.len() ==> (#[trigger] chunks[i]).len() > 0
            &&& stream_ended(arrivals) ==> trace.last() == EventView::Disconnect(client)
        }),
        stream_ended(arrivals) <==> live_reads(arrivals) < arrivals.len(),
        stream_ended(arrivals) <==> reader_run(ReaderPhase::Open, client, arrivals).0
            == ReaderPhase::Closed,
{
    lemma_live_reads_ends(arrivals);
    lemma_trace_ending_at(client, arrivals, live_reads(arrivals) as int);
}

/// Of every connection exactly one connect event is seen, and it is the
/// first event of the session. At most one disconnect event is seen; it is
/// seen exactly when the stream has ended, and it is the last event of the
/// session, so that every frame event comes before it.
pub proof fn lemma_connect_and_disconnect_once(client: Arc<Client>, arrivals: Seq<Arrival>)
    ensures
        ({
            let trace = session_trace(client, arrivals);
            &&& forall|i: int|
                0 <= i < trace.len() ==> ((#[trigger] trace[i]) is Connect <==> i == 0)
            &&& forall|i: int|
                0 <= i < trace.len() ==> ((#[trigger] trace[i]) is Disconnect <==> stream_ended(
                    arrivals,
                ) && i == trace.len() - 1)
            &&& forall|i: int, j: int|
                0 <= i < trace.len() && 0 <= j < trace.len() && (#[trigger] trace[i]) is Frame
                    && (#[trigger] trace[j]) is Disconnect ==> i < j
        }),
{
    lemma_live_reads_ends(arrivals);
    lemma_trace_ending_at(client, arrivals, live_reads(arrivals) as int);
}

/// The frame events of a session carry the bytes that the connection
/// delivered, chunk for chunk and in the same order; put end to end, the
/// frames are the bytes that arrived.
pub proof fn lemma_frames_are_what_arrived(client: Arc<Client>, arrivals: Seq<Arrival>)
    ensures
        frames(session_trace(client, arrivals)) == delivered(arrivals),
        frames(session_trace(client, arrivals)).flatten() == delivered(arrivals).flatten(),
{
    let k = live_reads(arrivals) as int;
    lemma_live_reads_ends(arrivals);
    lemma_trace_ending_at(client, arrivals, k);
    let trace = session_trace(client, arrivals);
    lemma_frames_of_prefix(client, arrivals, k, trace.len() as int);
    assert(trace.take(trace.len() as int) =~= trace);
}

/// However the transport cuts the peer's writes into reads, the frames of
/// the session, put end to end, are the bytes of the writes, put end to end.
pub proof fn lemma_frames_join_to_what_was_sent(
    client: Arc<Client>,
    writes: Seq<Seq<u8>>,
    arrivals: Seq<Arrival>,
)
    requires
        delivered(arrivals).flatten() == writes.flatten(),
    ensures
        frames(session_trace(client, arrivals)).flatten() == writes.flatten(),
{
    lemma_frames_are_what_arrived(client, arrivals);
}

/// Every event of a session names the session's own connection: no event of
/// one connection is ever seen under the name of another.
pub proof fn lemma_events_name_their_connection(client: Arc<Client>, arrivals: Seq<Arrival>)
    ensures
        forall|i: int|
            0 <= i < session_trace(client, arrivals).len() ==> (#[trigger] session_trace(
                client,
                arrivals,
            )[i]).client() == client,
{
    lemma_live_reads_ends(arrivals);
    lemma_trace_ending_at(client, arrivals, live_reads(arrivals) as int);
}

/// When the peer closes a connection whose stream has not ended, the very
/// next step of the reader emits the disconnect event and closes the reader,
/// whether or not any frame came before.
pub proof fn lemma_close_is_announced_at_once(client: Arc<Client>, arrivals: Seq<Arrival>)
    requires
        !stream_ended(arrivals),
    ensures
        session_trace(client, arrivals.push(Arrival::Data(Seq::empty()))) == session_trace(
            client,
            arrivals,
        ).push(EventView::Disconnect(client)),
        reader_run(ReaderPhase::Open, client, arrivals.push(Arrival::Data(Seq::empty()))).0
            == ReaderPhase::Closed,
{
    lemma_session_shape(client, arrivals);
    assert(arrivals.push(Arrival::Data(Seq::empty())).drop_last() =~= arrivals);
}

/// A connection that is closed before it delivered anything is seen as the
/// connect event followed directly by the disconnect event.
pub proof fn lemma_silent_session(client: Arc<Client>)
    ensures
        session_trace(client, seq![Arrival::Data(Seq::empty())]) == seq![
            EventView::Connect(client),
            EventView::Disconnect(client),
        ],
{
    lemma_trace_ending_at(client, seq![Arrival::Data(Seq::empty())], 0);
}

/// `k` is where the stream of `arrivals` ends: no arrival before `k` ends
/// it, and the one at `k`, if there is one, does.
spec fn ends_at(arrivals: Seq<Arrival>, k: int) -> bool {
    &&& 0 <= k <= arrivals.len()
    &&& forall|i: int| 0 <= i < k ==> !(#[trigger] arrivals[i]).ends_stream()
    &&& k < arrivals.len() ==> arrivals[k].ends_stream()
}

proof fn lemma_live_reads_ends(arrivals: Seq<Arrival>)
    ensures
        ends_at(arrivals, live_reads(arrivals) as int),
    decreases arrivals.len(),
{
    if arrivals.len() > 0 && !arrivals.first().ends_stream() {
        let rest = arrivals.drop_first();
        lemma_live_reads_ends(rest);
        let k = live_reads(arrivals) as int;
        assert forall|i: int| 0 <= i < k implies !(#[trigger] arrivals[i]).ends_stream() by {
            if i > 0 {
                assert(arrivals[i] == rest[i - 1]);
            }
        }
    }
}

/// The trace of a session, event by event, for a stream that ends at `k`.
spec fn trace_ending_at(client: Arc<Client>, arrivals: Seq<Arrival>, k: int) -> Seq<EventView> {
    Seq::new(
        if k < arrivals.len() {
            (k + 2) as nat
        } else {
            (k + 1) as nat
        },
        |i: int|
            if i == 0 {
                EventView::Connect(client)
            } else if i <= k {
                EventView::Frame(client, arrivals[i - 1]->Data_0)
            } else {
                EventView::Disconnect(client)
            },
    )
}

proof fn lemma_trace_ending_at(client: Arc<Client>, arrivals: Seq<Arrival>, k: int)
    requires
        ends_at(arrivals, k),
    ensures
        session_trace(client, arrivals) == trace_ending_at(client, arrivals, k),
        reader_run(ReaderPhase::Open, client, arrivals).0 == if k < arrivals.len() {
            ReaderPhase::Closed
        } else {
            ReaderPhase::Open
        },
    decreases arrivals.len(),
{
    if arrivals.len() > 0 {
        let earlier = arrivals.drop_last();
        let j = if k < earlier.len() {
            k
        } else {
            earlier.len() as int
        };
        lemma_trace_ending_at(client, earlier, j);
        assert(reader_run(ReaderPhase::Open, client, earlier).1 =~= trace_ending_at(
            client,
            earlier,
            j,
        ).skip(1));
    }
}

proof fn lemma_frames_of_prefix(client: Arc<Client>, arrivals: Seq<Arrival>, k: int, n: int)
    requires
        ends_at(arrivals, k),
        0 <= n <= trace_ending_at(client, arrivals, k).len(),
    ensures
        frames(trace_ending_at(client, arrivals, k).take(n)) == Seq::new(
            if n <= k {
                if n == 0 {
                    0nat
                } else {
                    (n - 1) as nat
                }
            } else {
                k as nat
            },
            |i: int| arrivals[i]->Data_0,
        ),
    decreases n,
{
    let trace = trace_ending_at(client, arrivals, k);
    if n > 0 {
        lemma_frames_of_prefix(client, arrivals, k, n - 1);
        assert(trace.take(n).drop_last() =~= trace.take(n - 1));
    }
}

} // verus!
