//! The frame writer: one per connection. It takes the frames of the
//! connection's outbound queue one by one and hands each to the socket, in
//! the order in which they were queued, until the queue is closed or a write
//! fails.
//!
//! The writer neither waits on the queue nor writes to the socket. Its driver
//! does both and reports what happened.

use crate::frame::frame_bytes;
use bytes::Bytes;
use vstd::prelude::*;

verus! {

/// Whether a writer still serves its queue.
#[derive(Clone, Copy, Debug, PartialEq, Eq, Structural)]
pub enum WriterPhase {
    Running,
    /// The queue was closed or a write failed; nothing is written any more.
    Stopped,
}

/// What a writer can be told.
pub enum WriterInput {
    /// The queue delivered a frame holding these bytes.
    Dequeued(Seq<u8>),
    /// The queue is closed: every sender is gone and the queue is empty.
    QueueClosed,
    /// Writing the last frame to the socket failed.
    WriteFailed,
}

impl WriterInput {
    /// The inputs after which a writer stops.
    pub open spec fn stops_writer(self) -> bool {
        !(self is Dequeued)
    }
}

/// What waiting on the queue returned, as an input of the writer.
pub open spec fn dequeued(next: Option<Bytes>) -> WriterInput {
    match next {
        Some(frame) => WriterInput::Dequeued(frame_bytes(frame)),
        None => WriterInput::QueueClosed,
    }
}

/// The bytes of the frame that a writer hands to the socket, if it hands out
/// one.
pub open spec fn written(out: Option<Bytes>) -> Option<Seq<u8>> {
    match out {
        Some(frame) => Some(frame_bytes(frame)),
        None => None,
    }
}

/// One step of a writer: the phase it moves to and the bytes it hands to the
/// socket when, in `phase`, it is told `input`.
pub open spec fn writer_step(phase: WriterPhase, input: WriterInput) -> (
    WriterPhase,
    Option<Seq<u8>>,
) {
    match phase {
        WriterPhase::Stopped => (WriterPhase::Stopped, None),
        WriterPhase::Running => match input {
            WriterInput::Dequeued(bytes) => (WriterPhase::Running, Some(bytes)),
            _ => (WriterPhase::Stopped, None),
        },
    }
}

/// What a writer hands to the socket, and the phase it ends in, when it
/// starts in `phase` and is told `inputs` one after the other.
pub open spec fn writer_run(phase: WriterPhase, inputs: Seq<WriterInput>) -> (
    WriterPhase,
    Seq<Seq<u8>>,
)
    decreases inputs.len(),
{
    if inputs.len() == 0 {
        (phase, Seq::empty())
    } else {
        let (before, handed) = writer_run(phase, inputs.drop_last());
        let (after, bytes) = writer_step(before, inputs.last());
        match bytes {
            Some(bytes) => (after, handed.push(bytes)),
            None => (after, handed),
        }
    }
}

/// The number of inputs that come before the first one that stops the
/// writer: all of them, if none does.
pub open spec fn served(inputs: Seq<WriterInput>) -> nat
    decreases inputs.len(),
{
    if inputs.len() == 0 || inputs.first().stops_writer() {
        0
    } else {
        1 + served(inputs.drop_first())
    }
}

/// What waiting on a queue returns, time after time, while the queue holds
/// `queue`: its frames, first in first out.
pub open spec fn dequeue_all(queue: Seq<Seq<u8>>) -> Seq<WriterInput> {
    Seq::new(queue.len(), |i: int| WriterInput::Dequeued(queue[i]))
}

/// The writer of one connection.
#[derive(Debug)]
pub struct Writer {
    phase: WriterPhase,
}

impl Writer {
    /// The phase that the writer is in.
    pub closed spec fn phase(&self) -> WriterPhase {
        self.phase
    }

    /// A writer that is ready to serve its queue.
    pub fn new() -> (writer: Writer)
        ensures
            writer.phase() == WriterPhase::Running,
    {
        Writer { phase: WriterPhase::Running }
    }

    /// Takes what waiting on the queue returned, a frame or `None` once the
    /// queue is closed, and returns the frame to write to the socket now. A
    /// running writer passes every frame on untouched; a stopped one drops
    /// it.
    pub fn on_dequeue(&mut self, next: Option<Bytes>) -> (out: Option<Bytes>)
        ensures
            out == (if old(self).phase() == WriterPhase::Running {
                next
            } else {
                None
            }),
            (final(self).phase(), written(out)) == writer_step(old(self).phase(), dequeued(next)),
    {
        match self.phase {
            WriterPhase::Stopped => None,
            WriterPhase::Running => {
                if next.is_none() {
                    self.phase = WriterPhase::Stopped;
                }
                next
            },
        }
    }

    /// Records that writing the last frame failed: the writer stops, and
    /// tells nobody.
    pub fn on_write_failed(&mut self)
        ensures
            final(self).phase() == writer_step(old(self).phase(), WriterInput::WriteFailed).0,
            final(self).phase() == WriterPhase::Stopped,
    {
        self.phase = WriterPhase::Stopped;
    }

    /// Whether the writer has stopped.
    pub fn is_stopped(&self) -> (stopped: bool)
        ensures
            stopped == (self.phase() == WriterPhase::Stopped),
    {
        match self.phase {
            WriterPhase::Stopped => true,
            WriterPhase::Running => false,
        }
    }
}

/// A writer hands to the socket the frames that its queue delivered before
/// the first input that stopped it, one write for each frame and in the
/// order of their delivery, and nothing after that.
pub proof fn lemma_writes_until_stopped(inputs: Seq<WriterInput>)
    ensures
        writer_run(WriterPhase::Running, inputs).1 == Seq::new(
            served(inputs),
            |i: int| inputs[i]->Dequeued_0,
        ),
        writer_run(WriterPhase::Running, inputs).0 == if served(inputs) < inputs.len() {
            WriterPhase::Stopped
        } else {
            WriterPhase::Running
        },
{
    lemma_served_stops(inputs);
    lemma_run_stopping_at(inputs, served(inputs) as int);
}

/// While nothing stops it, a writer puts the frames of its queue on the
/// socket first in, first out.
pub proof fn lemma_queue_order_is_write_order(queue: Seq<Seq<u8>>)
    ensures
        writer_run(WriterPhase::Running, dequeue_all(queue)) == (WriterPhase::Running, queue),
{
    let inputs = dequeue_all(queue);
    lemma_run_stopping_at(inputs, inputs.len() as int);
}

/// `k` is where the writer stops: no input before `k` stops it, and the one
/// at `k`, if there is one, does.
spec fn stops_at(inputs: Seq<WriterInput>, k: int) -> bool {
    &&& 0 <= k <= inputs.len()
    &&& forall|i: int| 0 <= i < k ==> !(#[trigger] inputs[i]).stops_writer()
    &&& k < inputs.len() ==> inputs[k].stops_writer()
}

proof fn lemma_served_stops(inputs: Seq<WriterInput>)
    ensures
        stops_at(inputs, served(inputs) as int),
    decreases inputs.len(),
{
    if inputs.len() > 0 && !inputs.first().stops_writer() {
        let rest = inputs.drop_first();
        lemma_served_stops(rest);
        let k = served(inputs) as int;
        assert forall|i: int| 0 <= i < k implies !(#[trigger] inputs[i]).stops_writer() by {
            if i > 0 {
                assert(inputs[i] == rest[i - 1]);
            }
        }
    }
}

proof fn lemma_run_stopping_at(inputs: Seq<WriterInput>, k: int)
    requires
        stops_at(inputs, k),
    ensures
        writer_run(WriterPhase::Running, inputs).1 == Seq::new(
            k as nat,
            |i: int| inputs[i]->Dequeued_0,
        ),
        writer_run(WriterPhase::Running, inputs).0 == if k < inputs.len() {
            WriterPhase::Stopped
        } else {
            WriterPhase::Running
        },
    decreases inputs.len(),
{
    if inputs.len() > 0 {
        let earlier = inputs.drop_last();
        let j = if k < earlier.len() {
            k
        } else {
            earlier.len() as int
        };
        lemma_run_stopping_at(earlier, j);
    }
}

} // verus!
