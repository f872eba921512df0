//! The download side: reassembling an object from chunks that are fetched
//! concurrently.
//!
//! Every chunk of the manifest has a fetch task and a bounded queue of its
//! own. The sequencer holds a cursor into the list of queues and hands on
//! only what the queue at the cursor yields, so the output is in manifest
//! order however the fetches race. The tasks and queues belong to the
//! caller; the decisions are made here.

use crate::transport::is_success;
use vstd::prelude::*;

verus! {

/// The number of fragments a chunk's queue holds before its fetch task has
/// to wait for the sequencer.
pub const CHANNEL_BUFFER: usize = 8;

/// What polling the queue at the cursor gave.
#[derive(Clone, Copy, PartialEq, Eq, Structural, Debug)]
pub enum PollOutcome {
    /// A fragment of the chunk.
    Data,
    /// The chunk's fetch failed: the queue's last item.
    Error,
    /// The queue is drained and its task is done.
    Closed,
    /// Nothing yet.
    Pending,
}

/// What the sequencer does about an outcome.
#[derive(Clone, Copy, PartialEq, Eq, Structural, Debug)]
pub enum SequencerAction {
    /// Hand the item just received to the consumer.
    Emit,
    /// The cursor moved on: poll the queue it now stands at.
    Retry,
    /// Wait until the queue at the cursor has something.
    Suspend,
    /// The output has ended.
    Finish,
}

/// The sequencer: the cursor, the number of queues, and whether an error has
/// gone out.
#[derive(Clone, Copy, PartialEq, Eq, Structural, Debug)]
pub struct OrderedSequencer {
    pub cursor: usize,
    pub total: usize,
    pub failed: bool,
}

impl OrderedSequencer {
    /// Whether the output has ended: an error went out, or every queue is
    /// drained.
    pub open spec fn finished(self) -> bool {
        self.failed || self.cursor >= self.total
    }

    /// The sequencer after `outcome`, and what it does about it. Data goes
    /// out as it comes; an error goes out and ends the output; only a closed
    /// queue moves the cursor; once the output has ended nothing changes.
    pub open spec fn next(self, outcome: PollOutcome) -> (OrderedSequencer, SequencerAction) {
        if self.finished() {
            (self, SequencerAction::Finish)
        } else {
            match outcome {
                PollOutcome::Data => (self, SequencerAction::Emit),
                PollOutcome::Error => (
                    OrderedSequencer { cursor: self.cursor, total: self.total, failed: true },
                    SequencerAction::Emit,
                ),
                PollOutcome::Closed => (
                    OrderedSequencer {
                        cursor: (self.cursor + 1) as usize,
                        total: self.total,
                        failed: false,
                    },
                    if self.cursor + 1 >= self.total {
                        SequencerAction::Finish
                    } else {
                        SequencerAction::Retry
                    },
                ),
                PollOutcome::Pending => (self, SequencerAction::Suspend),
            }
        }
    }

    /// A sequencer over `total` queues, its cursor at the first.
    pub fn new(total: usize) -> (sequencer: Self)
        ensures
            sequencer == (OrderedSequencer { cursor: 0, total, failed: false }),
    {
        OrderedSequencer { cursor: 0, total, failed: false }
    }

    /// The queue to poll next, or `None` once the output has ended.
    pub fn current(&self) -> (queue: Option<usize>)
        ensures
            queue == if self.finished() {
                None
            } else {
                Some(self.cursor)
            },
    {
        if self.failed || self.cursor >= self.total {
            None
        } else {
            Some(self.cursor)
        }
    }

    /// Takes in what polling the queue at the cursor gave and says what to
    /// do.
    pub fn on_poll(&mut self, outcome: PollOutcome) -> (action: SequencerAction)
        ensures
            (*final(self), action) == old(self).next(outcome),
    {
        if self.failed || self.cursor >= self.total {
            return SequencerAction::Finish;
        }
        match outcome {
            PollOutcome::Data => SequencerAction::Emit,
            PollOutcome::Error => {
                self.failed = true;
                SequencerAction::Emit
            },
            PollOutcome::Closed => {
                self.cursor = self.cursor + 1;
                if self.cursor >= self.total {
                    SequencerAction::Finish
                } else {
                    SequencerAction::Retry
                }
            },
            PollOutcome::Pending => SequencerAction::Suspend,
        }
    }
}

/// An item of a chunk's queue, as the lemmas below see it.
pub enum QueueItem {
    /// A fragment of the chunk's bytes.
    Data(Seq<u8>),
    /// The chunk's fetch failed.
    Error,
}

/// The outcome that polling gives when `item` is next in the queue.
pub open spec fn outcome_of(item: QueueItem) -> PollOutcome {
    match item {
        QueueItem::Data(_) => PollOutcome::Data,
        QueueItem::Error => PollOutcome::Error,
    }
}

/// The bytes that a list of items carries: the fragments joined in order.
pub open spec fn bytes_of(items: Seq<QueueItem>) -> Seq<u8>
    decreases items.len(),
{
    if items.len() == 0 {
        Seq::empty()
    } else {
        let before = bytes_of(items.drop_last());
        match items.last() {
            QueueItem::Data(fragment) => before + fragment,
            QueueItem::Error => before,
        }
    }
}

/// A reassembly under way: the sequencer, the number of items already taken
/// from the queue at its cursor, and everything handed to the consumer.
pub struct Reassembly {
    pub sequencer: OrderedSequencer,
    pub taken: nat,
    pub emitted: Seq<QueueItem>,
}

/// The start of a reassembly over `total` queues.
pub open spec fn reassembly_start(total: usize) -> Reassembly {
    Reassembly {
        sequencer: OrderedSequencer { cursor: 0, total, failed: false },
        taken: 0,
        emitted: Seq::empty(),
    }
}

/// Whether polling can give `outcome` at this point, the queues holding
/// `queues` in all once their tasks are done. A queue may always have
/// nothing yet, however full the queues behind it are; it hands out its
/// items in order and closes behind the last.
pub open spec fn can_occur(queues: Seq<Seq<QueueItem>>, r: Reassembly, outcome: PollOutcome) -> bool {
    let queue = queues[r.sequencer.cursor as int];
    r.sequencer.finished() || match outcome {
        PollOutcome::Pending => true,
        PollOutcome::Closed => r.taken == queue.len(),
        _ => r.taken < queue.len() && outcome_of(queue[r.taken as int]) == outcome,
    }
}

/// The reassembly after one more poll of the queue at the cursor.
pub open spec fn after_poll(queues: Seq<Seq<QueueItem>>, r: Reassembly, outcome: PollOutcome) -> Reassembly {
    let (sequencer, action) = r.sequencer.next(outcome);
    if action == SequencerAction::Emit {
        Reassembly {
            sequencer,
            taken: r.taken + 1,
            emitted: r.emitted.push(queues[r.sequencer.cursor as int][r.taken as int]),
        }
    } else if sequencer.cursor != r.sequencer.cursor {
        Reassembly { sequencer, taken: 0, emitted: r.emitted }
    } else {
        Reassembly { sequencer, taken: r.taken, emitted: r.emitted }
    }
}

/// The reassembly after the polls `outcomes`, in order, from the start.
pub open spec fn reassemble(queues: Seq<Seq<QueueItem>>, outcomes: Seq<PollOutcome>) -> Reassembly
    decreases outcomes.len(),
{
    if outcomes.len() == 0 {
        reassembly_start(queues.len() as usize)
    } else {
        after_poll(queues, reassemble(queues, outcomes.drop_last()), outcomes.last())
    }
}

/// Whether the polls `outcomes` can occur one after the other, from the
/// start, over queues that hold `queues` in all.
pub open spec fn can_occur_in_turn(queues: Seq<Seq<QueueItem>>, outcomes: Seq<PollOutcome>) -> bool
    decreases outcomes.len(),
{
    outcomes.len() == 0 || {
        &&& can_occur_in_turn(queues, outcomes.drop_last())
        &&& can_occur(queues, reassemble(queues, outcomes.drop_last()), outcomes.last())
    }
}

/// What has left the queues once the cursor stands at `cursor` with `taken`
/// items taken there: the queues before the cursor in full, then that many
/// items of the queue at the cursor.
pub open spec fn delivered(queues: Seq<Seq<QueueItem>>, cursor: int, taken: nat) -> Seq<QueueItem> {
    if cursor < queues.len() {
        queues.take(cursor).flatten() + queues[cursor].take(taken as int)
    } else {
        queues.flatten()
    }
}

/// The output is in manifest order whatever the fetches do: after any polls
/// that can occur, what has been handed to the consumer is the queues before
/// the cursor in full and in order, followed by the items taken from the
/// queue at the cursor. Nothing of a later queue has gone out, however early
/// it was filled. An error is the last thing handed out; before it there are
/// only fragments. Once every queue is drained without an error, the output
/// is all queues joined in order.
pub proof fn lemma_output_is_in_manifest_order(
    queues: Seq<Seq<QueueItem>>,
    outcomes: Seq<PollOutcome>,
)
    requires
        queues.len() <= usize::MAX,
        can_occur_in_turn(queues, outcomes),
    ensures
        ({
            let r = reassemble(queues, outcomes);
            &&& r.sequencer.total == queues.len()
            &&& r.sequencer.cursor <= queues.len()
            &&& r.sequencer.cursor < queues.len() ==> r.taken <= queues[r.sequencer.cursor as int].len()
            &&& r.emitted == delivered(queues, r.sequencer.cursor as int, r.taken)
            &&& forall|i: int|
                0 <= i < r.emitted.len() && (i < r.emitted.len() - 1 || !r.sequencer.failed)
                    ==> #[trigger] r.emitted[i] is Data
            &&& r.sequencer.failed ==> r.emitted.len() > 0 && r.emitted.last() is Error
            &&& !r.sequencer.failed && r.sequencer.cursor == queues.len() ==> r.emitted
                == queues.flatten()
        }),
    decreases outcomes.len(),
{
    let r = reassemble(queues, outcomes);
    if outcomes.len() == 0 {
        assert(queues.take(0) =~= Seq::<Seq<QueueItem>>::empty());
        if queues.len() > 0 {
            assert(queues[0].take(0) =~= Seq::<QueueItem>::empty());
            assert(queues.take(0).flatten() + queues[0].take(0) =~= Seq::<QueueItem>::empty());
        } else {
            assert(queues.flatten() =~= Seq::<QueueItem>::empty());
        }
    } else {
        let before = reassemble(queues, outcomes.drop_last());
        let outcome = outcomes.last();
        lemma_output_is_in_manifest_order(queues, outcomes.drop_last());
        if !before.sequencer.finished() {
            let cursor = before.sequencer.cursor as int;
            let queue = queues[cursor];
            match outcome {
                PollOutcome::Pending => {},
                PollOutcome::Closed => {
                    assert(queue.take(before.taken as int) =~= queue);
                    assert(queues.take(cursor + 1) =~= queues.take(cursor).push(queue));
                    queues.take(cursor).lemma_flatten_push(queue);
                    if cursor + 1 < queues.len() {
                        assert(queues[cursor + 1].take(0) =~= Seq::<QueueItem>::empty());
                        assert(r.emitted =~= delivered(queues, cursor + 1, 0));
                    } else {
                        assert(queues.take(cursor + 1) =~= queues);
                    }
                },
                _ => {
                    assert(queue.take(before.taken as int + 1) =~= queue.take(
                        before.taken as int,
                    ).push(queue[before.taken as int]));
                    assert(r.emitted =~= delivered(queues, cursor, before.taken + 1));
                },
            }
        }
    }
}

/// The bytes of two lists of items, one behind the other, are the bytes of
/// the first followed by the bytes of the second.
pub proof fn lemma_bytes_of_concat(a: Seq<QueueItem>, b: Seq<QueueItem>)
    ensures
        bytes_of(a + b) == bytes_of(a) + bytes_of(b),
    decreases b.len(),
{
    if b.len() == 0 {
        assert(a + b =~= a);
        assert(bytes_of(a) + bytes_of(b) =~= bytes_of(a));
    } else {
        lemma_bytes_of_concat(a, b.drop_last());
        assert((a + b).drop_last() =~= a + b.drop_last());
        assert((a + b).last() == b.last());
        match b.last() {
            QueueItem::Data(fragment) => {
                assert(bytes_of(a) + (bytes_of(b.drop_last()) + fragment) =~= (bytes_of(a)
                    + bytes_of(b.drop_last())) + fragment);
            },
            QueueItem::Error => {},
        }
    }
}

/// Where every queue carries the bytes of its chunk, in whatever fragments,
/// the queues joined in order carry the chunks joined in order.
pub proof fn lemma_queues_carry_the_chunks(queues: Seq<Seq<QueueItem>>, chunks: Seq<Seq<u8>>)
    requires
        queues.len() == chunks.len(),
        forall|i: int| 0 <= i < queues.len() ==> bytes_of(#[trigger] queues[i]) == chunks[i],
    ensures
        bytes_of(queues.flatten()) == chunks.flatten(),
    decreases queues.len(),
{
    if queues.len() == 0 {
        assert(queues.flatten() =~= Seq::<QueueItem>::empty());
        assert(chunks.flatten() =~= Seq::<u8>::empty());
    } else {
        let q = queues.drop_last();
        let c = chunks.drop_last();
        assert forall|i: int| 0 <= i < q.len() implies bytes_of(#[trigger] q[i]) == c[i] by {
            assert(q[i] == queues[i]);
        }
        lemma_queues_carry_the_chunks(q, c);
        assert(queues =~= q.push(queues.last()));
        assert(chunks =~= c.push(chunks.last()));
        q.lemma_flatten_push(queues.last());
        c.lemma_flatten_push(chunks.last());
        lemma_bytes_of_concat(q.flatten(), queues.last());
    }
}

/// The number of bytes in a list of fragments.
pub open spec fn fragment_bytes(fragments: Seq<Seq<u8>>) -> nat
    decreases fragments.len(),
{
    if fragments.len() == 0 {
        0
    } else {
        fragment_bytes(fragments.drop_last()) + fragments.last().len()
    }
}

/// The number of bytes that a list of queues holds.
pub open spec fn held_bytes(queues: Seq<Seq<Seq<u8>>>) -> nat
    decreases queues.len(),
{
    if queues.len() == 0 {
        0
    } else {
        held_bytes(queues.drop_last()) + fragment_bytes(queues.last())
    }
}

/// A queue of at most `capacity` fragments of at most `max_fragment` bytes
/// each holds at most `capacity * max_fragment` bytes.
pub proof fn lemma_queue_is_bounded(fragments: Seq<Seq<u8>>, capacity: nat, max_fragment: nat)
    requires
        fragments.len() <= capacity,
        forall|j: int| 0 <= j < fragments.len() ==> (#[trigger] fragments[j]).len() <= max_fragment,
    ensures
        fragment_bytes(fragments) <= capacity * max_fragment,
    decreases fragments.len(),
{
    if fragments.len() == 0 {
        assert(capacity * max_fragment >= 0) by (nonlinear_arith);
    } else {
        let front = fragments.drop_last();
        assert forall|j: int| 0 <= j < front.len() implies (#[trigger] front[j]).len()
            <= max_fragment by {
            assert(front[j] == fragments[j]);
        }
        lemma_queue_is_bounded(front, (capacity - 1) as nat, max_fragment);
        assert((capacity - 1) * max_fragment + max_fragment == capacity * max_fragment)
            by (nonlinear_arith);
    }
}

/// Memory held for a download does not grow with the object: as long as
/// each of the queues holds at most `CHANNEL_BUFFER` fragments, and no
/// fragment is longer than `max_fragment` bytes, all queues together hold at
/// most their number times `CHANNEL_BUFFER` times `max_fragment` bytes. That
/// a queue takes no more than its capacity is the queue's doing and is
/// assumed here.
pub proof fn lemma_held_bytes_are_bounded(queues: Seq<Seq<Seq<u8>>>, max_fragment: nat)
    requires
        forall|i: int| 0 <= i < queues.len() ==> (#[trigger] queues[i]).len() <= CHANNEL_BUFFER,
        forall|i: int, j: int|
            0 <= i < queues.len() && 0 <= j < queues[i].len() ==> (#[trigger] queues[i][j]).len()
                <= max_fragment,
    ensures
        held_bytes(queues) <= queues.len() * CHANNEL_BUFFER * max_fragment,
    decreases queues.len(),
{
    let per_queue = CHANNEL_BUFFER as nat * max_fragment;
    if queues.len() == 0 {
        assert(queues.len() * CHANNEL_BUFFER * max_fragment == 0) by (nonlinear_arith)
            requires
                queues.len() == 0,
        ;
    } else {
        let front = queues.drop_last();
        let last = queues.last();
        assert forall|i: int| 0 <= i < front.len() implies (#[trigger] front[i]).len()
            <= CHANNEL_BUFFER by {
            assert(front[i] == queues[i]);
        }
        assert forall|i: int, j: int| 0 <= i < front.len() && 0 <= j < front[i].len() implies (
        #[trigger] front[i][j]).len() <= max_fragment by {
            assert(front[i][j] == queues[i][j]);
        }
        lemma_held_bytes_are_bounded(front, max_fragment);
        assert forall|j: int| 0 <= j < last.len() implies (#[trigger] last[j]).len()
            <= max_fragment by {
            assert(last[j] == queues[queues.len() - 1][j]);
        }
        lemma_queue_is_bounded(last, CHANNEL_BUFFER as nat, max_fragment);
        let n = queues.len() as int;
        let c = CHANNEL_BUFFER as int;
        let m = max_fragment as int;
        assert((n - 1) * c * m + c * m == n * c * m) by (nonlinear_arith);
    }
}

/// What a fetch task meets.
#[derive(Clone, Copy, PartialEq, Eq, Structural, Debug)]
pub enum FetchEvent {
    /// The node could not be reached.
    ConnectFailed,
    /// The node answered the request with this status.
    Answered(u16),
    /// The next fragment of the chunk arrived.
    Fragment,
    /// Reading the chunk failed midway.
    ReadFailed,
    /// The chunk has been read to its end.
    BodyEnded,
    /// The last item was taken by the queue.
    Sent,
    /// The queue is gone: nobody reads the output any more.
    ReceiverGone,
}

/// What a fetch task does next.
#[derive(Clone, Copy, PartialEq, Eq, Structural, Debug)]
pub enum FetchAction {
    /// Read the next fragment of the chunk.
    Read,
    /// Put the fragment just read into the queue.
    SendData,
    /// Put the error into the queue as its last item.
    SendError,
    /// End the task; the queue closes with it.
    Stop,
}

/// Where a fetch task stands.
#[derive(Clone, Copy, PartialEq, Eq, Structural, Debug)]
pub enum FetchTask {
    /// The request is out, no answer yet.
    Connecting,
    /// The chunk is being read and forwarded.
    Streaming,
    /// An error is on its way into the queue.
    Failing,
    /// The task has ended.
    Stopped,
}

impl FetchTask {
    /// The task after `event`, and what it does next. A failure to connect,
    /// a status that is no success and a failure while reading each go into
    /// the queue as an error, and the task ends behind it; a fragment is
    /// forwarded and the next one read; the task ends at the end of the
    /// chunk and as soon as nobody reads the queue.
    pub open spec fn next(self, event: FetchEvent) -> (FetchTask, FetchAction) {
        match (self, event) {
            (FetchTask::Connecting, FetchEvent::ConnectFailed) => (
                FetchTask::Failing,
                FetchAction::SendError,
            ),
            (FetchTask::Connecting, FetchEvent::Answered(status)) => if is_success(status) {
                (FetchTask::Streaming, FetchAction::Read)
            } else {
                (FetchTask::Failing, FetchAction::SendError)
            },
            (FetchTask::Streaming, FetchEvent::Fragment) => (
                FetchTask::Streaming,
                FetchAction::SendData,
            ),
            (FetchTask::Streaming, FetchEvent::Sent) => (FetchTask::Streaming, FetchAction::Read),
            (FetchTask::Streaming, FetchEvent::ReadFailed) => (
                FetchTask::Failing,
                FetchAction::SendError,
            ),
            _ => (FetchTask::Stopped, FetchAction::Stop),
        }
    }

    /// A task whose request has just gone out.
    pub fn new() -> (task: Self)
        ensures
            task == FetchTask::Connecting,
    {
        FetchTask::Connecting
    }

    /// Takes in an event and says what to do next.
    pub fn on_event(&mut self, event: FetchEvent) -> (action: FetchAction)
        ensures
            (*final(self), action) == old(self).next(event),
    {
        let (task, action) = match (*self, event) {
            (FetchTask::Connecting, FetchEvent::ConnectFailed) => (
                FetchTask::Failing,
                FetchAction::SendError,
            ),
            (FetchTask::Connecting, FetchEvent::Answered(status)) => {
                if 200 <= status && status < 300 {
                    (FetchTask::Streaming, FetchAction::Read)
                } else {
                    (FetchTask::Failing, FetchAction::SendError)
                }
            },
            (FetchTask::Streaming, FetchEvent::Fragment) => (
                FetchTask::Streaming,
                FetchAction::SendData,
            ),
            (FetchTask::Streaming, FetchEvent::Sent) => (FetchTask::Streaming, FetchAction::Read),
            (FetchTask::Streaming, FetchEvent::ReadFailed) => (
                FetchTask::Failing,
                FetchAction::SendError,
            ),
            _ => (FetchTask::Stopped, FetchAction::Stop),
        };
        *self = task;
        action
    }
}

} // verus!
