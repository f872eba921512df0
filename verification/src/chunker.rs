//! The upload-side chunker: it turns a body that arrives in fragments of any
//! size into chunks of at most `MAX_CHUNK_SIZE` bytes, holding back no more
//! than what has not yet filled a chunk.
//!
//! The chunker does no reading of its own. Whoever owns the body hands each
//! fragment to `push`, reports the end of the body with `end` (or its failure
//! with `fail`), and takes the chunks from `poll_next`.

use crate::buffer::buffered;
use crate::buffer::frozen;
use bytes::Bytes;
use bytes::BytesMut;
use vstd::prelude::*;

verus! {

/// The most bytes a chunk may hold: 64 MiB.
pub const MAX_CHUNK_SIZE: usize = 67_108_864;

/// Where the body stands, as far as the chunker has been told.
#[derive(Clone, Copy, PartialEq, Eq, Structural, Debug)]
pub enum Phase {
    /// Fragments may still arrive.
    Streaming,
    /// The body has ended; what is buffered is all that is left to emit.
    Ended,
    /// The body failed; nothing more is emitted.
    Failed,
}

/// The chunker as the contracts see it.
pub struct ChunkerState {
    pub phase: Phase,
    /// Bytes received and not yet emitted, oldest first.
    pub pending: Seq<u8>,
}

/// What can be done to a chunker.
pub enum ChunkerOp {
    /// A fragment of the body arrived.
    Push(Seq<u8>),
    /// The body ended.
    End,
    /// Reading the body failed.
    Fail,
    /// The consumer asks for the next chunk.
    Poll,
}

/// What `poll_next` found.
pub enum ChunkPoll {
    /// The next chunk of the object.
    Chunk(Bytes),
    /// No chunk is complete yet and the body is still open: read on.
    NeedInput,
    /// No chunk is left and none will come.
    Finished,
}

/// A chunker that has received nothing.
pub open spec fn initial_state() -> ChunkerState {
    ChunkerState { phase: Phase::Streaming, pending: Seq::empty() }
}

/// The chunk that a poll in state `s` cuts off, if any: a full chunk as soon
/// as one is buffered, and after the end of the body also the remainder.
pub open spec fn emits(s: ChunkerState, limit: nat) -> Option<Seq<u8>> {
    if s.phase == Phase::Failed || limit == 0 {
        None
    } else if s.pending.len() >= limit {
        Some(s.pending.take(limit as int))
    } else if s.phase == Phase::Ended && s.pending.len() > 0 {
        Some(s.pending)
    } else {
        None
    }
}

/// The state that an operation leads to. A fragment, the end of the body and
/// its failure count only while the body is open.
pub open spec fn step(s: ChunkerState, op: ChunkerOp, limit: nat) -> ChunkerState {
    match op {
        ChunkerOp::Push(fragment) => if s.phase == Phase::Streaming {
            ChunkerState { phase: s.phase, pending: s.pending + fragment }
        } else {
            s
        },
        ChunkerOp::End => if s.phase == Phase::Streaming {
            ChunkerState { phase: Phase::Ended, pending: s.pending }
        } else {
            s
        },
        ChunkerOp::Fail => if s.phase == Phase::Streaming {
            ChunkerState { phase: Phase::Failed, pending: s.pending }
        } else {
            s
        },
        ChunkerOp::Poll => match emits(s, limit) {
            Some(chunk) => ChunkerState {
                phase: s.phase,
                pending: s.pending.skip(chunk.len() as int),
            },
            None => s,
        },
    }
}

/// The chunk that an operation hands out: only a poll hands out anything.
pub open spec fn output(s: ChunkerState, op: ChunkerOp, limit: nat) -> Option<Seq<u8>> {
    match op {
        ChunkerOp::Poll => emits(s, limit),
        _ => None,
    }
}

/// The state of a fresh chunker after the operations `ops`, in order.
pub open spec fn run_state(ops: Seq<ChunkerOp>, limit: nat) -> ChunkerState
    decreases ops.len(),
{
    if ops.len() == 0 {
        initial_state()
    } else {
        step(run_state(ops.drop_last(), limit), ops.last(), limit)
    }
}

/// The chunks that a fresh chunker has handed out during `ops`, in order.
pub open spec fn run_output(ops: Seq<ChunkerOp>, limit: nat) -> Seq<Seq<u8>>
    decreases ops.len(),
{
    if ops.len() == 0 {
        Seq::empty()
    } else {
        let before = run_output(ops.drop_last(), limit);
        match output(run_state(ops.drop_last(), limit), ops.last(), limit) {
            Some(chunk) => before.push(chunk),
            None => before,
        }
    }
}

/// The bytes of the body that a fresh chunker has taken in during `ops`: the
/// fragments pushed while the body was open, joined in order.
pub open spec fn accepted(ops: Seq<ChunkerOp>, limit: nat) -> Seq<u8>
    decreases ops.len(),
{
    if ops.len() == 0 {
        Seq::empty()
    } else {
        let before = accepted(ops.drop_last(), limit);
        match ops.last() {
            ChunkerOp::Push(fragment) => if run_state(ops.drop_last(), limit).phase
                == Phase::Streaming {
                before + fragment
            } else {
                before
            },
            _ => before,
        }
    }
}

/// The chunks of an object: `data` cut into pieces of `limit` bytes, the last
/// piece holding what is left over. No piece is empty.
pub open spec fn chunks_of(data: Seq<u8>, limit: nat) -> Seq<Seq<u8>>
    decreases data.len(),
{
    if limit == 0 || data.len() == 0 {
        Seq::empty()
    } else if data.len() <= limit {
        seq![data]
    } else {
        seq![data.take(limit as int)] + chunks_of(data.skip(limit as int), limit)
    }
}

/// The number of chunks that `len` bytes make: `len / limit`, rounded up.
pub open spec fn chunk_count(len: nat, limit: nat) -> nat
    recommends
        limit > 0,
{
    ((len + limit - 1) / (limit as int)) as nat
}

/// Joining the chunks of an object gives the object back, there are
/// `len / limit` of them rounded up, none is empty, none is longer than
/// `limit`, and all but the last hold exactly `limit` bytes.
pub proof fn lemma_chunks_of_shape(data: Seq<u8>, limit: nat)
    requires
        limit > 0,
    ensures
        chunks_of(data, limit).flatten() == data,
        chunks_of(data, limit).len() == chunk_count(data.len(), limit),
        forall|i: int|
            0 <= i < chunks_of(data, limit).len() ==> 0 < (#[trigger] chunks_of(data, limit)[i]).len()
                <= limit,
        forall|i: int|
            0 <= i < chunks_of(data, limit).len() - 1 ==> (#[trigger] chunks_of(data, limit)[i]).len()
                == limit,
    decreases data.len(),
{
    let chunks = chunks_of(data, limit);
    let len = data.len() as int;
    let lim = limit as int;
    if data.len() == 0 {
        assert(chunks.flatten() =~= data);
        assert((lim - 1) / lim == 0) by (nonlinear_arith)
            requires
                lim > 0,
        ;
    } else if data.len() <= limit {
        chunks.lemma_flatten_one_element();
        assert((len + lim - 1) / lim == 1) by (nonlinear_arith)
            requires
                0 < len <= lim,
        ;
    } else {
        let head = data.take(lim);
        let tail = data.skip(lim);
        let rest = chunks_of(tail, limit);
        lemma_chunks_of_shape(tail, limit);
        assert(chunks == seq![head] + rest);
        assert(chunks.drop_first() =~= rest);
        assert(chunks.flatten() =~= head + rest.flatten());
        assert(head + tail =~= data);
        assert((len + lim - 1) / lim == (len - lim + lim - 1) / lim + 1) by (nonlinear_arith)
            requires
                lim > 0,
                len > lim,
        ;
        assert(rest.len() > 0);
        assert forall|i: int| 0 <= i < chunks.len() implies 0 < (#[trigger] chunks[i]).len()
            <= limit by {
            if i > 0 {
                assert(chunks[i] == rest[i - 1]);
            }
        }
        assert forall|i: int| 0 <= i < chunks.len() - 1 implies (#[trigger] chunks[i]).len()
            == limit by {
            if i > 0 {
                assert(chunks[i] == rest[i - 1]);
            }
        }
    }
}

/// Full chunks in front of some bytes stay as they are when the whole is cut
/// into chunks again.
pub proof fn lemma_chunks_of_after_full(full: Seq<Seq<u8>>, rest: Seq<u8>, limit: nat)
    requires
        limit > 0,
        forall|i: int| 0 <= i < full.len() ==> (#[trigger] full[i]).len() == limit,
    ensures
        chunks_of(full.flatten() + rest, limit) == full + chunks_of(rest, limit),
    decreases full.len(),
{
    if full.len() == 0 {
        assert(full.flatten() + rest =~= rest);
        assert(full + chunks_of(rest, limit) =~= chunks_of(rest, limit));
    } else {
        let first = full.first();
        let others = full.drop_first();
        let whole = full.flatten() + rest;
        let behind = others.flatten() + rest;
        lemma_chunks_of_after_full(others, rest, limit);
        assert(whole =~= first + behind);
        if behind.len() == 0 {
            assert(whole =~= first);
            assert(chunks_of(behind, limit) =~= Seq::<Seq<u8>>::empty());
            assert(chunks_of(whole, limit) =~= seq![first]);
        } else {
            assert(whole.take(limit as int) =~= first);
            assert(whole.skip(limit as int) =~= behind);
        }
        assert(seq![first] + (others + chunks_of(rest, limit)) =~= full + chunks_of(rest, limit));
    }
}

/// Whatever was done to a chunker, in whatever order: the chunks it has
/// handed out, followed by the chunks that its buffer still makes, are the
/// chunks of the bytes it has taken in. While the body is open, every chunk
/// handed out is a full one.
pub proof fn lemma_chunker_keeps_chunks_of(ops: Seq<ChunkerOp>, limit: nat)
    requires
        limit > 0,
    ensures
        run_output(ops, limit) + chunks_of(run_state(ops, limit).pending, limit) == chunks_of(
            accepted(ops, limit),
            limit,
        ),
        run_state(ops, limit).phase == Phase::Streaming ==> {
            &&& accepted(ops, limit) == run_output(ops, limit).flatten() + run_state(
                ops,
                limit,
            ).pending
            &&& forall|i: int|
                0 <= i < run_output(ops, limit).len() ==> (#[trigger] run_output(ops, limit)[i]).len()
                    == limit
        },
    decreases ops.len(),
{
    let s = run_state(ops, limit);
    let out = run_output(ops, limit);
    let acc = accepted(ops, limit);
    if ops.len() == 0 {
        assert(out.flatten() + s.pending =~= acc);
        assert(out + chunks_of(s.pending, limit) =~= chunks_of(acc, limit));
    } else {
        let prev = ops.drop_last();
        let s0 = run_state(prev, limit);
        let out0 = run_output(prev, limit);
        let acc0 = accepted(prev, limit);
        lemma_chunker_keeps_chunks_of(prev, limit);
        if s0.phase == Phase::Streaming {
            match ops.last() {
                ChunkerOp::Push(fragment) => {
                    assert(acc =~= out.flatten() + s.pending);
                },
                ChunkerOp::Poll => {
                    if s0.pending.len() >= limit {
                        let chunk = s0.pending.take(limit as int);
                        out0.lemma_flatten_push(chunk);
                        assert(chunk + s0.pending.skip(limit as int) =~= s0.pending);
                        assert(acc =~= out.flatten() + s.pending);
                    }
                },
                _ => {},
            }
            lemma_chunks_of_after_full(out, s.pending, limit);
        } else {
            match ops.last() {
                ChunkerOp::Poll => {
                    match emits(s0, limit) {
                        Some(chunk) => {
                            if s0.pending.len() <= limit {
                                assert(s0.pending.skip(s0.pending.len() as int) =~= Seq::<
                                    u8,
                                >::empty());
                                assert(chunk =~= s0.pending);
                                assert(chunks_of(s.pending, limit) =~= Seq::<Seq<u8>>::empty());
                            }
                            assert(chunks_of(s0.pending, limit) =~= seq![chunk] + chunks_of(
                                s.pending,
                                limit,
                            ));
                            assert(out0.push(chunk) + chunks_of(s.pending, limit) =~= out0 + (
                            seq![chunk] + chunks_of(s.pending, limit)));
                        },
                        None => {},
                    }
                },
                _ => {},
            }
        }
    }
}

/// Once the body has ended and the buffer is drained, the chunks handed out
/// are exactly the chunks of the body: joined they give it back byte for
/// byte, and there are as many as its length divided by `limit`, rounded up.
pub proof fn lemma_drained_chunker_emitted_the_body(ops: Seq<ChunkerOp>, limit: nat)
    requires
        limit > 0,
        run_state(ops, limit).phase == Phase::Ended,
        run_state(ops, limit).pending.len() == 0,
    ensures
        run_output(ops, limit) == chunks_of(accepted(ops, limit), limit),
        run_output(ops, limit).flatten() == accepted(ops, limit),
        run_output(ops, limit).len() == chunk_count(accepted(ops, limit).len(), limit),
{
    lemma_chunker_keeps_chunks_of(ops, limit);
    lemma_chunks_of_shape(accepted(ops, limit), limit);
    assert(run_output(ops, limit) + Seq::<Seq<u8>>::empty() =~= run_output(ops, limit));
}

/// The streaming chunker. It owns the accumulation buffer and nothing else.
pub struct ChunkStream {
    buffer: BytesMut,
    phase: Phase,
}

impl View for ChunkStream {
    type V = ChunkerState;

    closed spec fn view(&self) -> ChunkerState {
        ChunkerState { phase: self.phase, pending: buffered(self.buffer) }
    }
}

impl ChunkStream {
    /// A chunker for a body of which nothing has been read.
    pub fn new() -> (s: Self)
        ensures
            s@ == initial_state(),
    {
        ChunkStream { buffer: BytesMut::with_capacity(MAX_CHUNK_SIZE), phase: Phase::Streaming }
    }

    /// Takes in the next fragment of the body. Once the body has ended or
    /// failed, fragments are ignored.
    pub fn push(&mut self, fragment: &[u8])
        ensures
            final(self)@ == step(old(self)@, ChunkerOp::Push(fragment@), MAX_CHUNK_SIZE as nat),
    {
        match self.phase {
            Phase::Streaming => {
                self.buffer.extend_from_slice(fragment);
            },
            _ => {},
        }
    }

    /// Records that the body has ended: the next polls hand out what is
    /// buffered, and then report `Finished`.
    pub fn end(&mut self)
        ensures
            final(self)@ == step(old(self)@, ChunkerOp::End, MAX_CHUNK_SIZE as nat),
    {
        match self.phase {
            Phase::Streaming => {
                self.phase = Phase::Ended;
            },
            _ => {},
        }
    }

    /// Records that reading the body failed: no further chunk is handed out.
    pub fn fail(&mut self)
        ensures
            final(self)@ == step(old(self)@, ChunkerOp::Fail, MAX_CHUNK_SIZE as nat),
    {
        match self.phase {
            Phase::Streaming => {
                self.phase = Phase::Failed;
            },
            _ => {},
        }
    }

    /// Cuts the next chunk off the buffer, if one is due. A chunk of exactly
    /// `MAX_CHUNK_SIZE` bytes is due whenever that many are buffered; after
    /// the end of the body the non-empty remainder is due as well.
    pub fn poll_next(&mut self) -> (polled: ChunkPoll)
        ensures
            final(self)@ == step(old(self)@, ChunkerOp::Poll, MAX_CHUNK_SIZE as nat),
            match polled {
                ChunkPoll::Chunk(chunk) => output(
                    old(self)@,
                    ChunkerOp::Poll,
                    MAX_CHUNK_SIZE as nat,
                ) == Some(frozen(chunk)),
                ChunkPoll::NeedInput => output(old(self)@, ChunkerOp::Poll, MAX_CHUNK_SIZE as nat)
                    is None && old(self)@.phase == Phase::Streaming,
                ChunkPoll::Finished => output(old(self)@, ChunkerOp::Poll, MAX_CHUNK_SIZE as nat)
                    is None && old(self)@.phase != Phase::Streaming,
            },
    {
        match self.phase {
            Phase::Failed => ChunkPoll::Finished,
            Phase::Streaming => {
                if self.buffer.len() >= MAX_CHUNK_SIZE {
                    let chunk = self.buffer.split_to(MAX_CHUNK_SIZE).freeze();
                    ChunkPoll::Chunk(chunk)
                } else {
                    ChunkPoll::NeedInput
                }
            },
            Phase::Ended => {
                if self.buffer.len() >= MAX_CHUNK_SIZE {
                    let chunk = self.buffer.split_to(MAX_CHUNK_SIZE).freeze();
                    ChunkPoll::Chunk(chunk)
                } else if !self.buffer.is_empty() {
                    let ghost before = buffered(self.buffer);
                    let chunk = self.buffer.split().freeze();
                    assert(before.skip(before.len() as int) =~= Seq::<u8>::empty());
                    ChunkPoll::Chunk(chunk)
                } else {
                    ChunkPoll::Finished
                }
            },
        }
    }
}

} // verus!
