//! Gathers mono samples into frames of the length that the engine asks for.

use vstd::prelude::*;

verus! {

/// What a frame accumulator holds, as mathematics: the samples that wait
/// for a frame to fill, and the length of a frame.
pub struct AccumulatorState {
    pub buffer: Seq<i16>,
    pub frame_length: nat,
}

impl AccumulatorState {
    /// A frame has at least one sample, and fewer samples than a frame wait.
    pub open spec fn wf(self) -> bool {
        self.buffer.len() < self.frame_length
    }

    /// The state in which nothing waits.
    pub open spec fn empty(frame_length: nat) -> AccumulatorState {
        AccumulatorState { buffer: Seq::empty(), frame_length }
    }

    /// Whether `block`, joined to what waits, fills a frame.
    pub open spec fn completes(self, block: Seq<i16>) -> bool {
        self.buffer.len() + block.len() >= self.frame_length
    }

    /// The frame that `block` fills: the first `frame_length` samples of
    /// what waits followed by `block`.
    pub open spec fn frame(self, block: Seq<i16>) -> Seq<i16> {
        (self.buffer + block).subrange(0, self.frame_length as int)
    }

    /// The frame that comes out when `block` arrives, if one does.
    pub open spec fn emitted(self, block: Seq<i16>) -> Option<Seq<i16>> {
        if self.completes(block) {
            Some(self.frame(block))
        } else {
            None
        }
    }

    /// The state after `block` arrived. A block that fills a frame empties
    /// the buffer: what it held beyond the frame is let go.
    pub open spec fn push(self, block: Seq<i16>) -> AccumulatorState {
        if self.completes(block) {
            AccumulatorState::empty(self.frame_length)
        } else {
            AccumulatorState { buffer: self.buffer + block, frame_length: self.frame_length }
        }
    }

    /// The state after the blocks of `blocks` arrived one after another.
    pub open spec fn push_all(self, blocks: Seq<Seq<i16>>) -> AccumulatorState
        decreases blocks.len(),
    {
        if blocks.len() == 0 {
            self
        } else {
            self.push_all(blocks.drop_last()).push(blocks.last())
        }
    }

    /// How many frames come out while the blocks of `blocks` arrive.
    pub open spec fn frames_emitted(self, blocks: Seq<Seq<i16>>) -> nat
        decreases blocks.len(),
    {
        if blocks.len() == 0 {
            0
        } else {
            let before = self.push_all(blocks.drop_last());
            let now: nat = if before.completes(blocks.last()) {
                1
            } else {
                0
            };
            self.frames_emitted(blocks.drop_last()) + now
        }
    }
}

/// The number of samples in all the blocks of `blocks` together.
pub open spec fn total_len(blocks: Seq<Seq<i16>>) -> nat
    decreases blocks.len(),
{
    if blocks.len() == 0 {
        0
    } else {
        total_len(blocks.drop_last()) + blocks.last().len()
    }
}

/// Taking in a block keeps the state well formed: after every block fewer
/// samples wait than a frame holds.
pub proof fn law_push_keeps_wf(state: AccumulatorState, block: Seq<i16>)
    requires
        state.wf(),
    ensures
        state.push(block).wf(),
        state.push(block).frame_length == state.frame_length,
{
}

/// A frame that comes out has exactly the length of a frame, and begins
/// with the samples that waited, in their order.
pub proof fn law_frame_is_exact(state: AccumulatorState, block: Seq<i16>)
    requires
        state.wf(),
        state.completes(block),
    ensures
        state.frame(block).len() == state.frame_length,
        state.frame(block).subrange(0, state.buffer.len() as int) == state.buffer,
        state.frame(block).subrange(state.buffer.len() as int, state.frame_length as int)
            == block.subrange(0, state.frame_length - state.buffer.len()),
{
}

/// While no frame comes out, nothing is lost: the buffer grows by every
/// sample of every block.
pub proof fn law_nothing_lost_before_a_frame(state: AccumulatorState, blocks: Seq<Seq<i16>>)
    requires
        state.wf(),
        state.frames_emitted(blocks) == 0,
    ensures
        state.push_all(blocks).wf(),
        state.push_all(blocks).frame_length == state.frame_length,
        state.push_all(blocks).buffer.len() == state.buffer.len() + total_len(blocks),
    decreases blocks.len(),
{
    if blocks.len() > 0 {
        law_nothing_lost_before_a_frame(state, blocks.drop_last());
    }
}

/// Enough samples give a frame: once the blocks that arrived hold, with
/// what waited before them, as many samples as a frame, at least one frame
/// has come out, however the samples were cut into blocks.
pub proof fn law_enough_samples_emit_a_frame(state: AccumulatorState, blocks: Seq<Seq<i16>>)
    requires
        state.wf(),
        state.buffer.len() + total_len(blocks) >= state.frame_length,
    ensures
        state.frames_emitted(blocks) >= 1,
{
    if state.frames_emitted(blocks) == 0 {
        law_nothing_lost_before_a_frame(state, blocks);
    }
}

/// Buffers mono samples until a frame is full.
pub struct FrameAccumulator {
    buffer: Vec<i16>,
    frame_length: usize,
}

impl View for FrameAccumulator {
    type V = AccumulatorState;

    closed spec fn view(&self) -> AccumulatorState {
        AccumulatorState { buffer: self.buffer@, frame_length: self.frame_length as nat }
    }
}

impl FrameAccumulator {
    #[verifier::type_invariant]
    spec fn inv(self) -> bool {
        self.buffer@.len() < self.frame_length
    }

    /// An accumulator for frames of `frame_length` samples with nothing
    /// waiting; none for frames without samples.
    pub fn new(frame_length: usize) -> (made: Option<FrameAccumulator>)
        ensures
            made is Some <==> frame_length > 0,
            made matches Some(acc) ==> acc@ == AccumulatorState::empty(frame_length as nat),
    {
        if frame_length == 0 {
            None
        } else {
            Some(FrameAccumulator { buffer: Vec::new(), frame_length })
        }
    }

    /// The number of samples in a frame.
    pub fn frame_length(&self) -> (n: usize)
        ensures
            n == self@.frame_length,
            self@.wf(),
    {
        proof {
            use_type_invariant(self);
        }
        self.frame_length
    }

    /// The number of samples that wait for a frame to fill.
    pub fn len(&self) -> (n: usize)
        ensures
            n == self@.buffer.len(),
            self@.wf(),
    {
        proof {
            use_type_invariant(self);
        }
        self.buffer.len()
    }

    /// Whether no sample waits.
    pub fn is_empty(&self) -> (yes: bool)
        ensures
            yes == (self@.buffer.len() == 0),
    {
        self.buffer.len() == 0
    }

    /// Takes in a block of samples. When the block fills a frame, the
    /// frame comes out and the buffer starts over empty; until then the
    /// block joins what waits.
    pub fn push(&mut self, samples: &[i16]) -> (frame: Option<Vec<i16>>)
        ensures
            old(self)@.wf(),
            final(self)@ == old(self)@.push(samples@),
            frame is Some <==> old(self)@.completes(samples@),
            frame matches Some(f) ==> f@ == old(self)@.frame(samples@) && f@.len() == old(
                self,
            )@.frame_length,
    {
        proof {
            use_type_invariant(&*self);
        }
        let missing: usize = self.frame_length - self.buffer.len();
        let completes: bool = samples.len() >= missing;
        let wanted: usize = if completes {
            missing
        } else {
            samples.len()
        };
        let mut joined: Vec<i16> = Vec::new();
        core::mem::swap(&mut joined, &mut self.buffer);
        let mut i: usize = 0;
        while i < wanted
            invariant
                i <= wanted <= samples@.len(),
                joined@ == old(self).buffer@ + samples@.subrange(0, i as int),
            decreases wanted - i,
        {
            joined.push(samples[i]);
            i += 1;
            proof {
                assert(samples@.subrange(0, i as int) == samples@.subrange(0, i - 1).push(
                    samples@[i - 1],
                ));
            }
        }
        if completes {
            proof {
                assert(joined@ == old(self)@.frame(samples@));
            }
            Some(joined)
        } else {
            proof {
                assert(samples@.subrange(0, i as int) == samples@);
            }
            self.buffer = joined;
            None
        }
    }
}

} // verus!
