//! The coordinator of the stream: the state that lives behind the
//! exclusion guard, and the decisions taken at each delivery of the capture
//! driver.
//!
//! The driver delivers a block on its own thread and must never wait. It
//! tries to take the guard: if it gets it, the block is folded to mono,
//! taken into the accumulator and, when a frame fills, scored; if the
//! guard is held, the block is dropped; if the guard is poisoned, the
//! stream ends. Taking the guard, resampling and scoring are the caller's
//! work; what to do with their results is decided here.

use crate::accumulator::{
    law_enough_samples_emit_a_frame, total_len, AccumulatorState, FrameAccumulator,
};
use crate::setup::{ChannelLayout, SetupError};
use crate::engine::Cobra;
use crate::error::Error;
use crate::mixer::{mix, mixed};
use vstd::prelude::*;

verus! {

/// What an attempt to take the exclusion guard without waiting found.
#[derive(Debug, Clone, Copy, PartialEq, Eq, Structural)]
pub enum LockAttempt {
    /// The guard was free and is now held by the caller.
    Acquired,
    /// Another delivery holds the guard.
    WouldBlock,
    /// A holder of the guard ended abnormally while it held it.
    Poisoned,
}

/// What a delivery does after its attempt to take the guard.
#[derive(Debug, Clone, Copy, PartialEq, Eq, Structural)]
pub enum Admission {
    /// Process the block under the guard.
    Enter,
    /// Drop the block, say so, and return at once; this is no failure.
    Skip,
    /// End the stream: the state behind the guard cannot be relied on.
    Abort,
}

/// The rule of the guard: enter when it was acquired, skip when it is
/// held, abort when it is poisoned.
pub open spec fn admission_of(attempt: LockAttempt) -> Admission {
    match attempt {
        LockAttempt::Acquired => Admission::Enter,
        LockAttempt::WouldBlock => Admission::Skip,
        LockAttempt::Poisoned => Admission::Abort,
    }
}

/// Decides what a delivery does after its attempt to take the guard.
pub fn on_lock_attempt(attempt: LockAttempt) -> (admission: Admission)
    ensures
        admission == admission_of(attempt),
{
    match attempt {
        LockAttempt::Acquired => Admission::Enter,
        LockAttempt::WouldBlock => Admission::Skip,
        LockAttempt::Poisoned => Admission::Abort,
    }
}

/// The state behind the guard, as mathematics. `S` is the type of a score;
/// the coordinator stores scores and never looks into them.
pub struct PipelineState<S> {
    /// How the blocks of the device are interleaved.
    pub layout: ChannelLayout,
    /// The samples that wait for a frame to fill.
    pub accumulator: AccumulatorState,
    /// The score of the frame that was completed last, if any was.
    pub latest: Option<S>,
}

impl<S> PipelineState<S> {
    /// The state of a stream that has seen no block yet.
    pub open spec fn start(layout: ChannelLayout, frame_length: nat) -> PipelineState<S> {
        PipelineState { layout, accumulator: AccumulatorState::empty(frame_length), latest: None }
    }

    /// The state after a mono block was taken in.
    pub open spec fn ingest(self, block: Seq<i16>) -> PipelineState<S> {
        PipelineState {
            layout: self.layout,
            accumulator: self.accumulator.push(block),
            latest: self.latest,
        }
    }

    /// The state after a block of interleaved single-precision samples,
    /// as the resampler gives them, was mixed down and taken in.
    pub open spec fn ingest_resampled(self, block: Seq<u32>) -> PipelineState<S> {
        self.ingest(mixed(block, self.layout))
    }

    /// The state after the engine answered for a frame: a score replaces
    /// the latest one, a failure leaves it.
    pub open spec fn record(self, outcome: Result<S, Error>) -> PipelineState<S> {
        match outcome {
            Ok(score) => PipelineState {
                layout: self.layout,
                accumulator: self.accumulator,
                latest: Some(score),
            },
            Err(_) => self,
        }
    }

    /// Whether a delivery asks the engine for a score: it entered, and its
    /// block, mixed down, fills a frame.
    pub open spec fn scores(self, attempt: LockAttempt, block: Seq<u32>) -> bool {
        admission_of(attempt) == Admission::Enter && self.accumulator.completes(
            mixed(block, self.layout),
        )
    }

    /// The state after one whole delivery: `attempt` is what the attempt to
    /// take the guard found, `block` the resampled samples of the
    /// delivery, and `outcome` what the engine answers if it is asked.
    pub open spec fn deliver(
        self,
        attempt: LockAttempt,
        block: Seq<u32>,
        outcome: Result<S, Error>,
    ) -> PipelineState<S> {
        if admission_of(attempt) != Admission::Enter {
            self
        } else if self.scores(attempt, block) {
            self.ingest_resampled(block).record(outcome)
        } else {
            self.ingest_resampled(block)
        }
    }
}

/// One delivery of the capture driver, as the coordinator sees it: what
/// the attempt to take the guard found, the resampled samples, and what
/// the engine answers if it is asked.
pub struct Delivery<S> {
    pub attempt: LockAttempt,
    pub block: Seq<u32>,
    pub outcome: Result<S, Error>,
}

impl<S> PipelineState<S> {
    /// The state after the deliveries of `deliveries`, one after another.
    pub open spec fn run(self, deliveries: Seq<Delivery<S>>) -> PipelineState<S>
        decreases deliveries.len(),
    {
        if deliveries.len() == 0 {
            self
        } else {
            let last = deliveries.last();
            self.run(deliveries.drop_last()).deliver(last.attempt, last.block, last.outcome)
        }
    }

    /// How often the engine is asked for a score while the deliveries
    /// of `deliveries` arrive.
    pub open spec fn scorings(self, deliveries: Seq<Delivery<S>>) -> nat
        decreases deliveries.len(),
    {
        if deliveries.len() == 0 {
            0
        } else {
            let last = deliveries.last();
            let now: nat = if self.run(deliveries.drop_last()).scores(last.attempt, last.block) {
                1
            } else {
                0
            };
            self.scorings(deliveries.drop_last()) + now
        }
    }
}

/// The mono blocks that the deliveries of `deliveries` bring to the
/// accumulator: the blocks of those that got the guard, mixed down.
pub open spec fn mono_blocks<S>(deliveries: Seq<Delivery<S>>, layout: ChannelLayout) -> Seq<
    Seq<i16>,
>
    decreases deliveries.len(),
{
    if deliveries.len() == 0 {
        Seq::empty()
    } else if deliveries.last().attempt == LockAttempt::Acquired {
        mono_blocks(deliveries.drop_last(), layout).push(mixed(deliveries.last().block, layout))
    } else {
        mono_blocks(deliveries.drop_last(), layout)
    }
}

/// The deliveries of `deliveries` that got the guard, in their order.
pub open spec fn entered<S>(deliveries: Seq<Delivery<S>>) -> Seq<Delivery<S>>
    decreases deliveries.len(),
{
    if deliveries.len() == 0 {
        deliveries
    } else if deliveries.last().attempt == LockAttempt::Acquired {
        entered(deliveries.drop_last()).push(deliveries.last())
    } else {
        entered(deliveries.drop_last())
    }
}

/// A delivery that does not enter leaves no trace: the state is the one it
/// found, so the next delivery that enters sees exactly what the last one
/// that entered left, whatever was dropped in between.
pub proof fn law_dropped_delivery_leaves_no_trace<S>(
    state: PipelineState<S>,
    attempt: LockAttempt,
    dropped: Seq<u32>,
    unused: Result<S, Error>,
    next: Seq<u32>,
    outcome: Result<S, Error>,
)
    requires
        attempt != LockAttempt::Acquired,
    ensures
        !state.scores(attempt, dropped),
        state.deliver(attempt, dropped, unused) == state,
        state.deliver(attempt, dropped, unused).deliver(LockAttempt::Acquired, next, outcome)
            == state.deliver(LockAttempt::Acquired, next, outcome),
{
}

/// Dropped deliveries are invisible: after any run of deliveries the state
/// is the one that the deliveries that got the guard would have made on
/// their own, so nothing that was dropped, however much of it, can spoil
/// what the next delivery finds.
pub proof fn law_only_entered_deliveries_count<S>(
    state: PipelineState<S>,
    deliveries: Seq<Delivery<S>>,
)
    ensures
        state.run(deliveries) == state.run(entered(deliveries)),
    decreases deliveries.len(),
{
    if deliveries.len() > 0 {
        let before = deliveries.drop_last();
        let last = deliveries.last();
        law_only_entered_deliveries_count(state, before);
        if last.attempt == LockAttempt::Acquired {
            assert(entered(deliveries).drop_last() == entered(before));
            assert(entered(deliveries).last() == last);
        }
    }
}

/// A delivery keeps the accumulator well formed and the shape of the
/// stream as it was; the engine is asked exactly when the block fills a
/// frame, and the frame it is asked about has the length of a frame. The
/// latest score changes only when the engine is asked and answers with a
/// score, which then is the latest: scores come in the order of their
/// frames.
pub proof fn law_delivery_keeps_the_stream<S>(
    state: PipelineState<S>,
    attempt: LockAttempt,
    block: Seq<u32>,
    outcome: Result<S, Error>,
)
    requires
        state.accumulator.wf(),
    ensures
        state.deliver(attempt, block, outcome).accumulator.wf(),
        state.deliver(attempt, block, outcome).layout == state.layout,
        state.deliver(attempt, block, outcome).accumulator.frame_length
            == state.accumulator.frame_length,
        state.scores(attempt, block) ==> state.accumulator.frame(mixed(block, state.layout)).len()
            == state.accumulator.frame_length,
        !state.scores(attempt, block) ==> state.deliver(attempt, block, outcome).latest
            == state.latest,
        state.scores(attempt, block) ==> state.deliver(attempt, block, outcome).latest == (match outcome {
            Ok(score) => Some(score),
            Err(_) => state.latest,
        }),
{
}

/// What a run of deliveries does to the accumulator is what the mono
/// blocks of the deliveries that got the guard do to it, and the engine is
/// asked once for every frame that comes out.
pub proof fn law_run_feeds_the_accumulator<S>(
    state: PipelineState<S>,
    deliveries: Seq<Delivery<S>>,
)
    ensures
        state.run(deliveries).layout == state.layout,
        state.run(deliveries).accumulator == state.accumulator.push_all(
            mono_blocks(deliveries, state.layout),
        ),
        state.scorings(deliveries) == state.accumulator.frames_emitted(
            mono_blocks(deliveries, state.layout),
        ),
    decreases deliveries.len(),
{
    if deliveries.len() > 0 {
        let before = deliveries.drop_last();
        let last = deliveries.last();
        law_run_feeds_the_accumulator(state, before);
        if last.attempt == LockAttempt::Acquired {
            let blocks = mono_blocks(deliveries, state.layout);
            assert(blocks.drop_last() == mono_blocks(before, state.layout));
            assert(blocks.last() == mixed(last.block, state.layout));
        }
    }
}

/// Enough audio is scored: once the deliveries that got the guard have
/// brought, with what waited before them, as many mono samples as a frame
/// holds, the engine has been asked at least once, whatever the sizes of
/// the blocks and whatever was dropped in between.
pub proof fn law_enough_audio_is_scored<S>(state: PipelineState<S>, deliveries: Seq<Delivery<S>>)
    requires
        state.accumulator.wf(),
        state.accumulator.buffer.len() + total_len(mono_blocks(deliveries, state.layout))
            >= state.accumulator.frame_length,
    ensures
        state.scorings(deliveries) >= 1,
{
    law_run_feeds_the_accumulator(state, deliveries);
    law_enough_samples_emit_a_frame(state.accumulator, mono_blocks(deliveries, state.layout));
}

/// The state that lives behind the exclusion guard of one stream.
pub struct Pipeline<S> {
    layout: ChannelLayout,
    accumulator: FrameAccumulator,
    latest: Option<S>,
}

impl<S> View for Pipeline<S> {
    type V = PipelineState<S>;

    closed spec fn view(&self) -> PipelineState<S> {
        PipelineState { layout: self.layout, accumulator: self.accumulator@, latest: self.latest }
    }
}

impl<S> Pipeline<S> {
    /// Sets up the state of a stream of `channels` channels whose frames
    /// go to `engine`. A number of channels other than one or two is
    /// refused, and after that an engine that asks for empty frames.
    pub fn new(engine: &Cobra, channels: usize) -> (made: Result<Pipeline<S>, SetupError>)
        ensures
            made is Ok <==> ChannelLayout::of(channels) is Some && engine.frame_length() > 0,
            made matches Ok(pipeline) ==> pipeline@ == PipelineState::<S>::start(
                ChannelLayout::of(channels)->0,
                engine.frame_length() as nat,
            ),
            made matches Err(e) ==> e == if ChannelLayout::of(channels) is None {
                SetupError::UnsupportedChannels(channels)
            } else {
                SetupError::EmptyFrame
            },
    {
        let layout = match ChannelLayout::from_channels(channels) {
            Ok(layout) => layout,
            Err(e) => {
                return Err(e);
            },
        };
        match FrameAccumulator::new(engine.frame_length()) {
            Some(accumulator) => Ok(Pipeline { layout, accumulator, latest: None }),
            None => Err(SetupError::EmptyFrame),
        }
    }

    /// How the blocks of the device are interleaved.
    pub fn layout(&self) -> (layout: ChannelLayout)
        ensures
            layout == self@.layout,
    {
        self.layout
    }

    /// The number of samples in a frame.
    pub fn frame_length(&self) -> (n: usize)
        ensures
            n == self@.accumulator.frame_length,
            self@.accumulator.wf(),
    {
        self.accumulator.frame_length()
    }

    /// The number of samples that wait for a frame to fill.
    pub fn pending(&self) -> (n: usize)
        ensures
            n == self@.accumulator.buffer.len(),
            self@.accumulator.wf(),
    {
        self.accumulator.len()
    }

    /// The score of the frame that was completed last, if any was.
    pub fn confidence(&self) -> (latest: Option<&S>)
        ensures
            latest is Some <==> self@.latest is Some,
            latest matches Some(score) ==> self@.latest == Some(*score),
    {
        self.latest.as_ref()
    }

    /// Takes in the mono samples of one delivery, under the guard. When
    /// they fill a frame, the frame comes out to be scored, exactly one
    /// frame long, and the buffer starts over empty.
    pub fn ingest(&mut self, mono: &[i16]) -> (frame: Option<Vec<i16>>)
        ensures
            old(self)@.accumulator.wf(),
            final(self)@ == old(self)@.ingest(mono@),
            frame is Some <==> old(self)@.accumulator.completes(mono@),
            frame matches Some(f) ==> f@ == old(self)@.accumulator.frame(mono@) && f@.len() == old(
                self,
            )@.accumulator.frame_length,
    {
        self.accumulator.push(mono)
    }

    /// Takes in one block of interleaved single-precision samples, as the
    /// resampler gives them, under the guard: mixes it down to mono by the
    /// layout of the stream and takes the mono samples in as `ingest` does.
    pub fn ingest_resampled(&mut self, block: &[u32]) -> (frame: Option<Vec<i16>>)
        ensures
            old(self)@.accumulator.wf(),
            final(self)@ == old(self)@.ingest_resampled(block@),
            frame is Some <==> old(self)@.accumulator.completes(mixed(block@, old(self)@.layout)),
            frame matches Some(f) ==> f@ == old(self)@.accumulator.frame(
                mixed(block@, old(self)@.layout),
            ) && f@.len() == old(self)@.accumulator.frame_length,
    {
        let mono = mix(block, self.layout);
        self.accumulator.push(mono.as_slice())
    }

    /// Takes in what the engine answered for a frame. A score becomes the
    /// latest score. A failure is handed on as it is and ends the stream
    /// for the caller; nothing is retried and the state is left as it was.
    pub fn record(&mut self, outcome: Result<S, Error>) -> (passed: Result<(), Error>)
        ensures
            final(self)@ == old(self)@.record(outcome),
            passed == match outcome {
                Ok(_) => Ok::<(), Error>(()),
                Err(e) => Err::<(), Error>(e),
            },
    {
        match outcome {
            Ok(score) => {
                self.latest = Some(score);
                Ok(())
            },
            Err(e) => Err(e),
        }
    }
}

} // verus!
