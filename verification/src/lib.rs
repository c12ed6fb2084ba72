//! Verified core of a voice-activity pipeline around a native scoring
//! engine.
//!
//! A capture driver delivers blocks of audio at the rate and in the layout
//! of its device. A resampler brings them to the rate of the engine; the
//! [`mixer`] folds them down to one channel of 16-bit samples; the
//! [`accumulator`] gathers those into frames of the length that the engine
//! asks for; the engine scores each frame; and the [`pipeline`] keeps the
//! latest score. All of that happens behind one exclusion guard, which a
//! delivery never waits for: a block that finds the guard held is dropped.
//!
//! This crate holds every decision of that pipeline, with its proof. The
//! native engine, the devices, the resampler and the guard itself stay
//! with the caller, who hands their results in as plain values: a status
//! code, a score, a block of samples, the outcome of an attempt to lock.
//! Single-precision samples travel as their bit patterns, and
//! [`binary32`] says what the arithmetic of the format makes of them.

pub mod accumulator;
pub mod binary32;
pub mod decimal;
mod dyadic;
pub mod engine;
pub mod error;
pub mod mixer;
pub mod pipeline;
mod rounding;
pub mod setup;

pub use accumulator::FrameAccumulator;
pub use engine::{AccessKey, Cobra};
pub use error::Error;
pub use pipeline::{on_lock_attempt, Admission, LockAttempt, Pipeline};
pub use setup::{ChannelLayout, SetupError};
