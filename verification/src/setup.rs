//! What a stream is set up with: the channel layouts that the pipeline can
//! fold down to one channel, and the reasons for which a stream is refused
//! before its first block.

use crate::decimal::{decimal, push_decimal};
use vstd::prelude::*;
use vstd::string::StringExecFns;

verus! {

/// Why a stream cannot be set up.
#[derive(Debug, Clone, Copy, PartialEq, Eq, Structural)]
pub enum SetupError {
    /// The device delivers a number of channels other than one or two.
    UnsupportedChannels(usize),
    /// The engine asks for frames without samples.
    EmptyFrame,
}

impl SetupError {
    /// The text that describes this failure to a person.
    pub open spec fn message_text(self) -> Seq<char> {
        match self {
            SetupError::UnsupportedChannels(channels) => "unsupported number of channels: "@
                + decimal(channels as nat),
            SetupError::EmptyFrame => "the engine asks for frames without samples"@,
        }
    }

    /// Describes the failure in words, with the number of channels that
    /// was refused written out in decimal.
    pub fn message(&self) -> (text: String)
        ensures
            text@ == self.message_text(),
    {
        match self {
            SetupError::UnsupportedChannels(channels) => {
                let mut text = String::from_str("unsupported number of channels: ");
                push_decimal(&mut text, *channels as u64);
                text
            },
            SetupError::EmptyFrame => String::from_str("the engine asks for frames without samples"),
        }
    }
}

/// How the samples of a block are interleaved.
#[derive(Debug, Clone, Copy, PartialEq, Eq, Structural)]
pub enum ChannelLayout {
    /// One channel: every sample is a frame of its own.
    Mono,
    /// Two channels: left and right alternate.
    Stereo,
}

impl ChannelLayout {
    /// The layout of a stream of `channels` channels, where there is one.
    pub open spec fn of(channels: usize) -> Option<ChannelLayout> {
        if channels == 1 {
            Some(ChannelLayout::Mono)
        } else if channels == 2 {
            Some(ChannelLayout::Stereo)
        } else {
            None
        }
    }

    /// The number of channels of the layout.
    pub open spec fn count(self) -> nat {
        match self {
            ChannelLayout::Mono => 1,
            ChannelLayout::Stereo => 2,
        }
    }

    /// The layout of a stream of `channels` channels. Only one and two
    /// channels are supported; any other number is refused when the stream
    /// is set up, with the number in the error.
    pub fn from_channels(channels: usize) -> (layout: Result<ChannelLayout, SetupError>)
        ensures
            layout == match ChannelLayout::of(channels) {
                Some(l) => Ok::<ChannelLayout, SetupError>(l),
                None => Err::<ChannelLayout, SetupError>(SetupError::UnsupportedChannels(channels)),
            },
    {
        if channels == 1 {
            Ok(ChannelLayout::Mono)
        } else if channels == 2 {
            Ok(ChannelLayout::Stereo)
        } else {
            Err(SetupError::UnsupportedChannels(channels))
        }
    }

    /// The number of channels of the layout.
    pub fn channels(self) -> (n: usize)
        ensures
            n == self.count(),
            ChannelLayout::of(n) == Some(self),
    {
        match self {
            ChannelLayout::Mono => 1,
            ChannelLayout::Stereo => 2,
        }
    }
}

} // verus!
