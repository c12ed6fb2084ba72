//! Failures reported by the scoring engine, and the status codes they come from.

use crate::decimal::{decimal, push_decimal};
use vstd::prelude::*;
use vstd::std_specs::convert::FromSpecImpl;
use vstd::string::StringExecFns;

verus! {

/// Status code of a call that succeeded.
pub const STATUS_SUCCESS: u32 = 0;

/// Status code: the engine could not allocate memory.
pub const STATUS_OUT_OF_MEMORY: u32 = 1;

/// Status code: the engine failed to read or write.
pub const STATUS_IO_ERROR: u32 = 2;

/// Status code: the engine rejected an argument.
pub const STATUS_INVALID_ARGUMENT: u32 = 3;

/// Status code: the engine has nothing more to yield.
pub const STATUS_STOP_ITERATION: u32 = 4;

/// Status code: a lookup inside the engine failed.
pub const STATUS_KEY_ERROR: u32 = 5;

/// Status code: the engine is in a state that forbids the call.
pub const STATUS_INVALID_STATE: u32 = 6;

/// Status code: the engine failed while running.
pub const STATUS_RUNTIME_ERROR: u32 = 7;

/// Status code: the access key could not be activated.
pub const STATUS_ACTIVATION_ERROR: u32 = 8;

/// Status code: the access key has used up its allowance.
pub const STATUS_ACTIVATION_LIMIT_REACHED: u32 = 9;

/// Status code: the access key is being throttled.
pub const STATUS_ACTIVATION_THROTTLED: u32 = 10;

/// Status code: activation of the access key was refused.
pub const STATUS_ACTIVATION_REFUSED: u32 = 11;

/// A failure of the scoring engine or of the handle around it.
#[derive(Debug, Clone, Copy, PartialEq, Eq, Structural)]
pub enum Error {
    /// A value that must not be null was null.
    NullValue,
    /// The engine could not allocate memory.
    OutOfMemory,
    /// The engine failed to read or write.
    IoError,
    /// An argument was malformed.
    InvalidArgument,
    /// The engine has nothing more to yield.
    StopIteration,
    /// A lookup inside the engine failed.
    KeyError,
    /// The engine is in a state that forbids the call.
    InvalidState,
    /// The engine failed while running.
    RuntimeError,
    /// The access key could not be activated.
    ActivationError,
    /// The access key has used up its allowance.
    ActivationLimitReached,
    /// The access key is being throttled.
    ActivationThrottled,
    /// Activation of the access key was refused.
    ActivationRefused,
    /// A status code that names none of the failures above.
    UnknownError(u32),
}

/// The failure that a status code stands for. The success code names no
/// failure, so it is carried as an unknown code like any other stranger.
pub open spec fn error_of_status(status: u32) -> Error {
    if status == STATUS_OUT_OF_MEMORY {
        Error::OutOfMemory
    } else if status == STATUS_IO_ERROR {
        Error::IoError
    } else if status == STATUS_INVALID_ARGUMENT {
        Error::InvalidArgument
    } else if status == STATUS_STOP_ITERATION {
        Error::StopIteration
    } else if status == STATUS_KEY_ERROR {
        Error::KeyError
    } else if status == STATUS_INVALID_STATE {
        Error::InvalidState
    } else if status == STATUS_RUNTIME_ERROR {
        Error::RuntimeError
    } else if status == STATUS_ACTIVATION_ERROR {
        Error::ActivationError
    } else if status == STATUS_ACTIVATION_LIMIT_REACHED {
        Error::ActivationLimitReached
    } else if status == STATUS_ACTIVATION_THROTTLED {
        Error::ActivationThrottled
    } else if status == STATUS_ACTIVATION_REFUSED {
        Error::ActivationRefused
    } else {
        Error::UnknownError(status)
    }
}

impl Error {
    /// The text that describes this failure to a person.
    pub open spec fn message_text(self) -> Seq<char> {
        match self {
            Error::NullValue => "unexpected null value"@,
            Error::OutOfMemory => "out of memory"@,
            Error::IoError => "I/O error"@,
            Error::InvalidArgument => "invalid argument"@,
            Error::StopIteration => "stop iteration"@,
            Error::KeyError => "key error"@,
            Error::InvalidState => "invalid state"@,
            Error::RuntimeError => "runtime error"@,
            Error::ActivationError => "activation error"@,
            Error::ActivationLimitReached => "activation limit reached"@,
            Error::ActivationThrottled => "activation throttled"@,
            Error::ActivationRefused => "activation refused"@,
            Error::UnknownError(code) => "non-zero status returned: "@ + decimal(code as nat),
        }
    }

    /// Whether the engine turned the access key down, as opposed to
    /// failing for a reason that has nothing to do with licensing.
    pub open spec fn activation(self) -> bool {
        self is ActivationError || self is ActivationLimitReached || self is ActivationThrottled
            || self is ActivationRefused
    }

    /// Describes the failure in words; an unknown status code is written
    /// out in decimal.
    pub fn message(&self) -> (text: String)
        ensures
            text@ == self.message_text(),
    {
        match self {
            Error::NullValue => String::from_str("unexpected null value"),
            Error::OutOfMemory => String::from_str("out of memory"),
            Error::IoError => String::from_str("I/O error"),
            Error::InvalidArgument => String::from_str("invalid argument"),
            Error::StopIteration => String::from_str("stop iteration"),
            Error::KeyError => String::from_str("key error"),
            Error::InvalidState => String::from_str("invalid state"),
            Error::RuntimeError => String::from_str("runtime error"),
            Error::ActivationError => String::from_str("activation error"),
            Error::ActivationLimitReached => String::from_str("activation limit reached"),
            Error::ActivationThrottled => String::from_str("activation throttled"),
            Error::ActivationRefused => String::from_str("activation refused"),
            Error::UnknownError(code) => {
                let mut text = String::from_str("non-zero status returned: ");
                push_decimal(&mut text, *code as u64);
                text
            },
        }
    }

    /// Tells a licensing failure from every other one.
    pub fn is_activation(&self) -> (yes: bool)
        ensures
            yes == self.activation(),
    {
        match self {
            Error::ActivationError
            | Error::ActivationLimitReached
            | Error::ActivationThrottled
            | Error::ActivationRefused => true,
            _ => false,
        }
    }
}

impl From<u32> for Error {
    /// Reads a status code of the engine as the failure it names.
    fn from(status: u32) -> (error: Error)
        ensures
            error == error_of_status(status),
    {
        match status {
            STATUS_OUT_OF_MEMORY => Error::OutOfMemory,
            STATUS_IO_ERROR => Error::IoError,
            STATUS_INVALID_ARGUMENT => Error::InvalidArgument,
            STATUS_STOP_ITERATION => Error::StopIteration,
            STATUS_KEY_ERROR => Error::KeyError,
            STATUS_INVALID_STATE => Error::InvalidState,
            STATUS_RUNTIME_ERROR => Error::RuntimeError,
            STATUS_ACTIVATION_ERROR => Error::ActivationError,
            STATUS_ACTIVATION_LIMIT_REACHED => Error::ActivationLimitReached,
            STATUS_ACTIVATION_THROTTLED => Error::ActivationThrottled,
            STATUS_ACTIVATION_REFUSED => Error::ActivationRefused,
            _ => Error::UnknownError(status),
        }
    }
}

impl FromSpecImpl<u32> for Error {
    open spec fn obeys_from_spec() -> bool {
        true
    }

    open spec fn from_spec(status: u32) -> Error {
        error_of_status(status)
    }
}

} // verus!
