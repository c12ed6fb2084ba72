//! The handle of the native scoring engine: what the coordinator may rely
//! on once the engine has been created, and how each answer of the engine
//! is read.

use crate::error::{error_of_status, Error, STATUS_SUCCESS};
use vstd::prelude::*;

verus! {

/// Whether the byte zero occurs in `bytes`.
pub open spec fn has_nul(bytes: Seq<u8>) -> bool {
    exists|i: int| 0 <= i < bytes.len() && bytes[i] == 0u8
}

/// The credential that authorises the use of the engine, held in the form
/// in which the engine takes it: bytes among which none is zero, so that a
/// zero can close them.
pub struct AccessKey {
    bytes: Vec<u8>,
}

impl View for AccessKey {
    type V = Seq<u8>;

    closed spec fn view(&self) -> Seq<u8> {
        self.bytes@
    }
}

impl AccessKey {
    #[verifier::type_invariant]
    spec fn inv(self) -> bool {
        !has_nul(self.bytes@)
    }

    /// Accepts `bytes` as an access key unless a zero byte lies among
    /// them, which makes the key malformed.
    pub fn new(bytes: Vec<u8>) -> (made: Result<AccessKey, Error>)
        ensures
            made is Err <==> has_nul(bytes@),
            made matches Ok(key) ==> key@ == bytes@,
            made matches Err(e) ==> e == Error::InvalidArgument,
    {
        let mut i: usize = 0;
        while i < bytes.len()
            invariant
                i <= bytes@.len(),
                forall|j: int| 0 <= j < i ==> bytes@[j] != 0u8,
            decreases bytes@.len() - i,
        {
            if bytes[i] == 0 {
                return Err(Error::InvalidArgument);
            }
            i += 1;
        }
        Ok(AccessKey { bytes })
    }

    /// The bytes of the key; none of them is zero.
    pub fn as_bytes(&self) -> (bytes: &[u8])
        ensures
            bytes@ == self@,
            !has_nul(bytes@),
    {
        proof {
            use_type_invariant(self);
        }
        self.bytes.as_slice()
    }
}

/// How the creation of an engine ended, read from what the native
/// initialiser reported: a status other than success is the failure it
/// names; success without a handle is a null value; success with a handle
/// is an engine.
pub open spec fn init_outcome(status: u32, handle_is_null: bool) -> Result<(), Error> {
    if status != STATUS_SUCCESS {
        Err(error_of_status(status))
    } else if handle_is_null {
        Err(Error::NullValue)
    } else {
        Ok(())
    }
}

/// How one scoring call ended: the score on success, else the failure that
/// the status names.
pub open spec fn process_outcome<S>(status: u32, score: S) -> Result<S, Error> {
    if status != STATUS_SUCCESS {
        Err(error_of_status(status))
    } else {
        Ok(score)
    }
}

/// A live scoring engine, as the verified core knows it. The native
/// resource itself stays with the binding; this value is the licence to
/// use it, and remembers the one thing every call depends on: the number
/// of samples the engine reads per frame.
pub struct Cobra {
    frame_length: usize,
}

impl Cobra {
    /// The number of samples that the engine reads at each call.
    pub closed spec fn spec_frame_length(&self) -> usize {
        self.frame_length
    }

    /// Settles the creation of an engine. `status` and `handle_is_null`
    /// are what the native initialiser reported for a well-formed access
    /// key; `frame_length` is the frame length that the engine declares.
    pub fn new(status: u32, handle_is_null: bool, frame_length: usize) -> (made: Result<
        Cobra,
        Error,
    >)
        ensures
            made is Ok <==> init_outcome(status, handle_is_null) is Ok,
            made matches Ok(engine) ==> engine.spec_frame_length() == frame_length,
            made matches Err(e) ==> init_outcome(status, handle_is_null) == Err::<(), Error>(e),
    {
        if status != STATUS_SUCCESS {
            Err(Error::from(status))
        } else if handle_is_null {
            Err(Error::NullValue)
        } else {
            Ok(Cobra { frame_length })
        }
    }

    /// The number of samples that the engine reads at each call.
    #[verifier::when_used_as_spec(spec_frame_length)]
    pub fn frame_length(&self) -> (n: usize)
        ensures
            n == self.spec_frame_length(),
    {
        self.frame_length
    }

    /// Settles one scoring call. `pcm` is the frame that was handed to the
    /// engine, which must be exactly one frame long; `status` and `score`
    /// are what the engine reported for it. The handle itself is left as
    /// it was.
    pub fn process<S>(&mut self, pcm: &[i16], status: u32, score: S) -> (scored: Result<S, Error>)
        requires
            pcm@.len() == old(self).spec_frame_length(),
        ensures
            *final(self) == *old(self),
            scored == process_outcome(status, score),
    {
        if status != STATUS_SUCCESS {
            Err(Error::from(status))
        } else {
            Ok(score)
        }
    }
}

} // verus!
