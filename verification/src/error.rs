use vstd::prelude::*;

verus! {

/// Why a guest operation could not be completed.
///
/// None of these is recoverable where it arises: the caller is expected to
/// hand the failure to the escape channel.
#[derive(Debug, Clone, Copy, PartialEq, Eq, Structural)]
pub enum GuestError {
    /// Shared memory has no room left for the buffer that was asked for.
    AllocationFailure,
    /// The message could not be serialized, or its serialized form is longer
    /// than a length prefix can describe.
    EncodeError,
    /// The payload of a frame is not a well-formed message of the expected kind.
    DecodeError,
    /// The address does not denote a live frame: it was never allocated, it was
    /// already reclaimed, or the prefix found there does not describe the buffer.
    ProtocolViolation,
}

impl GuestError {
    /// The text that describes this failure to the host.
    pub open spec fn text(self) -> Seq<char> {
        match self {
            GuestError::AllocationFailure => "shared memory exhausted"@,
            GuestError::EncodeError => "message cannot be encoded"@,
            GuestError::DecodeError => "payload is not a well-formed message"@,
            GuestError::ProtocolViolation => "address does not denote a live frame"@,
        }
    }

    /// A human-readable description of the failure.
    pub fn describe(&self) -> (res: &'static str)
        ensures
            res@ == self.text(),
    {
        match self {
            GuestError::AllocationFailure => "shared memory exhausted",
            GuestError::EncodeError => "message cannot be encoded",
            GuestError::DecodeError => "payload is not a well-formed message",
            GuestError::ProtocolViolation => "address does not denote a live frame",
        }
    }
}

} // verus!
