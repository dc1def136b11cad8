//! The ways in which reading a tag can fail.

use vstd::prelude::*;

verus! {

/// Why a byte stream could not be decoded.
#[derive(Clone, Copy, Debug, PartialEq, Eq, Structural)]
pub enum NbtError {
    /// The stream ended inside a field that had already been started.
    UnexpectedEof,
    /// A byte that should name a kind of tag is none of the twelve payload kinds.
    UnknownTagId(u8),
    /// The bytes of a name or of a string payload are not UTF-8.
    InvalidUtf8,
}

/// The two classes of failure that callers tell apart.
#[derive(Clone, Copy, Debug, PartialEq, Eq, Structural)]
pub enum ErrorKind {
    /// The input is too short.
    UnexpectedEof,
    /// The input is long enough but does not follow the format.
    InvalidData,
}

impl NbtError {
    /// The class of this failure: truncation, or malformed data.
    pub open spec fn spec_kind(&self) -> ErrorKind {
        match *self {
            NbtError::UnexpectedEof => ErrorKind::UnexpectedEof,
            NbtError::UnknownTagId(_) => ErrorKind::InvalidData,
            NbtError::InvalidUtf8 => ErrorKind::InvalidData,
        }
    }

    /// The class of this failure: truncation, or malformed data.
    #[verifier::when_used_as_spec(spec_kind)]
    pub fn kind(&self) -> (k: ErrorKind)
        ensures
            k == self.spec_kind(),
    {
        match self {
            NbtError::UnexpectedEof => ErrorKind::UnexpectedEof,
            NbtError::UnknownTagId(_) => ErrorKind::InvalidData,
            NbtError::InvalidUtf8 => ErrorKind::InvalidData,
        }
    }
}

} // verus!
