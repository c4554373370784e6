//! What can go wrong with a buffer.

use vstd::prelude::*;

verus! {

/// Why a message could not be read from, or written to, a buffer.
#[derive(Clone, Copy, Debug, PartialEq, Eq, Hash, Structural)]
pub enum CodecError {
    /// The operation would have touched an octet past the end of the buffer.
    EndOfBuffer,
    /// A label is longer than the 63 octets that a length octet can announce.
    LabelTooLong,
    /// A name is spread over more compression pointers than a reader follows.
    TooManyJumps,
    /// A section holds more entries than its 16-bit count can announce.
    TooManyRecords,
}

/// What a reader makes of a place in a buffer where it finds `value` and
/// then stands at `end`.
pub open spec fn found<T>(value: T, end: int) -> Result<(T, int), CodecError> {
    Ok((value, end))
}

} // verus!
