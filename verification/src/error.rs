//! Errors reported by the decoder.

use vstd::prelude::*;

verus! {

/// Why a byte sequence could not be decoded.
#[derive(Debug, Clone, Copy, PartialEq, Eq, Structural)]
pub enum CborError {
    /// A declared length or magnitude cannot be represented in the target.
    LengthOutOfRange,
    /// A header byte is not one that the requested target accepts.
    UnexpectedCode,
    /// A tag is present but is not the content identifier tag sequence.
    UnknownTag,
    /// The input ended before the item was complete.
    UnexpectedEof,
    /// A text string does not hold valid UTF-8.
    InvalidUtf8,
    /// The payload of a link is not a well-formed content identifier.
    InvalidCid,
}

} // verus!
