//! Errors reported by the encode and decode capability functions.

use vstd::prelude::*;

verus! {

/// Error value for a failed encode or decode.
///
/// Encoding fails only when a variable-length value is too long for the wire
/// format's 32-bit length prefix. Decoding fails on truncated input (for a
/// text value, reported as [`InvalidData`](MarshalError::InvalidData)), on
/// an unknown discriminant byte, on malformed text, and (at top level) on
/// input that is longer than one encoded value.
#[derive(Clone, Copy, Debug, PartialEq, Eq, Structural)]
pub enum MarshalError {
    /// The input ended before a whole value was read.
    UnexpectedEndOfInput,
    /// A discriminant byte held a value that names no variant.
    InvalidDiscriminant,
    /// A whole value was decoded but input bytes were left over.
    TrailingBytes,
    /// A sequence or string is too long for the 32-bit length prefix.
    LengthOverflow,
    /// The base codec rejected a text value: malformed UTF-8, or text cut
    /// short (the adapter cannot tell the base codec's two failures apart).
    InvalidData,
}

} // verus!
