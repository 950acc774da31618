//! The ways in which an encode or decode call can fail.

use vstd::prelude::*;

verus! {

/// Why a sequence could not be encoded or decoded.
///
/// A call reports the failure of the first symbol, from the left, that is
/// malformed; nothing is returned for the symbols before it.
#[derive(Clone, Copy, Debug, PartialEq, Eq, Structural)]
pub enum CodecError {
    /// A scalar lies in the surrogate range `0xD800..=0xDFFF`, or is too
    /// large for the target encoding (above `0xFFFF` for UCS-2, above
    /// `0x10FFFF` for all).
    InvalidCodePoint,
    /// The input ends before a multi-unit symbol is complete.
    TruncatedSequence,
    /// A unit that had to be a UTF-8 continuation byte or a UTF-16 low
    /// surrogate is something else, or a byte that cannot start a UTF-8
    /// symbol stands where a symbol starts.
    InvalidContinuation,
    /// A multi-byte UTF-8 symbol holds a value that fits in fewer bytes.
    OverlongEncoding,
}

} // verus!
