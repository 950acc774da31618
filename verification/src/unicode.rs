//! Code points and the validity rules shared by all three codecs.

use vstd::prelude::*;
use crate::error::CodecError;

verus! {

/// The largest Unicode code point.
pub const MAX_CODE_POINT: u32 = 0x10FFFF;

/// The largest code point of the Basic Multilingual Plane.
pub const MAX_BMP: u32 = 0xFFFF;

/// `code_point` lies in the range reserved for UTF-16 surrogates.
pub open spec fn spec_is_surrogate(code_point: u32) -> bool {
    0xD800 <= code_point <= 0xDFFF
}

/// `code_point` is a Unicode scalar value: at most `0x10FFFF` and no
/// surrogate. These are exactly the code points that UTF-8 and UTF-16 can
/// carry.
pub open spec fn spec_is_scalar_value(code_point: u32) -> bool {
    code_point <= MAX_CODE_POINT && !spec_is_surrogate(code_point)
}

/// Every element of `code_points` is a scalar value.
pub open spec fn all_scalar_values(code_points: Seq<u32>) -> bool {
    forall|i: int| 0 <= i < code_points.len() ==> spec_is_scalar_value(#[trigger] code_points[i])
}

/// Every element of `code_points` is a scalar value of the Basic
/// Multilingual Plane.
pub open spec fn all_bmp_scalar_values(code_points: Seq<u32>) -> bool {
    forall|i: int|
        0 <= i < code_points.len() ==> {
            &&& spec_is_scalar_value(#[trigger] code_points[i])
            &&& code_points[i] <= MAX_BMP
        }
}

/// Tells whether `code_point` lies in the surrogate range `0xD800..=0xDFFF`.
#[verifier::when_used_as_spec(spec_is_surrogate)]
pub fn is_surrogate(code_point: u32) -> (b: bool)
    ensures
        b == spec_is_surrogate(code_point),
{
    0xD800 <= code_point && code_point <= 0xDFFF
}

/// Tells whether `code_point` is a Unicode scalar value.
#[verifier::when_used_as_spec(spec_is_scalar_value)]
pub fn is_scalar_value(code_point: u32) -> (b: bool)
    ensures
        b == spec_is_scalar_value(code_point),
{
    code_point <= MAX_CODE_POINT && !is_surrogate(code_point)
}

/// Rejects a surrogate that is used as a scalar.
pub fn check_code_point(code_point: u32) -> (res: Result<(), CodecError>)
    ensures
        res == (if is_surrogate(code_point) {
            Err::<(), CodecError>(CodecError::InvalidCodePoint)
        } else {
            Ok::<(), CodecError>(())
        }),
{
    if is_surrogate(code_point) {
        Err(CodecError::InvalidCodePoint)
    } else {
        Ok(())
    }
}

} // verus!
