//! UCS-2: exactly one 16-bit unit per code point.
//!
//! Only the scalar values of the Basic Multilingual Plane (`0x0000..=0xFFFF`
//! without the surrogates) can be written; each is its own unit. There are
//! no surrogate pairs: a unit in the surrogate range is never valid.

use vstd::prelude::*;
use crate::error::CodecError;
use crate::unicode::{
    all_bmp_scalar_values, check_code_point, spec_is_scalar_value, spec_is_surrogate, MAX_BMP,
};
use crate::utf16::{decode_utf16, encode_utf16};

verus! {

// ---------------------------------------------------------------------------
// Model
// ---------------------------------------------------------------------------

/// No element of `units` lies in the surrogate range.
pub open spec fn no_surrogate_units(units: Seq<u16>) -> bool {
    forall|i: int| 0 <= i < units.len() ==> !spec_is_surrogate(#[trigger] units[i] as u32)
}

/// The UCS-2 encoding of a sequence of code points: unit for unit the same
/// numbers, provided that all of them are scalar values of the Basic
/// Multilingual Plane; `InvalidCodePoint` otherwise.
pub open spec fn encode_ucs2(code_points: Seq<u32>) -> Result<Seq<u16>, CodecError> {
    if all_bmp_scalar_values(code_points) {
        Ok(Seq::new(code_points.len(), |i: int| code_points[i] as u16))
    } else {
        Err(CodecError::InvalidCodePoint)
    }
}

/// The code points that a UCS-2 sequence holds: unit for unit the same
/// numbers, provided that no unit is a surrogate; `InvalidCodePoint`
/// otherwise.
pub open spec fn decode_ucs2(units: Seq<u16>) -> Result<Seq<u32>, CodecError> {
    if no_surrogate_units(units) {
        Ok(Seq::new(units.len(), |i: int| units[i] as u32))
    } else {
        Err(CodecError::InvalidCodePoint)
    }
}

// ---------------------------------------------------------------------------
// Encoding and decoding
// ---------------------------------------------------------------------------

/// Encodes a sequence of code points into UCS-2.
///
/// Fails with `InvalidCodePoint` if an element lies above `0xFFFF` or is a
/// surrogate; otherwise returns one unit per element, equal to it.
pub fn encode_in_ucs2(code_points: &[u32]) -> (res: Result<Vec<u16>, CodecError>)
    ensures
        match res {
            Ok(units) => encode_ucs2(code_points@) == Ok::<Seq<u16>, CodecError>(units@),
            Err(e) => encode_ucs2(code_points@) == Err::<Seq<u16>, CodecError>(e),
        },
        res is Ok <==> all_bmp_scalar_values(code_points@),
        res is Err ==> res->Err_0 == CodecError::InvalidCodePoint,
        res matches Ok(units) ==> decode_ucs2(units@) == Ok::<Seq<u32>, CodecError>(
            code_points@,
        ),
{
    proof {
        if all_bmp_scalar_values(code_points@) {
            theorem_ucs2_round_trip(code_points@);
        }
    }
    let mut out: Vec<u16> = Vec::new();
    let mut i: usize = 0;
    while i < code_points.len()
        invariant
            i <= code_points.len(),
            out@.len() == i,
            all_bmp_scalar_values(code_points@.take(i as int)),
            forall|j: int| 0 <= j < i ==> out@[j] == code_points@[j] as u16,
        decreases code_points.len() - i,
    {
        let code_point: u32 = code_points[i];
        if code_point > MAX_BMP {
            return Err(CodecError::InvalidCodePoint);
        }
        match check_code_point(code_point) {
            Ok(()) => {},
            Err(e) => { return Err(e); },
        }
        out.push(code_point as u16);
        i += 1;
        assert forall|j: int| 0 <= j < i implies {
            &&& spec_is_scalar_value(#[trigger] code_points@.take(i as int)[j])
            &&& code_points@.take(i as int)[j] <= MAX_BMP
        } by {
            if j < i - 1 {
                assert(code_points@.take(i - 1)[j] == code_points@[j]);
            }
        }
    }
    assert(code_points@.take(i as int) =~= code_points@);
    assert(out@ =~= encode_ucs2(code_points@)->Ok_0);
    Ok(out)
}

/// Decodes a UCS-2 unit sequence into its code points.
///
/// Fails with `InvalidCodePoint` if a unit lies in the surrogate range
/// `0xD800..=0xDFFF`; otherwise returns one code point per unit, equal to
/// it.
pub fn decode_from_ucs2(units: &[u16]) -> (res: Result<Vec<u32>, CodecError>)
    ensures
        match res {
            Ok(code_points) => decode_ucs2(units@) == Ok::<Seq<u32>, CodecError>(code_points@),
            Err(e) => decode_ucs2(units@) == Err::<Seq<u32>, CodecError>(e),
        },
        res is Ok <==> no_surrogate_units(units@),
        res is Err ==> res->Err_0 == CodecError::InvalidCodePoint,
        res matches Ok(code_points) ==> {
            &&& all_bmp_scalar_values(code_points@)
            &&& encode_ucs2(code_points@) == Ok::<Seq<u16>, CodecError>(units@)
        },
{
    proof {
        if decode_ucs2(units@) is Ok {
            theorem_ucs2_decode_inverts(units@);
        }
    }
    let mut out: Vec<u32> = Vec::new();
    let mut i: usize = 0;
    while i < units.len()
        invariant
            i <= units.len(),
            out@.len() == i,
            forall|j: int| 0 <= j < i ==> !spec_is_surrogate(#[trigger] units@[j] as u32),
            forall|j: int| 0 <= j < i ==> out@[j] == units@[j] as u32,
        decreases units.len() - i,
    {
        let code_point: u32 = units[i] as u32;
        match check_code_point(code_point) {
            Ok(()) => {},
            Err(e) => { return Err(e); },
        }
        out.push(code_point);
        i += 1;
    }
    assert(out@ =~= decode_ucs2(units@)->Ok_0);
    Ok(out)
}

/// Encodes a sequence of code points into UCS-2; a short name for
/// [`encode_in_ucs2`].
pub fn ucs2_encode(code_points: &[u32]) -> (res: Result<Vec<u16>, CodecError>)
    ensures
        match res {
            Ok(units) => encode_ucs2(code_points@) == Ok::<Seq<u16>, CodecError>(units@),
            Err(e) => encode_ucs2(code_points@) == Err::<Seq<u16>, CodecError>(e),
        },
        res is Ok <==> all_bmp_scalar_values(code_points@),
        res is Err ==> res->Err_0 == CodecError::InvalidCodePoint,
        res matches Ok(units) ==> decode_ucs2(units@) == Ok::<Seq<u32>, CodecError>(
            code_points@,
        ),
{
    encode_in_ucs2(code_points)
}

/// Decodes a UCS-2 unit sequence into its code points; a short name for
/// [`decode_from_ucs2`].
pub fn ucs2_decode(units: &[u16]) -> (res: Result<Vec<u32>, CodecError>)
    ensures
        match res {
            Ok(code_points) => decode_ucs2(units@) == Ok::<Seq<u32>, CodecError>(code_points@),
            Err(e) => decode_ucs2(units@) == Err::<Seq<u32>, CodecError>(e),
        },
        res is Ok <==> no_surrogate_units(units@),
        res is Err ==> res->Err_0 == CodecError::InvalidCodePoint,
        res matches Ok(code_points) ==> {
            &&& all_bmp_scalar_values(code_points@)
            &&& encode_ucs2(code_points@) == Ok::<Seq<u16>, CodecError>(units@)
        },
{
    decode_from_ucs2(units)
}

// ---------------------------------------------------------------------------
// Theorems
// ---------------------------------------------------------------------------

/// Decoding the encoding of a sequence of scalar values of the Basic
/// Multilingual Plane gives the sequence back.
pub proof fn theorem_ucs2_round_trip(code_points: Seq<u32>)
    requires
        all_bmp_scalar_values(code_points),
    ensures
        encode_ucs2(code_points) matches Ok(units) && decode_ucs2(units) == Ok::<
            Seq<u32>,
            CodecError,
        >(code_points),
{
    let units = encode_ucs2(code_points)->Ok_0;
    assert forall|i: int| 0 <= i < units.len() implies !spec_is_surrogate(
        #[trigger] units[i] as u32,
    ) by {
        assert(spec_is_scalar_value(code_points[i]));
    }
    assert forall|i: int| 0 <= i < units.len() implies units[i] as u32 == code_points[i] by {
        assert(spec_is_scalar_value(code_points[i]));
    }
    assert(decode_ucs2(units)->Ok_0 =~= code_points);
}

/// Whatever decodes is the encoding of what it decodes to: the decoded code
/// points are scalar values of the Basic Multilingual Plane, and encoding
/// them gives the input back.
pub proof fn theorem_ucs2_decode_inverts(units: Seq<u16>)
    requires
        decode_ucs2(units) is Ok,
    ensures
        decode_ucs2(units) matches Ok(code_points) && {
            &&& all_bmp_scalar_values(code_points)
            &&& encode_ucs2(code_points) == Ok::<Seq<u16>, CodecError>(units)
        },
{
    let code_points = decode_ucs2(units)->Ok_0;
    assert forall|i: int| 0 <= i < code_points.len() implies {
        &&& spec_is_scalar_value(#[trigger] code_points[i])
        &&& code_points[i] <= MAX_BMP
    } by {
        assert(!spec_is_surrogate(units[i] as u32));
    }
    assert(encode_ucs2(code_points)->Ok_0 =~= units);
}

/// A sequence that holds a surrogate or a code point above `0xFFFF` at any
/// index is refused with `InvalidCodePoint`.
pub proof fn theorem_ucs2_encode_rejects(code_points: Seq<u32>, i: int)
    requires
        0 <= i < code_points.len(),
        spec_is_surrogate(code_points[i]) || code_points[i] > MAX_BMP,
    ensures
        encode_ucs2(code_points) == Err::<Seq<u16>, CodecError>(CodecError::InvalidCodePoint),
{
}

/// A sequence that holds a unit of the surrogate range at any index is
/// refused with `InvalidCodePoint`.
pub proof fn theorem_ucs2_decode_rejects(units: Seq<u16>, i: int)
    requires
        0 <= i < units.len(),
        spec_is_surrogate(units[i] as u32),
    ensures
        decode_ucs2(units) == Err::<Seq<u32>, CodecError>(CodecError::InvalidCodePoint),
{
}

/// UCS-2 is the part of UTF-16 without surrogate pairs: what UCS-2 encodes,
/// UTF-16 encodes to the same units.
pub proof fn theorem_ucs2_encode_within_utf16(code_points: Seq<u32>)
    requires
        encode_ucs2(code_points) is Ok,
    ensures
        encode_utf16(code_points) == encode_ucs2(code_points),
    decreases code_points.len(),
{
    if code_points.len() > 0 {
        let rest = code_points.skip(1);
        assert(forall|i: int| 0 <= i < rest.len() ==> rest[i] == code_points[i + 1]);
        assert(spec_is_scalar_value(code_points[0]));
        theorem_ucs2_encode_within_utf16(rest);
        assert(seq![code_points[0] as u16] + encode_ucs2(rest)->Ok_0 =~= encode_ucs2(
            code_points,
        )->Ok_0);
    } else {
        assert(encode_ucs2(code_points)->Ok_0 =~= Seq::<u16>::empty());
    }
}

/// What UCS-2 decodes, UTF-16 decodes to the same code points.
pub proof fn theorem_ucs2_decode_within_utf16(units: Seq<u16>)
    requires
        decode_ucs2(units) is Ok,
    ensures
        decode_utf16(units) == decode_ucs2(units),
    decreases units.len(),
{
    if units.len() > 0 {
        let rest = units.skip(1);
        assert(forall|i: int| 0 <= i < rest.len() ==> rest[i] == units[i + 1]);
        assert(!spec_is_surrogate(units[0] as u32));
        theorem_ucs2_decode_within_utf16(rest);
        assert(seq![units[0] as u32] + decode_ucs2(rest)->Ok_0 =~= decode_ucs2(units)->Ok_0);
    } else {
        assert(decode_ucs2(units)->Ok_0 =~= Seq::<u32>::empty());
    }
}

} // verus!
