//! UTF-16: one or two 16-bit units per code point.
//!
//! A scalar value below `0x10000` is its own unit. A larger one is split
//! into a surrogate pair: with `extra = code_point - 0x10000`, a 20-bit
//! number, the high surrogate is `0xD800 + (extra >> 10)` and the low
//! surrogate `0xDC00 + (extra & 0x3FF)`. Units in the surrogate range never
//! stand for a code point of their own.

use vstd::prelude::*;
use crate::error::CodecError;
use crate::unicode::{
    all_scalar_values, check_code_point, is_scalar_value, spec_is_scalar_value, spec_is_surrogate,
    MAX_CODE_POINT,
};

verus! {

// ---------------------------------------------------------------------------
// Model: one symbol
// ---------------------------------------------------------------------------

/// `unit` is the first half of a surrogate pair.
pub open spec fn spec_is_high_surrogate(unit: u16) -> bool {
    0xD800 <= unit <= 0xDBFF
}

/// `unit` is the second half of a surrogate pair.
pub open spec fn spec_is_low_surrogate(unit: u16) -> bool {
    0xDC00 <= unit <= 0xDFFF
}

/// The high surrogate of a code point above the Basic Multilingual Plane.
pub open spec fn high_surrogate_of(code_point: u32) -> u16 {
    (0xD800 + (((code_point - 0x10000) as u32) >> 10)) as u16
}

/// The low surrogate of a code point above the Basic Multilingual Plane.
pub open spec fn low_surrogate_of(code_point: u32) -> u16 {
    (0xDC00 + (((code_point - 0x10000) as u32) & 0x3FF)) as u16
}

/// The code point that a surrogate pair stands for.
pub open spec fn join_pair(high: u16, low: u16) -> u32 {
    ((((high & 0x3FF) as u32) << 10) + ((low & 0x3FF) as u32) + 0x10000) as u32
}

/// The units of one code point, or `InvalidCodePoint` for a surrogate or a
/// value above `0x10FFFF`.
pub open spec fn encode_one(code_point: u32) -> Result<Seq<u16>, CodecError> {
    if spec_is_surrogate(code_point) || code_point > MAX_CODE_POINT {
        Err(CodecError::InvalidCodePoint)
    } else if code_point < 0x10000 {
        Ok(seq![code_point as u16])
    } else {
        Ok(seq![high_surrogate_of(code_point), low_surrogate_of(code_point)])
    }
}

/// Decodes the symbol at the start of `units`: the code point and the number
/// of units it takes, or the fault found. A high surrogate needs a low
/// surrogate behind it; a low surrogate cannot start a symbol.
pub open spec fn decode_first(units: Seq<u16>) -> Result<(u32, int), CodecError>
    recommends
        units.len() > 0,
{
    let lead = units[0];
    if spec_is_high_surrogate(lead) {
        if units.len() < 2 {
            Err(CodecError::TruncatedSequence)
        } else if !spec_is_low_surrogate(units[1]) {
            Err(CodecError::InvalidContinuation)
        } else {
            Ok((join_pair(lead, units[1]), 2))
        }
    } else if spec_is_low_surrogate(lead) {
        Err(CodecError::InvalidCodePoint)
    } else {
        Ok((lead as u32, 1))
    }
}

// ---------------------------------------------------------------------------
// Model: whole sequences
// ---------------------------------------------------------------------------

/// The UTF-16 encoding of a sequence of code points: the encodings of its
/// elements one after the other, or the failure of the first element that
/// has none.
pub open spec fn encode_utf16(code_points: Seq<u32>) -> Result<Seq<u16>, CodecError>
    decreases code_points.len(),
{
    if code_points.len() == 0 {
        Ok(Seq::empty())
    } else {
        match encode_one(code_points[0]) {
            Err(e) => Err(e),
            Ok(head) => match encode_utf16(code_points.skip(1)) {
                Err(e) => Err(e),
                Ok(tail) => Ok(head + tail),
            },
        }
    }
}

/// The code points that a unit sequence holds, symbol after symbol from the
/// left, or the failure of the first symbol that is malformed.
pub open spec fn decode_utf16(units: Seq<u16>) -> Result<Seq<u32>, CodecError>
    decreases units.len(),
{
    if units.len() == 0 {
        Ok(Seq::empty())
    } else {
        match decode_first(units) {
            Err(e) => Err(e),
            Ok((code_point, width)) => match decode_utf16(units.skip(width)) {
                Err(e) => Err(e),
                Ok(tail) => Ok(seq![code_point] + tail),
            },
        }
    }
}

// ---------------------------------------------------------------------------
// One symbol
// ---------------------------------------------------------------------------

/// Tells whether `unit` is a high surrogate, `0xD800..=0xDBFF`.
#[verifier::when_used_as_spec(spec_is_high_surrogate)]
pub fn is_high_surrogate(unit: u16) -> (b: bool)
    ensures
        b == spec_is_high_surrogate(unit),
{
    0xD800 <= unit && unit <= 0xDBFF
}

/// Tells whether `unit` is a low surrogate, `0xDC00..=0xDFFF`.
#[verifier::when_used_as_spec(spec_is_low_surrogate)]
pub fn is_low_surrogate(unit: u16) -> (b: bool)
    ensures
        b == spec_is_low_surrogate(unit),
{
    0xDC00 <= unit && unit <= 0xDFFF
}

/// Encodes one code point into its one or two units.
fn encode_code_point(code_point: u32) -> (res: Result<Vec<u16>, CodecError>)
    ensures
        match res {
            Ok(units) => encode_one(code_point) == Ok::<Seq<u16>, CodecError>(units@),
            Err(e) => encode_one(code_point) == Err::<Seq<u16>, CodecError>(e),
        },
{
    if !is_scalar_value(code_point) {
        return Err(CodecError::InvalidCodePoint);
    }
    let mut units: Vec<u16> = Vec::new();
    if code_point < 0x10000 {
        units.push(code_point as u16);
        assert(units@ =~= seq![code_point as u16]);
        return Ok(units);
    }
    let extra: u32 = code_point - 0x10000;
    assert((extra >> 10) <= 0x3FFFFF && (extra & 0x3FF) <= 0x3FF) by (bit_vector);
    units.push((0xD800 + (extra >> 10)) as u16);
    units.push((0xDC00 + (extra & 0x3FF)) as u16);
    assert(units@ =~= seq![high_surrogate_of(code_point), low_surrogate_of(code_point)]);
    Ok(units)
}

/// Decodes the symbol that starts at index `i` of `units`.
///
/// Returns the code point and the number of units consumed (1 or 2), or the
/// fault of the symbol: a high surrogate at the end of the input, a high
/// surrogate followed by something else than a low surrogate, or a low
/// surrogate where a symbol starts.
fn decode_symbol(units: &[u16], i: usize) -> (res: Result<(u32, usize), CodecError>)
    requires
        i < units.len(),
    ensures
        match res {
            Ok((code_point, n)) => {
                &&& decode_first(units@.skip(i as int)) == Ok::<(u32, int), CodecError>(
                    (code_point, n as int),
                )
                &&& 1 <= n <= 2
                &&& i + n <= units.len()
            },
            Err(e) => decode_first(units@.skip(i as int)) == Err::<(u32, int), CodecError>(e),
        },
{
    let ghost rest: Seq<u16> = units@.skip(i as int);
    assert(rest.len() == units.len() - i);
    assert(rest[0] == units@[i as int]);

    let lead: u16 = units[i];
    if !is_high_surrogate(lead) {
        match check_code_point(lead as u32) {
            Ok(()) => {},
            Err(e) => { return Err(e); },
        }
        return Ok((lead as u32, 1));
    }
    if i + 1 >= units.len() {
        return Err(CodecError::TruncatedSequence);
    }
    let low: u16 = units[i + 1];
    assert(rest[1] == low);
    if !is_low_surrogate(low) {
        return Err(CodecError::InvalidContinuation);
    }
    assert((((lead & 0x3FF) as u32) << 10) <= 0xFFC00 && ((low & 0x3FF) as u32) <= 0x3FF)
        by (bit_vector);
    let code_point: u32 = (((lead & 0x3FF) as u32) << 10) + ((low & 0x3FF) as u32) + 0x10000;
    Ok((code_point, 2))
}

// ---------------------------------------------------------------------------
// Whole sequences
// ---------------------------------------------------------------------------

/// Encodes a sequence of code points into UTF-16.
///
/// Fails with `InvalidCodePoint` if an element is a surrogate or lies above
/// `0x10FFFF`; otherwise returns the encodings of the elements in order,
/// which decode to `code_points` again.
pub fn encode_in_utf16(code_points: &[u32]) -> (res: Result<Vec<u16>, CodecError>)
    ensures
        match res {
            Ok(units) => encode_utf16(code_points@) == Ok::<Seq<u16>, CodecError>(units@),
            Err(e) => encode_utf16(code_points@) == Err::<Seq<u16>, CodecError>(e),
        },
        res is Ok <==> all_scalar_values(code_points@),
        res is Err ==> res->Err_0 == CodecError::InvalidCodePoint,
        res matches Ok(units) ==> decode_utf16(units@) == Ok::<Seq<u32>, CodecError>(
            code_points@,
        ),
{
    proof {
        theorem_utf16_encode_defined(code_points@);
        if all_scalar_values(code_points@) {
            theorem_utf16_round_trip(code_points@);
        }
    }
    let mut out: Vec<u16> = Vec::new();
    let mut i: usize = 0;
    proof {
        assert(code_points@.skip(0) =~= code_points@);
        assert forall|tail: Seq<u16>| out@ + tail == tail by {
            assert(out@ + tail =~= tail);
        }
    }
    while i < code_points.len()
        invariant
            i <= code_points.len(),
            encode_utf16(code_points@) == (match encode_utf16(code_points@.skip(i as int)) {
                Ok(tail) => Ok::<Seq<u16>, CodecError>(out@ + tail),
                Err(e) => Err::<Seq<u16>, CodecError>(e),
            }),
        decreases code_points.len() - i,
    {
        let ghost rest: Seq<u32> = code_points@.skip(i as int);
        assert(rest.len() > 0 && rest[0] == code_points@[i as int]);
        assert(rest.skip(1) =~= code_points@.skip(i + 1));
        match encode_code_point(code_points[i]) {
            Err(e) => { return Err(e); },
            Ok(mut symbol) => {
                proof {
                    let done: Seq<u16> = out@;
                    assert forall|tail: Seq<u16>| (done + symbol@) + tail == done + (symbol@ + tail) by {
                        assert((done + symbol@) + tail =~= done + (symbol@ + tail));
                    }
                }
                out.append(&mut symbol);
            },
        }
        i += 1;
    }
    assert(code_points@.skip(i as int).len() == 0);
    assert(out@ + Seq::<u16>::empty() =~= out@);
    Ok(out)
}

/// Decodes a UTF-16 unit sequence into its code points.
///
/// Fails at the first malformed symbol, with `TruncatedSequence` where a
/// high surrogate is the last unit, `InvalidContinuation` where a high
/// surrogate is followed by something else than a low surrogate, and
/// `InvalidCodePoint` where a low surrogate stands alone. What is returned
/// on success are scalar values whose encoding is `units`.
pub fn decode_from_utf16(units: &[u16]) -> (res: Result<Vec<u32>, CodecError>)
    ensures
        match res {
            Ok(code_points) => decode_utf16(units@) == Ok::<Seq<u32>, CodecError>(code_points@),
            Err(e) => decode_utf16(units@) == Err::<Seq<u32>, CodecError>(e),
        },
        res matches Ok(code_points) ==> {
            &&& all_scalar_values(code_points@)
            &&& encode_utf16(code_points@) == Ok::<Seq<u16>, CodecError>(units@)
        },
{
    proof {
        if decode_utf16(units@) is Ok {
            theorem_utf16_decode_inverts(units@);
        }
    }
    let mut out: Vec<u32> = Vec::new();
    let mut i: usize = 0;
    proof {
        assert(units@.skip(0) =~= units@);
        assert forall|tail: Seq<u32>| out@ + tail == tail by {
            assert(out@ + tail =~= tail);
        }
    }
    while i < units.len()
        invariant
            i <= units.len(),
            decode_utf16(units@) == (match decode_utf16(units@.skip(i as int)) {
                Ok(tail) => Ok::<Seq<u32>, CodecError>(out@ + tail),
                Err(e) => Err::<Seq<u32>, CodecError>(e),
            }),
        decreases units.len() - i,
    {
        let ghost rest: Seq<u16> = units@.skip(i as int);
        assert(rest.len() > 0);
        match decode_symbol(units, i) {
            Err(e) => { return Err(e); },
            Ok((code_point, n)) => {
                proof {
                    let done: Seq<u32> = out@;
                    assert(rest.skip(n as int) =~= units@.skip(i + n));
                    assert forall|tail: Seq<u32>|
                        done.push(code_point) + tail == done + (seq![code_point] + tail) by {
                        assert(done.push(code_point) + tail =~= done + (seq![code_point] + tail));
                    }
                }
                out.push(code_point);
                i += n;
            },
        }
    }
    assert(units@.skip(i as int).len() == 0);
    assert(out@ + Seq::<u32>::empty() =~= out@);
    Ok(out)
}

// ---------------------------------------------------------------------------
// Theorems
// ---------------------------------------------------------------------------

proof fn lemma_bits_pair(code_point: u32)
    by (bit_vector)
    requires
        0x10000 <= code_point <= 0x10FFFF,
    ensures
        spec_is_high_surrogate(high_surrogate_of(code_point)),
        spec_is_low_surrogate(low_surrogate_of(code_point)),
        join_pair(high_surrogate_of(code_point), low_surrogate_of(code_point)) == code_point,
{
}

proof fn lemma_units_pair(high: u16, low: u16)
    by (bit_vector)
    requires
        spec_is_high_surrogate(high),
        spec_is_low_surrogate(low),
    ensures
        0x10000 <= join_pair(high, low) <= 0x10FFFF,
        high_surrogate_of(join_pair(high, low)) == high,
        low_surrogate_of(join_pair(high, low)) == low,
{
}

/// A code point has an encoding exactly if it is a scalar value; the
/// encoding then takes one unit below `0x10000` and two from there on, and
/// no other failure than `InvalidCodePoint` occurs.
pub proof fn lemma_encode_one_width(code_point: u32)
    ensures
        encode_one(code_point) is Ok <==> spec_is_scalar_value(code_point),
        encode_one(code_point) is Err ==> encode_one(code_point)->Err_0
            == CodecError::InvalidCodePoint,
        encode_one(code_point) matches Ok(units) ==> {
            &&& (units.len() == 1 <==> code_point < 0x10000)
            &&& (units.len() == 2 <==> 0x10000 <= code_point <= 0x10FFFF)
        },
{
}

/// Decoding the units of a scalar value, whatever follows them, gives the
/// scalar value back and consumes exactly its units.
pub proof fn lemma_decode_first_of_encoded(code_point: u32, tail: Seq<u16>)
    requires
        spec_is_scalar_value(code_point),
    ensures
        encode_one(code_point) matches Ok(units) && decode_first(units + tail) == Ok::<
            (u32, int),
            CodecError,
        >((code_point, units.len() as int)),
{
    let units = encode_one(code_point)->Ok_0;
    let all = units + tail;
    assert(forall|k: int| 0 <= k < units.len() ==> all[k] == units[k]);
    if code_point >= 0x10000 {
        lemma_bits_pair(code_point);
    }
}

/// A symbol that decodes is the encoding of the code point it gives.
pub proof fn lemma_encode_of_decoded_first(units: Seq<u16>)
    requires
        units.len() > 0,
        decode_first(units) is Ok,
    ensures
        decode_first(units) matches Ok((code_point, width)) && {
            &&& 1 <= width <= 2
            &&& width <= units.len()
            &&& spec_is_scalar_value(code_point)
            &&& encode_one(code_point) == Ok::<Seq<u16>, CodecError>(units.take(width))
        },
{
    let head = units.take(decode_first(units)->Ok_0.1);
    if spec_is_high_surrogate(units[0]) {
        lemma_units_pair(units[0], units[1]);
        assert(head =~= seq![units[0], units[1]]);
    } else {
        assert(head =~= seq![units[0]]);
    }
}

/// A sequence has an encoding exactly if all its elements are scalar
/// values, and encoding fails in no other way than `InvalidCodePoint`. In
/// particular a sequence that holds a surrogate anywhere is refused with
/// `InvalidCodePoint`.
pub proof fn theorem_utf16_encode_defined(code_points: Seq<u32>)
    ensures
        encode_utf16(code_points) is Ok <==> all_scalar_values(code_points),
        encode_utf16(code_points) is Err ==> encode_utf16(code_points) == Err::<
            Seq<u16>,
            CodecError,
        >(CodecError::InvalidCodePoint),
    decreases code_points.len(),
{
    if code_points.len() > 0 {
        let rest = code_points.skip(1);
        lemma_encode_one_width(code_points[0]);
        theorem_utf16_encode_defined(rest);
        assert(forall|i: int| 0 <= i < rest.len() ==> rest[i] == code_points[i + 1]);
        if all_scalar_values(rest) && spec_is_scalar_value(code_points[0]) {
            assert forall|i: int| 0 <= i < code_points.len() implies spec_is_scalar_value(
                #[trigger] code_points[i],
            ) by {
                if i > 0 {
                    assert(code_points[i] == rest[i - 1]);
                }
            }
        }
    }
}

/// Decoding the encoding of a sequence of scalar values gives the sequence
/// back.
pub proof fn theorem_utf16_round_trip(code_points: Seq<u32>)
    requires
        all_scalar_values(code_points),
    ensures
        encode_utf16(code_points) matches Ok(units) && decode_utf16(units) == Ok::<
            Seq<u32>,
            CodecError,
        >(code_points),
    decreases code_points.len(),
{
    theorem_utf16_encode_defined(code_points);
    if code_points.len() > 0 {
        let rest = code_points.skip(1);
        assert(forall|i: int| 0 <= i < rest.len() ==> rest[i] == code_points[i + 1]);
        theorem_utf16_round_trip(rest);
        let head = encode_one(code_points[0])->Ok_0;
        let tail = encode_utf16(rest)->Ok_0;
        lemma_encode_one_width(code_points[0]);
        lemma_decode_first_of_encoded(code_points[0], tail);
        assert((head + tail).skip(head.len() as int) =~= tail);
        assert(seq![code_points[0]] + rest =~= code_points);
    } else {
        assert(code_points =~= Seq::<u32>::empty());
    }
}

/// Whatever decodes is the encoding of what it decodes to: the decoded code
/// points are scalar values, and encoding them gives the input back.
pub proof fn theorem_utf16_decode_inverts(units: Seq<u16>)
    requires
        decode_utf16(units) is Ok,
    ensures
        decode_utf16(units) matches Ok(code_points) && {
            &&& all_scalar_values(code_points)
            &&& encode_utf16(code_points) == Ok::<Seq<u16>, CodecError>(units)
        },
    decreases units.len(),
{
    if units.len() > 0 {
        lemma_encode_of_decoded_first(units);
        let (code_point, width) = decode_first(units)->Ok_0;
        let rest = units.skip(width);
        theorem_utf16_decode_inverts(rest);
        let tail = decode_utf16(rest)->Ok_0;
        let code_points = seq![code_point] + tail;
        assert(code_points.skip(1) =~= tail);
        assert(units.take(width) + rest =~= units);
        assert forall|i: int| 0 <= i < code_points.len() implies spec_is_scalar_value(
            #[trigger] code_points[i],
        ) by {
            if i > 0 {
                assert(code_points[i] == tail[i - 1]);
            }
        }
    } else {
        assert(units =~= Seq::<u16>::empty());
    }
}

/// A sequence that holds a surrogate, or a value above `0x10FFFF`, at any
/// index is refused with `InvalidCodePoint`.
pub proof fn theorem_utf16_encode_rejects(code_points: Seq<u32>, i: int)
    requires
        0 <= i < code_points.len(),
        spec_is_surrogate(code_points[i]) || code_points[i] > MAX_CODE_POINT,
    ensures
        encode_utf16(code_points) == Err::<Seq<u16>, CodecError>(CodecError::InvalidCodePoint),
{
    theorem_utf16_encode_defined(code_points);
    assert(!spec_is_scalar_value(code_points[i]));
}

/// Encoding goes element by element: the encoding of `a + b` is the
/// encoding of `a` followed by that of `b`, and fails as `a` does or, where
/// `a` has an encoding, as `b` does.
pub proof fn theorem_utf16_encode_concat(a: Seq<u32>, b: Seq<u32>)
    ensures
        encode_utf16(a + b) == (match encode_utf16(a) {
            Err(e) => Err::<Seq<u16>, CodecError>(e),
            Ok(x) => match encode_utf16(b) {
                Err(e) => Err::<Seq<u16>, CodecError>(e),
                Ok(y) => Ok::<Seq<u16>, CodecError>(x + y),
            },
        }),
    decreases a.len(),
{
    if a.len() == 0 {
        assert(a + b =~= b);
        if encode_utf16(b) is Ok {
            assert(Seq::<u16>::empty() + encode_utf16(b)->Ok_0 =~= encode_utf16(b)->Ok_0);
        }
    } else {
        assert((a + b)[0] == a[0]);
        assert((a + b).skip(1) =~= a.skip(1) + b);
        theorem_utf16_encode_concat(a.skip(1), b);
        if encode_utf16(a) is Ok && encode_utf16(b) is Ok {
            let head = encode_one(a[0])->Ok_0;
            let x = encode_utf16(a.skip(1))->Ok_0;
            let y = encode_utf16(b)->Ok_0;
            assert(head + (x + y) =~= (head + x) + y);
        }
    }
}

/// Decoding goes symbol by symbol: behind a sequence `a` that decodes, `b`
/// is decoded as it is alone, and `a + b` gives the code points of `a`
/// followed by those of `b`, or fails as `b` does.
pub proof fn theorem_utf16_decode_concat(a: Seq<u16>, b: Seq<u16>)
    requires
        decode_utf16(a) is Ok,
    ensures
        decode_utf16(a + b) == (match decode_utf16(b) {
            Err(e) => Err::<Seq<u32>, CodecError>(e),
            Ok(y) => Ok::<Seq<u32>, CodecError>(decode_utf16(a)->Ok_0 + y),
        }),
    decreases a.len(),
{
    if a.len() == 0 {
        assert(a + b =~= b);
        if decode_utf16(b) is Ok {
            assert(Seq::<u32>::empty() + decode_utf16(b)->Ok_0 =~= decode_utf16(b)->Ok_0);
        }
    } else {
        let all = a + b;
        assert(forall|k: int| 0 <= k < a.len() ==> all[k] == a[k]);
        assert(decode_first(all) == decode_first(a));
        let (code_point, width) = decode_first(a)->Ok_0;
        assert(all.skip(width) =~= a.skip(width) + b);
        theorem_utf16_decode_concat(a.skip(width), b);
        if decode_utf16(b) is Ok {
            let x = decode_utf16(a.skip(width))->Ok_0;
            let y = decode_utf16(b)->Ok_0;
            assert(seq![code_point] + (x + y) =~= (seq![code_point] + x) + y);
        }
    }
}

/// A surrogate where a symbol starts, that is at the start of the input or
/// behind any sequence that decodes, makes decoding fail unless it is a
/// high surrogate with a low surrogate behind it. A low surrogate fails
/// with `InvalidCodePoint`; a high surrogate fails with `TruncatedSequence`
/// at the end of the input and with `InvalidContinuation` before a unit
/// that is no low surrogate.
pub proof fn theorem_utf16_decode_rejects_surrogate(before: Seq<u16>, rest: Seq<u16>)
    requires
        decode_utf16(before) is Ok,
        rest.len() > 0,
        spec_is_surrogate(rest[0] as u32),
    ensures
        spec_is_low_surrogate(rest[0]) ==> decode_utf16(before + rest) == Err::<
            Seq<u32>,
            CodecError,
        >(CodecError::InvalidCodePoint),
        spec_is_high_surrogate(rest[0]) && rest.len() == 1 ==> decode_utf16(before + rest) == Err::<
            Seq<u32>,
            CodecError,
        >(CodecError::TruncatedSequence),
        spec_is_high_surrogate(rest[0]) && rest.len() > 1 && !spec_is_low_surrogate(rest[1])
            ==> decode_utf16(before + rest) == Err::<Seq<u32>, CodecError>(
            CodecError::InvalidContinuation,
        ),
{
    theorem_utf16_decode_concat(before, rest);
}

} // verus!
