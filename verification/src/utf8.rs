//! UTF-8: one to four bytes per code point.
//!
//! | code point            | bytes                                  |
//! |-----------------------|----------------------------------------|
//! | `0x0000..=0x007F`     | `0xxxxxxx`                             |
//! | `0x0080..=0x07FF`     | `110xxxxx 10xxxxxx`                    |
//! | `0x0800..=0xFFFF`     | `1110xxxx 10xxxxxx 10xxxxxx`           |
//! | `0x10000..=0x10FFFF`  | `11110xxx 10xxxxxx 10xxxxxx 10xxxxxx`  |
//!
//! The bits of the code point fill the `x` positions, most significant
//! first. Surrogates (`0xD800..=0xDFFF`) have no encoding, and a decoder
//! accepts a value only in its shortest form.

use vstd::prelude::*;
use crate::error::CodecError;
use crate::unicode::{
    all_scalar_values, check_code_point, spec_is_scalar_value, spec_is_surrogate, MAX_CODE_POINT,
};

verus! {

// ---------------------------------------------------------------------------
// Model: one symbol
// ---------------------------------------------------------------------------

/// The number of bytes of the symbol that `lead` starts, read from its high
/// bits; 0 where `lead` cannot start a symbol (`10xxxxxx`, `11111xxx`).
pub open spec fn symbol_width(lead: u8) -> int {
    if lead & 0x80 == 0x00 {
        1
    } else if lead & 0xE0 == 0xC0 {
        2
    } else if lead & 0xF0 == 0xE0 {
        3
    } else if lead & 0xF8 == 0xF0 {
        4
    } else {
        0
    }
}

/// `byte` has the form `10xxxxxx`.
pub open spec fn is_continuation(byte: u8) -> bool {
    byte & 0xC0 == 0x80
}

/// The six payload bits of a continuation byte.
pub open spec fn payload(byte: u8) -> u32 {
    (byte & 0x3F) as u32
}

/// What reading a continuation byte at index `k` of `bytes` gives: its
/// payload, or the reason why there is none.
pub open spec fn continuation_at(bytes: Seq<u8>, k: int) -> Result<u32, CodecError> {
    if k >= bytes.len() {
        Err(CodecError::TruncatedSequence)
    } else if !is_continuation(bytes[k]) {
        Err(CodecError::InvalidContinuation)
    } else {
        Ok(payload(bytes[k]))
    }
}

/// The first fault among the continuation bytes of a symbol of `width`
/// bytes that starts at index 0 of `bytes`, if there is one. The bytes are
/// looked at in order, so a malformed byte is reported before a missing
/// later one.
pub open spec fn tail_error(bytes: Seq<u8>, width: int) -> Option<CodecError> {
    if width >= 2 && continuation_at(bytes, 1) is Err {
        Some(continuation_at(bytes, 1)->Err_0)
    } else if width >= 3 && continuation_at(bytes, 2) is Err {
        Some(continuation_at(bytes, 2)->Err_0)
    } else if width >= 4 && continuation_at(bytes, 3) is Err {
        Some(continuation_at(bytes, 3)->Err_0)
    } else {
        None
    }
}

/// The value of a two-byte symbol: five bits of the leading byte, then the
/// payload of the continuation byte.
pub open spec fn join_two(b0: u8, b1: u8) -> u32 {
    (((b0 & 0x1F) as u32) << 6) | payload(b1)
}

/// The value of a three-byte symbol: four bits of the leading byte, then
/// the payloads of the two continuation bytes.
pub open spec fn join_three(b0: u8, b1: u8, b2: u8) -> u32 {
    (((b0 & 0x0F) as u32) << 12) | (payload(b1) << 6) | payload(b2)
}

/// The value of a four-byte symbol: three bits of the leading byte, then
/// the payloads of the three continuation bytes.
pub open spec fn join_four(b0: u8, b1: u8, b2: u8, b3: u8) -> u32 {
    (((b0 & 0x07) as u32) << 18) | (payload(b1) << 12) | (payload(b2) << 6) | payload(b3)
}

/// The value that the first `width` bytes of `bytes` carry: the low bits of
/// the leading byte followed by six bits of each continuation byte.
pub open spec fn assemble(bytes: Seq<u8>, width: int) -> u32 {
    if width == 2 {
        join_two(bytes[0], bytes[1])
    } else if width == 3 {
        join_three(bytes[0], bytes[1], bytes[2])
    } else if width == 4 {
        join_four(bytes[0], bytes[1], bytes[2], bytes[3])
    } else {
        bytes[0] as u32
    }
}

/// The least code point whose shortest encoding has `width` bytes.
pub open spec fn least_of_width(width: int) -> u32 {
    if width == 2 {
        0x80
    } else if width == 3 {
        0x800
    } else if width == 4 {
        0x10000
    } else {
        0
    }
}

/// Why a value read from a symbol of `width` bytes is refused, if it is:
/// it fits in fewer bytes, or it is no scalar value.
pub open spec fn value_error(code_point: u32, width: int) -> Option<CodecError> {
    if code_point < least_of_width(width) {
        Some(CodecError::OverlongEncoding)
    } else if spec_is_surrogate(code_point) || code_point > MAX_CODE_POINT {
        Some(CodecError::InvalidCodePoint)
    } else {
        None
    }
}

/// Decodes the symbol at the start of `bytes`: the code point and the number
/// of bytes it takes, or the first fault found.
pub open spec fn decode_first(bytes: Seq<u8>) -> Result<(u32, int), CodecError>
    recommends
        bytes.len() > 0,
{
    let width = symbol_width(bytes[0]);
    if width == 0 {
        Err(CodecError::InvalidContinuation)
    } else if tail_error(bytes, width) is Some {
        Err(tail_error(bytes, width)->Some_0)
    } else if value_error(assemble(bytes, width), width) is Some {
        Err(value_error(assemble(bytes, width), width)->Some_0)
    } else {
        Ok((assemble(bytes, width), width))
    }
}

/// The continuation byte that carries the six bits of `code_point` from bit
/// `shift` upwards.
pub open spec fn continuation(code_point: u32, shift: u32) -> u8 {
    (((code_point >> shift) & 0x3F) | 0x80) as u8
}

/// The leading byte of a two-byte symbol: `110` and bits 6 to 10.
pub open spec fn lead_of_two(code_point: u32) -> u8 {
    (((code_point >> 6) & 0x1F) | 0xC0) as u8
}

/// The leading byte of a three-byte symbol: `1110` and bits 12 to 15.
pub open spec fn lead_of_three(code_point: u32) -> u8 {
    (((code_point >> 12) & 0x0F) | 0xE0) as u8
}

/// The leading byte of a four-byte symbol: `11110` and bits 18 to 20.
pub open spec fn lead_of_four(code_point: u32) -> u8 {
    (((code_point >> 18) & 0x07) | 0xF0) as u8
}

/// The number of bytes that the encoding of a scalar value takes.
pub open spec fn encoded_width(code_point: u32) -> int {
    if code_point < 0x80 {
        1
    } else if code_point < 0x800 {
        2
    } else if code_point < 0x10000 {
        3
    } else {
        4
    }
}

/// The bytes of one code point, or `InvalidCodePoint` for a surrogate or a
/// value above `0x10FFFF`.
pub open spec fn encode_one(code_point: u32) -> Result<Seq<u8>, CodecError> {
    if code_point < 0x80 {
        Ok(seq![code_point as u8])
    } else if code_point < 0x800 {
        Ok(seq![lead_of_two(code_point), continuation(code_point, 0)])
    } else if code_point < 0x10000 {
        if spec_is_surrogate(code_point) {
            Err(CodecError::InvalidCodePoint)
        } else {
            Ok(
                seq![
                    lead_of_three(code_point),
                    continuation(code_point, 6),
                    continuation(code_point, 0),
                ],
            )
        }
    } else if code_point <= MAX_CODE_POINT {
        Ok(
            seq![
                lead_of_four(code_point),
                continuation(code_point, 12),
                continuation(code_point, 6),
                continuation(code_point, 0),
            ],
        )
    } else {
        Err(CodecError::InvalidCodePoint)
    }
}

// ---------------------------------------------------------------------------
// Model: whole sequences
// ---------------------------------------------------------------------------

/// The UTF-8 encoding of a sequence of code points: the encodings of its
/// elements one after the other, or the failure of the first element that
/// has none.
pub open spec fn encode_utf8(code_points: Seq<u32>) -> Result<Seq<u8>, CodecError>
    decreases code_points.len(),
{
    if code_points.len() == 0 {
        Ok(Seq::empty())
    } else {
        match encode_one(code_points[0]) {
            Err(e) => Err(e),
            Ok(head) => match encode_utf8(code_points.skip(1)) {
                Err(e) => Err(e),
                Ok(tail) => Ok(head + tail),
            },
        }
    }
}

/// The code points that a byte sequence holds, symbol after symbol from the
/// left, or the failure of the first symbol that is malformed.
pub open spec fn decode_utf8(bytes: Seq<u8>) -> Result<Seq<u32>, CodecError>
    decreases bytes.len(),
{
    if bytes.len() == 0 {
        Ok(Seq::empty())
    } else {
        match decode_first(bytes) {
            Err(e) => Err(e),
            Ok((code_point, width)) => match decode_utf8(bytes.skip(width)) {
                Err(e) => Err(e),
                Ok(tail) => Ok(seq![code_point] + tail),
            },
        }
    }
}

// ---------------------------------------------------------------------------
// Decoding one symbol
// ---------------------------------------------------------------------------

/// Reads the continuation byte at index `i` and returns its six payload
/// bits.
fn read_next_byte(bytes: &[u8], i: usize) -> (res: Result<u32, CodecError>)
    ensures
        res == continuation_at(bytes@, i as int),
{
    if i >= bytes.len() {
        return Err(CodecError::TruncatedSequence);
    }
    let byte: u8 = bytes[i];
    if (byte & 0xC0) == 0x80 {
        Ok((byte & 0x3F) as u32)
    } else {
        Err(CodecError::InvalidContinuation)
    }
}

/// Decodes the symbol that starts at index `i` of `bytes`.
///
/// Returns the code point and the number of bytes consumed (1 to 4), or the
/// first fault of the symbol: a byte that cannot start a symbol, a missing
/// or malformed continuation byte, an overlong form, a surrogate, or a value
/// above `0x10FFFF`.
fn decode_symbol(bytes: &[u8], i: usize) -> (res: Result<(u32, usize), CodecError>)
    requires
        i < bytes.len(),
    ensures
        match res {
            Ok((code_point, n)) => {
                &&& decode_first(bytes@.skip(i as int)) == Ok::<(u32, int), CodecError>(
                    (code_point, n as int),
                )
                &&& 1 <= n <= 4
                &&& i + n <= bytes.len()
            },
            Err(e) => decode_first(bytes@.skip(i as int)) == Err::<(u32, int), CodecError>(e),
        },
{
    let ghost rest: Seq<u8> = bytes@.skip(i as int);
    assert(rest.len() == bytes.len() - i);
    assert(rest[0] == bytes@[i as int]);
    assert(forall|k: int| 0 <= k ==> continuation_at(rest, k) == continuation_at(bytes@, i + k));

    let lead: u8 = bytes[i];
    if (lead & 0x80) == 0x00 {
        return Ok((lead as u32, 1));
    }
    if (lead & 0xE0) == 0xC0 {
        let c1: u32 = match read_next_byte(bytes, i + 1) {
            Ok(c) => c,
            Err(e) => { return Err(e); },
        };
        let code_point: u32 = (((lead & 0x1F) as u32) << 6) | c1;
        proof {
            let b1: u8 = bytes@[i + 1];
            assert(((((lead & 0x1F) as u32) << 6) | ((b1 & 0x3F) as u32)) <= 0x7FF)
                by (bit_vector);
        }
        if code_point < 0x80 {
            return Err(CodecError::OverlongEncoding);
        }
        return Ok((code_point, 2));
    }
    if (lead & 0xF0) == 0xE0 {
        let c1: u32 = match read_next_byte(bytes, i + 1) {
            Ok(c) => c,
            Err(e) => { return Err(e); },
        };
        let c2: u32 = match read_next_byte(bytes, i + 2) {
            Ok(c) => c,
            Err(e) => { return Err(e); },
        };
        let code_point: u32 = (((lead & 0x0F) as u32) << 12) | (c1 << 6) | c2;
        proof {
            let b1: u8 = bytes@[i + 1];
            let b2: u8 = bytes@[i + 2];
            assert(((((lead & 0x0F) as u32) << 12) | (((b1 & 0x3F) as u32) << 6) | ((b2 & 0x3F) as u32))
                <= 0xFFFF) by (bit_vector);
        }
        if code_point < 0x800 {
            return Err(CodecError::OverlongEncoding);
        }
        match check_code_point(code_point) {
            Ok(()) => {},
            Err(e) => { return Err(e); },
        }
        return Ok((code_point, 3));
    }
    if (lead & 0xF8) == 0xF0 {
        let c1: u32 = match read_next_byte(bytes, i + 1) {
            Ok(c) => c,
            Err(e) => { return Err(e); },
        };
        let c2: u32 = match read_next_byte(bytes, i + 2) {
            Ok(c) => c,
            Err(e) => { return Err(e); },
        };
        let c3: u32 = match read_next_byte(bytes, i + 3) {
            Ok(c) => c,
            Err(e) => { return Err(e); },
        };
        let code_point: u32 = (((lead & 0x07) as u32) << 18) | (c1 << 12) | (c2 << 6) | c3;
        if code_point < 0x10000 {
            return Err(CodecError::OverlongEncoding);
        }
        if code_point > MAX_CODE_POINT {
            return Err(CodecError::InvalidCodePoint);
        }
        return Ok((code_point, 4));
    }
    Err(CodecError::InvalidContinuation)
}

// ---------------------------------------------------------------------------
// Encoding one code point
// ---------------------------------------------------------------------------

/// Builds the continuation byte that carries the six bits of `code_point`
/// from bit `shift` upwards: `10` and `(code_point >> shift) & 0x3F`.
fn continuation_byte(code_point: u32, shift: u32) -> (byte: u8)
    requires
        shift < 32,
    ensures
        byte == continuation(code_point, shift),
{
    (((code_point >> shift) & 0x3F) | 0x80) as u8
}

/// Encodes one code point into its one to four bytes.
fn encode_code_point(code_point: u32) -> (res: Result<Vec<u8>, CodecError>)
    ensures
        match res {
            Ok(bytes) => encode_one(code_point) == Ok::<Seq<u8>, CodecError>(bytes@),
            Err(e) => encode_one(code_point) == Err::<Seq<u8>, CodecError>(e),
        },
{
    let mut bytes: Vec<u8> = Vec::new();
    if code_point < 0x80 {
        bytes.push(code_point as u8);
    } else if code_point < 0x800 {
        bytes.push((((code_point >> 6) & 0x1F) | 0xC0) as u8);
        bytes.push(continuation_byte(code_point, 0));
    } else if code_point < 0x10000 {
        match check_code_point(code_point) {
            Ok(()) => {},
            Err(e) => { return Err(e); },
        }
        bytes.push((((code_point >> 12) & 0x0F) | 0xE0) as u8);
        bytes.push(continuation_byte(code_point, 6));
        bytes.push(continuation_byte(code_point, 0));
    } else if code_point <= MAX_CODE_POINT {
        bytes.push((((code_point >> 18) & 0x07) | 0xF0) as u8);
        bytes.push(continuation_byte(code_point, 12));
        bytes.push(continuation_byte(code_point, 6));
        bytes.push(continuation_byte(code_point, 0));
    } else {
        return Err(CodecError::InvalidCodePoint);
    }
    assert(bytes@ =~= encode_one(code_point)->Ok_0);
    Ok(bytes)
}

// ---------------------------------------------------------------------------
// Whole sequences
// ---------------------------------------------------------------------------

/// Encodes a sequence of code points into UTF-8.
///
/// Fails with `InvalidCodePoint` if an element is a surrogate or lies above
/// `0x10FFFF`; otherwise returns the encodings of the elements in order,
/// which decode to `code_points` again.
pub fn encode_in_utf8(code_points: &[u32]) -> (res: Result<Vec<u8>, CodecError>)
    ensures
        match res {
            Ok(bytes) => encode_utf8(code_points@) == Ok::<Seq<u8>, CodecError>(bytes@),
            Err(e) => encode_utf8(code_points@) == Err::<Seq<u8>, CodecError>(e),
        },
        res is Ok <==> all_scalar_values(code_points@),
        res is Err ==> res->Err_0 == CodecError::InvalidCodePoint,
        res matches Ok(bytes) ==> decode_utf8(bytes@) == Ok::<Seq<u32>, CodecError>(
            code_points@,
        ),
{
    proof {
        theorem_utf8_encode_defined(code_points@);
        if all_scalar_values(code_points@) {
            theorem_utf8_round_trip(code_points@);
        }
    }
    let mut out: Vec<u8> = Vec::new();
    let mut i: usize = 0;
    proof {
        assert(code_points@.skip(0) =~= code_points@);
        assert forall|tail: Seq<u8>| out@ + tail == tail by {
            assert(out@ + tail =~= tail);
        }
    }
    while i < code_points.len()
        invariant
            i <= code_points.len(),
            encode_utf8(code_points@) == (match encode_utf8(code_points@.skip(i as int)) {
                Ok(tail) => Ok::<Seq<u8>, CodecError>(out@ + tail),
                Err(e) => Err::<Seq<u8>, CodecError>(e),
            }),
        decreases code_points.len() - i,
    {
        let ghost rest: Seq<u32> = code_points@.skip(i as int);
        assert(rest.len() > 0 && rest[0] == code_points@[i as int]);
        assert(rest.skip(1) =~= code_points@.skip(i + 1));
        match encode_code_point(code_points[i]) {
            Err(e) => { return Err(e); },
            Ok(mut symbol) => {
                proof {
                    let done: Seq<u8> = out@;
                    assert forall|tail: Seq<u8>| (done + symbol@) + tail == done + (symbol@ + tail) by {
                        assert((done + symbol@) + tail =~= done + (symbol@ + tail));
                    }
                }
                out.append(&mut symbol);
            },
        }
        i += 1;
    }
    assert(code_points@.skip(i as int).len() == 0);
    assert(out@ + Seq::<u8>::empty() =~= out@);
    Ok(out)
}

/// Decodes a UTF-8 byte sequence into its code points.
///
/// Fails at the first malformed symbol, with `TruncatedSequence` where the
/// input ends inside a symbol, `InvalidContinuation` where a continuation
/// byte is not of the form `10xxxxxx` or a byte cannot start a symbol,
/// `OverlongEncoding` where a value is not in its shortest form, and
/// `InvalidCodePoint` for a surrogate or a value above `0x10FFFF`. What is
/// returned on success are scalar values whose encoding is `bytes`.
pub fn decode_from_utf8(bytes: &[u8]) -> (res: Result<Vec<u32>, CodecError>)
    ensures
        match res {
            Ok(code_points) => decode_utf8(bytes@) == Ok::<Seq<u32>, CodecError>(code_points@),
            Err(e) => decode_utf8(bytes@) == Err::<Seq<u32>, CodecError>(e),
        },
        res matches Ok(code_points) ==> {
            &&& all_scalar_values(code_points@)
            &&& encode_utf8(code_points@) == Ok::<Seq<u8>, CodecError>(bytes@)
        },
{
    proof {
        if decode_utf8(bytes@) is Ok {
            theorem_utf8_decode_inverts(bytes@);
        }
    }
    let mut out: Vec<u32> = Vec::new();
    let mut i: usize = 0;
    proof {
        assert(bytes@.skip(0) =~= bytes@);
        assert forall|tail: Seq<u32>| out@ + tail == tail by {
            assert(out@ + tail =~= tail);
        }
    }
    while i < bytes.len()
        invariant
            i <= bytes.len(),
            decode_utf8(bytes@) == (match decode_utf8(bytes@.skip(i as int)) {
                Ok(tail) => Ok::<Seq<u32>, CodecError>(out@ + tail),
                Err(e) => Err::<Seq<u32>, CodecError>(e),
            }),
        decreases bytes.len() - i,
    {
        let ghost rest: Seq<u8> = bytes@.skip(i as int);
        assert(rest.len() > 0);
        match decode_symbol(bytes, i) {
            Err(e) => { return Err(e); },
            Ok((code_point, n)) => {
                proof {
                    let done: Seq<u32> = out@;
                    assert(rest.skip(n as int) =~= bytes@.skip(i + n));
                    assert forall|tail: Seq<u32>|
                        done.push(code_point) + tail == done + (seq![code_point] + tail) by {
                        assert(done.push(code_point) + tail =~= done + (seq![code_point] + tail));
                    }
                }
                out.push(code_point);
                i += n;
            },
        }
    }
    assert(bytes@.skip(i as int).len() == 0);
    assert(out@ + Seq::<u32>::empty() =~= out@);
    Ok(out)
}

// ---------------------------------------------------------------------------
// Theorems
// ---------------------------------------------------------------------------

proof fn lemma_bits_one(code_point: u32)
    by (bit_vector)
    requires
        code_point < 0x80,
    ensures
        symbol_width(code_point as u8) == 1,
        (code_point as u8) as u32 == code_point,
{
}

proof fn lemma_bits_two(code_point: u32)
    by (bit_vector)
    requires
        0x80 <= code_point < 0x800,
    ensures
        symbol_width(lead_of_two(code_point)) == 2,
        is_continuation(continuation(code_point, 0)),
        join_two(lead_of_two(code_point), continuation(code_point, 0)) == code_point,
{
}

proof fn lemma_bits_three(code_point: u32)
    by (bit_vector)
    requires
        0x800 <= code_point < 0x10000,
    ensures
        symbol_width(lead_of_three(code_point)) == 3,
        is_continuation(continuation(code_point, 6)),
        is_continuation(continuation(code_point, 0)),
        join_three(
            lead_of_three(code_point),
            continuation(code_point, 6),
            continuation(code_point, 0),
        ) == code_point,
{
}

proof fn lemma_bits_four(code_point: u32)
    by (bit_vector)
    requires
        0x10000 <= code_point <= 0x10FFFF,
    ensures
        symbol_width(lead_of_four(code_point)) == 4,
        is_continuation(continuation(code_point, 12)),
        is_continuation(continuation(code_point, 6)),
        is_continuation(continuation(code_point, 0)),
        join_four(
            lead_of_four(code_point),
            continuation(code_point, 12),
            continuation(code_point, 6),
            continuation(code_point, 0),
        ) == code_point,
{
}

proof fn lemma_bytes_one(b0: u8)
    by (bit_vector)
    requires
        symbol_width(b0) == 1,
    ensures
        (b0 as u32) < 0x80,
        (b0 as u32) as u8 == b0,
{
}

proof fn lemma_bytes_two(b0: u8, b1: u8)
    by (bit_vector)
    requires
        symbol_width(b0) == 2,
        is_continuation(b1),
    ensures
        join_two(b0, b1) < 0x800,
        lead_of_two(join_two(b0, b1)) == b0,
        continuation(join_two(b0, b1), 0) == b1,
{
}

proof fn lemma_bytes_three(b0: u8, b1: u8, b2: u8)
    by (bit_vector)
    requires
        symbol_width(b0) == 3,
        is_continuation(b1),
        is_continuation(b2),
    ensures
        join_three(b0, b1, b2) < 0x10000,
        lead_of_three(join_three(b0, b1, b2)) == b0,
        continuation(join_three(b0, b1, b2), 6) == b1,
        continuation(join_three(b0, b1, b2), 0) == b2,
{
}

proof fn lemma_bytes_four(b0: u8, b1: u8, b2: u8, b3: u8)
    by (bit_vector)
    requires
        symbol_width(b0) == 4,
        is_continuation(b1),
        is_continuation(b2),
        is_continuation(b3),
    ensures
        lead_of_four(join_four(b0, b1, b2, b3)) == b0,
        continuation(join_four(b0, b1, b2, b3), 12) == b1,
        continuation(join_four(b0, b1, b2, b3), 6) == b2,
        continuation(join_four(b0, b1, b2, b3), 0) == b3,
{
}

/// A code point has an encoding exactly if it is a scalar value; the
/// encoding then takes one byte below `0x80`, two below `0x800`, three
/// below `0x10000` and four from there on, and no other failure than
/// `InvalidCodePoint` occurs.
pub proof fn lemma_encode_one_width(code_point: u32)
    ensures
        encode_one(code_point) is Ok <==> spec_is_scalar_value(code_point),
        encode_one(code_point) is Err ==> encode_one(code_point)->Err_0
            == CodecError::InvalidCodePoint,
        encode_one(code_point) matches Ok(bytes) ==> {
            &&& bytes.len() == encoded_width(code_point)
            &&& (bytes.len() == 1 <==> code_point < 0x80)
            &&& (bytes.len() == 2 <==> 0x80 <= code_point < 0x800)
            &&& (bytes.len() == 3 <==> 0x800 <= code_point < 0x10000)
            &&& (bytes.len() == 4 <==> 0x10000 <= code_point <= 0x10FFFF)
        },
{
}

/// Decoding the bytes of a scalar value, whatever follows them, gives the
/// scalar value back and consumes exactly its bytes.
pub proof fn lemma_decode_first_of_encoded(code_point: u32, tail: Seq<u8>)
    requires
        spec_is_scalar_value(code_point),
    ensures
        encode_one(code_point) matches Ok(bytes) && decode_first(bytes + tail) == Ok::<
            (u32, int),
            CodecError,
        >((code_point, bytes.len() as int)),
{
    let bytes = encode_one(code_point)->Ok_0;
    let all = bytes + tail;
    assert(forall|k: int| 0 <= k < bytes.len() ==> all[k] == bytes[k]);
    if code_point < 0x80 {
        lemma_bits_one(code_point);
    } else if code_point < 0x800 {
        lemma_bits_two(code_point);
    } else if code_point < 0x10000 {
        lemma_bits_three(code_point);
    } else {
        lemma_bits_four(code_point);
    }
}

/// A symbol that decodes is the encoding of the code point it gives: the
/// decoder accepts nothing but the one encoding of a scalar value.
pub proof fn lemma_encode_of_decoded_first(bytes: Seq<u8>)
    requires
        bytes.len() > 0,
        decode_first(bytes) is Ok,
    ensures
        decode_first(bytes) matches Ok((code_point, width)) && {
            &&& 1 <= width <= 4
            &&& width <= bytes.len()
            &&& spec_is_scalar_value(code_point)
            &&& encode_one(code_point) == Ok::<Seq<u8>, CodecError>(bytes.take(width))
        },
{
    let width = symbol_width(bytes[0]);
    let code_point = assemble(bytes, width);
    let head = bytes.take(width);
    if width == 1 {
        lemma_bytes_one(bytes[0]);
        assert(head =~= seq![code_point as u8]);
    } else if width == 2 {
        lemma_bytes_two(bytes[0], bytes[1]);
        assert(head =~= seq![bytes[0], bytes[1]]);
    } else if width == 3 {
        lemma_bytes_three(bytes[0], bytes[1], bytes[2]);
        assert(head =~= seq![bytes[0], bytes[1], bytes[2]]);
    } else {
        lemma_bytes_four(bytes[0], bytes[1], bytes[2], bytes[3]);
        assert(head =~= seq![bytes[0], bytes[1], bytes[2], bytes[3]]);
    }
}

/// A sequence has an encoding exactly if all its elements are scalar
/// values, and encoding fails in no other way than `InvalidCodePoint`. In
/// particular a sequence that holds a surrogate anywhere is refused with
/// `InvalidCodePoint`.
pub proof fn theorem_utf8_encode_defined(code_points: Seq<u32>)
    ensures
        encode_utf8(code_points) is Ok <==> all_scalar_values(code_points),
        encode_utf8(code_points) is Err ==> encode_utf8(code_points) == Err::<
            Seq<u8>,
            CodecError,
        >(CodecError::InvalidCodePoint),
    decreases code_points.len(),
{
    if code_points.len() > 0 {
        let rest = code_points.skip(1);
        lemma_encode_one_width(code_points[0]);
        theorem_utf8_encode_defined(rest);
        assert(forall|i: int| 0 <= i < rest.len() ==> rest[i] == code_points[i + 1]);
        if all_scalar_values(rest) && spec_is_scalar_value(code_points[0]) {
            assert forall|i: int| 0 <= i < code_points.len() implies spec_is_scalar_value(
                #[trigger] code_points[i],
            ) by {
                if i > 0 {
                    assert(code_points[i] == rest[i - 1]);
                }
            }
        }
    }
}

/// The encoding of a single scalar value takes one byte exactly if the
/// value is below `0x80`, two exactly if it is in `0x80..0x800`, three
/// exactly if it is in `0x800..0x10000`, and four exactly if it is above.
pub proof fn theorem_utf8_length(code_point: u32)
    requires
        spec_is_scalar_value(code_point),
    ensures
        encode_utf8(seq![code_point]) matches Ok(bytes) && {
            &&& (bytes.len() == 1 <==> code_point < 0x80)
            &&& (bytes.len() == 2 <==> 0x80 <= code_point < 0x800)
            &&& (bytes.len() == 3 <==> 0x800 <= code_point < 0x10000)
            &&& (bytes.len() == 4 <==> 0x10000 <= code_point <= 0x10FFFF)
        },
{
    let single = seq![code_point];
    lemma_encode_one_width(code_point);
    assert(encode_utf8(single.skip(1)) == Ok::<Seq<u8>, CodecError>(Seq::empty()));
    assert(encode_one(code_point)->Ok_0 + Seq::<u8>::empty() =~= encode_one(code_point)->Ok_0);
}

/// Decoding the encoding of a sequence of scalar values gives the sequence
/// back.
pub proof fn theorem_utf8_round_trip(code_points: Seq<u32>)
    requires
        all_scalar_values(code_points),
    ensures
        encode_utf8(code_points) matches Ok(bytes) && decode_utf8(bytes) == Ok::<
            Seq<u32>,
            CodecError,
        >(code_points),
    decreases code_points.len(),
{
    theorem_utf8_encode_defined(code_points);
    if code_points.len() > 0 {
        let rest = code_points.skip(1);
        assert(forall|i: int| 0 <= i < rest.len() ==> rest[i] == code_points[i + 1]);
        theorem_utf8_round_trip(rest);
        let head = encode_one(code_points[0])->Ok_0;
        let tail = encode_utf8(rest)->Ok_0;
        lemma_encode_one_width(code_points[0]);
        lemma_decode_first_of_encoded(code_points[0], tail);
        assert((head + tail).skip(head.len() as int) =~= tail);
        assert(seq![code_points[0]] + rest =~= code_points);
    } else {
        assert(code_points =~= Seq::<u32>::empty());
    }
}

/// Whatever decodes is the encoding of what it decodes to: the decoded code
/// points are scalar values, and encoding them gives the input back. So no
/// two byte sequences decode to the same code points.
pub proof fn theorem_utf8_decode_inverts(bytes: Seq<u8>)
    requires
        decode_utf8(bytes) is Ok,
    ensures
        decode_utf8(bytes) matches Ok(code_points) && {
            &&& all_scalar_values(code_points)
            &&& encode_utf8(code_points) == Ok::<Seq<u8>, CodecError>(bytes)
        },
    decreases bytes.len(),
{
    if bytes.len() > 0 {
        lemma_encode_of_decoded_first(bytes);
        let (code_point, width) = decode_first(bytes)->Ok_0;
        let rest = bytes.skip(width);
        theorem_utf8_decode_inverts(rest);
        let tail = decode_utf8(rest)->Ok_0;
        let code_points = seq![code_point] + tail;
        assert(code_points.skip(1) =~= tail);
        assert(bytes.take(width) + rest =~= bytes);
        assert forall|i: int| 0 <= i < code_points.len() implies spec_is_scalar_value(
            #[trigger] code_points[i],
        ) by {
            if i > 0 {
                assert(code_points[i] == tail[i - 1]);
            }
        }
    } else {
        assert(bytes =~= Seq::<u8>::empty());
    }
}

/// A sequence that holds a surrogate, or a value above `0x10FFFF`, at any
/// index is refused with `InvalidCodePoint`.
pub proof fn theorem_utf8_encode_rejects(code_points: Seq<u32>, i: int)
    requires
        0 <= i < code_points.len(),
        spec_is_surrogate(code_points[i]) || code_points[i] > MAX_CODE_POINT,
    ensures
        encode_utf8(code_points) == Err::<Seq<u8>, CodecError>(CodecError::InvalidCodePoint),
{
    theorem_utf8_encode_defined(code_points);
    assert(!spec_is_scalar_value(code_points[i]));
}

/// Encoding goes element by element: the encoding of `a + b` is the
/// encoding of `a` followed by that of `b`, and fails as `a` does or, where
/// `a` has an encoding, as `b` does.
pub proof fn theorem_utf8_encode_concat(a: Seq<u32>, b: Seq<u32>)
    ensures
        encode_utf8(a + b) == (match encode_utf8(a) {
            Err(e) => Err::<Seq<u8>, CodecError>(e),
            Ok(x) => match encode_utf8(b) {
                Err(e) => Err::<Seq<u8>, CodecError>(e),
                Ok(y) => Ok::<Seq<u8>, CodecError>(x + y),
            },
        }),
    decreases a.len(),
{
    if a.len() == 0 {
        assert(a + b =~= b);
        if encode_utf8(b) is Ok {
            assert(Seq::<u8>::empty() + encode_utf8(b)->Ok_0 =~= encode_utf8(b)->Ok_0);
        }
    } else {
        assert((a + b)[0] == a[0]);
        assert((a + b).skip(1) =~= a.skip(1) + b);
        theorem_utf8_encode_concat(a.skip(1), b);
        if encode_utf8(a) is Ok && encode_utf8(b) is Ok {
            let head = encode_one(a[0])->Ok_0;
            let x = encode_utf8(a.skip(1))->Ok_0;
            let y = encode_utf8(b)->Ok_0;
            assert(head + (x + y) =~= (head + x) + y);
        }
    }
}

/// The first symbol of a sequence that decodes is not changed by what is
/// put behind the sequence.
proof fn lemma_decode_first_extend(a: Seq<u8>, b: Seq<u8>)
    requires
        a.len() > 0,
        decode_first(a) is Ok,
    ensures
        decode_first(a + b) == decode_first(a),
{
    let all = a + b;
    assert(forall|k: int| 0 <= k < a.len() ==> all[k] == a[k]);
}

/// Decoding goes symbol by symbol: behind a sequence `a` that decodes, `b`
/// is decoded as it is alone, and `a + b` gives the code points of `a`
/// followed by those of `b`, or fails as `b` does.
pub proof fn theorem_utf8_decode_concat(a: Seq<u8>, b: Seq<u8>)
    requires
        decode_utf8(a) is Ok,
    ensures
        decode_utf8(a + b) == (match decode_utf8(b) {
            Err(e) => Err::<Seq<u32>, CodecError>(e),
            Ok(y) => Ok::<Seq<u32>, CodecError>(decode_utf8(a)->Ok_0 + y),
        }),
    decreases a.len(),
{
    if a.len() == 0 {
        assert(a + b =~= b);
        if decode_utf8(b) is Ok {
            assert(Seq::<u32>::empty() + decode_utf8(b)->Ok_0 =~= decode_utf8(b)->Ok_0);
        }
    } else {
        lemma_encode_of_decoded_first(a);
        lemma_decode_first_extend(a, b);
        let (code_point, width) = decode_first(a)->Ok_0;
        assert((a + b).skip(width) =~= a.skip(width) + b);
        theorem_utf8_decode_concat(a.skip(width), b);
        if decode_utf8(b) is Ok {
            let x = decode_utf8(a.skip(width))->Ok_0;
            let y = decode_utf8(b)->Ok_0;
            assert(seq![code_point] + (x + y) =~= (seq![code_point] + x) + y);
        }
    }
}

/// The three bytes that would carry a surrogate are refused with
/// `InvalidCodePoint`, wherever a symbol may start with them: behind any
/// sequence that decodes, and whatever follows.
pub proof fn theorem_utf8_decode_rejects_surrogate(
    before: Seq<u8>,
    code_point: u32,
    after: Seq<u8>,
)
    requires
        decode_utf8(before) is Ok,
        spec_is_surrogate(code_point),
    ensures
        decode_utf8(
            before + (seq![
                lead_of_three(code_point),
                continuation(code_point, 6),
                continuation(code_point, 0),
            ] + after),
        ) == Err::<Seq<u32>, CodecError>(CodecError::InvalidCodePoint),
{
    lemma_bits_three(code_point);
    theorem_utf8_decode_concat(
        before,
        seq![lead_of_three(code_point), continuation(code_point, 6), continuation(code_point, 0)]
            + after,
    );
}

proof fn lemma_byte_classes(byte: u8)
    by (bit_vector)
    ensures
        symbol_width(byte) == 1 <==> byte <= 0x7F,
        symbol_width(byte) == 2 <==> 0xC0 <= byte <= 0xDF,
        symbol_width(byte) == 3 <==> 0xE0 <= byte <= 0xEF,
        symbol_width(byte) == 4 <==> 0xF0 <= byte <= 0xF7,
        is_continuation(byte) <==> 0x80 <= byte <= 0xBF,
        byte <= 0x7F ==> (byte & 0x7F) as u32 == byte as u32,
{
}

/// The first symbol is read as `vstd::utf8` reads it.
proof fn lemma_decode_first_agrees_with_vstd(bytes: Seq<u8>)
    requires
        bytes.len() > 0,
    ensures
        decode_first(bytes) is Ok <==> vstd::utf8::valid_first_scalar(bytes),
        decode_first(bytes) matches Ok((code_point, width)) ==> {
            &&& code_point == vstd::utf8::decode_first_scalar(bytes)
            &&& width == vstd::utf8::length_of_first_scalar(bytes)
        },
{
    lemma_byte_classes(bytes[0]);
    let width = symbol_width(bytes[0]);
    if width >= 2 && bytes.len() >= 2 {
        lemma_byte_classes(bytes[1]);
    }
    if width >= 3 && bytes.len() >= 3 {
        lemma_byte_classes(bytes[2]);
    }
    if width >= 4 && bytes.len() >= 4 {
        lemma_byte_classes(bytes[3]);
    }
    if tail_error(bytes, width) is None {
        if width == 2 {
            lemma_bytes_two(bytes[0], bytes[1]);
        } else if width == 3 {
            lemma_bytes_three(bytes[0], bytes[1], bytes[2]);
        }
    }
}

/// The model agrees with the account of UTF-8 in `vstd::utf8`, on which the
/// views of `str` and `String` rest: a byte sequence decodes exactly if it
/// is valid UTF-8 there, and its code points are then the characters that
/// it holds there.
pub proof fn theorem_utf8_agrees_with_vstd(bytes: Seq<u8>)
    ensures
        decode_utf8(bytes) is Ok <==> vstd::utf8::valid_utf8(bytes),
        decode_utf8(bytes) matches Ok(code_points) ==> vstd::utf8::decode_utf8(bytes)
            == code_points.map_values(|code_point: u32| code_point as char),
    decreases bytes.len(),
{
    if bytes.len() > 0 {
        lemma_decode_first_agrees_with_vstd(bytes);
        if decode_first(bytes) is Ok {
            lemma_encode_of_decoded_first(bytes);
            let (code_point, width) = decode_first(bytes)->Ok_0;
            let rest = bytes.skip(width);
            assert(vstd::utf8::pop_first_scalar(bytes) =~= rest);
            theorem_utf8_agrees_with_vstd(rest);
            if decode_utf8(rest) is Ok {
                let tail = decode_utf8(rest)->Ok_0;
                assert((seq![code_point] + tail).map_values(|c: u32| c as char) =~= seq![
                    code_point as char,
                ] + tail.map_values(|c: u32| c as char));
            }
        }
    } else {
        assert(decode_utf8(bytes)->Ok_0.map_values(|c: u32| c as char) =~= Seq::<char>::empty());
    }
}

/// Encoding the characters of a text gives the bytes that `vstd::utf8`
/// gives for it, which are the bytes of a `str` that holds the text.
pub proof fn theorem_utf8_encode_agrees_with_vstd(chars: Seq<char>)
    ensures
        encode_utf8(chars.map_values(|c: char| c as u32)) == Ok::<Seq<u8>, CodecError>(
            vstd::utf8::encode_utf8(chars),
        ),
{
    let bytes = vstd::utf8::encode_utf8(chars);
    vstd::utf8::encode_utf8_valid_utf8(chars);
    vstd::utf8::encode_utf8_decode_utf8(chars);
    theorem_utf8_agrees_with_vstd(bytes);
    theorem_utf8_decode_inverts(bytes);
    let code_points = decode_utf8(bytes)->Ok_0;
    assert(code_points.len() == chars.len());
    assert forall|i: int| 0 <= i < chars.len() implies code_points[i] == chars[i] as u32 by {
        assert(spec_is_scalar_value(code_points[i]));
        assert(code_points.map_values(|c: u32| c as char)[i] == chars[i]);
    }
    assert(code_points =~= chars.map_values(|c: char| c as u32));
}

} // verus!
