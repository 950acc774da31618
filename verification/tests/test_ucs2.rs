use ende::error::CodecError;
use ende::prelude::{decode_from_ucs2, encode_in_ucs2, ucs2_decode, ucs2_encode};
use ende::utf16::{decode_from_utf16, encode_in_utf16};

#[test]
fn test_ucs2_encode_in_ucs2_1() {
    let v: Vec<u32> = vec![0xffee];
    let enc: Vec<u16> = encode_in_ucs2(&v).unwrap();
    assert_eq!(enc, vec![0xffee]);
}

#[test]
fn test_ucs2_decode_from_ucs2_1() {
    let enc: Vec<u16> = vec![0xffee];
    let v: Vec<u32> = decode_from_ucs2(&enc).unwrap();
    assert_eq!(v, vec![0xffee]);
}

#[test]
fn test_ucs2_encode_in_ucs2_2() {
    let v: Vec<u32> = vec![0xffee, 0xffee];
    let enc: Vec<u16> = encode_in_ucs2(&v).unwrap();
    assert_eq!(enc, vec![0xffee, 0xffee]);
}

#[test]
fn test_ucs2_decode_from_ucs2_2() {
    let enc: Vec<u16> = vec![0xffee, 0xffee];
    let v: Vec<u32> = decode_from_ucs2(&enc).unwrap();
    assert_eq!(v, vec![0xffee, 0xffee]);
}

#[test]
fn ucs2_empty_input() {
    assert_eq!(encode_in_ucs2(&[]), Ok(vec![]));
    assert_eq!(decode_from_ucs2(&[]), Ok(vec![]));
}

#[test]
fn ucs2_boundaries_encode() {
    assert_eq!(encode_in_ucs2(&[0x0]), Ok(vec![0x0]));
    assert_eq!(encode_in_ucs2(&[0x7F]), Ok(vec![0x7F]));
    assert_eq!(encode_in_ucs2(&[0x80]), Ok(vec![0x80]));
    assert_eq!(encode_in_ucs2(&[0x7FF]), Ok(vec![0x7FF]));
    assert_eq!(encode_in_ucs2(&[0x800]), Ok(vec![0x800]));
    assert_eq!(encode_in_ucs2(&[0xD7FF]), Ok(vec![0xD7FF]));
    assert_eq!(encode_in_ucs2(&[0xE000]), Ok(vec![0xE000]));
    assert_eq!(encode_in_ucs2(&[0xFFFF]), Ok(vec![0xFFFF]));
}

#[test]
fn ucs2_boundaries_decode() {
    assert_eq!(decode_from_ucs2(&[0x0]), Ok(vec![0x0]));
    assert_eq!(decode_from_ucs2(&[0x7F]), Ok(vec![0x7F]));
    assert_eq!(decode_from_ucs2(&[0x80]), Ok(vec![0x80]));
    assert_eq!(decode_from_ucs2(&[0x7FF]), Ok(vec![0x7FF]));
    assert_eq!(decode_from_ucs2(&[0x800]), Ok(vec![0x800]));
    assert_eq!(decode_from_ucs2(&[0xD7FF]), Ok(vec![0xD7FF]));
    assert_eq!(decode_from_ucs2(&[0xE000]), Ok(vec![0xE000]));
    assert_eq!(decode_from_ucs2(&[0xFFFF]), Ok(vec![0xFFFF]));
}

#[test]
fn ucs2_encode_rejects_supplementary_planes() {
    assert_eq!(encode_in_ucs2(&[0x10000]), Err(CodecError::InvalidCodePoint));
    assert_eq!(encode_in_ucs2(&[0x10001]), Err(CodecError::InvalidCodePoint));
    assert_eq!(encode_in_ucs2(&[0x10FFFF]), Err(CodecError::InvalidCodePoint));
    assert_eq!(encode_in_ucs2(&[0x110000]), Err(CodecError::InvalidCodePoint));
    assert_eq!(encode_in_ucs2(&[u32::MAX]), Err(CodecError::InvalidCodePoint));
    assert_eq!(encode_in_ucs2(&[0x24, 0x10000]), Err(CodecError::InvalidCodePoint));
}

#[test]
fn ucs2_encode_rejects_surrogates() {
    assert_eq!(encode_in_ucs2(&[0xD800]), Err(CodecError::InvalidCodePoint));
    assert_eq!(encode_in_ucs2(&[0xDBFF]), Err(CodecError::InvalidCodePoint));
    assert_eq!(encode_in_ucs2(&[0xDC00]), Err(CodecError::InvalidCodePoint));
    assert_eq!(encode_in_ucs2(&[0xDFFF]), Err(CodecError::InvalidCodePoint));
    assert_eq!(encode_in_ucs2(&[0xFFEE, 0xD800]), Err(CodecError::InvalidCodePoint));
}

#[test]
fn ucs2_decode_rejects_surrogates() {
    assert_eq!(decode_from_ucs2(&[0xD800]), Err(CodecError::InvalidCodePoint));
    assert_eq!(decode_from_ucs2(&[0xDBFF]), Err(CodecError::InvalidCodePoint));
    assert_eq!(decode_from_ucs2(&[0xDC00]), Err(CodecError::InvalidCodePoint));
    assert_eq!(decode_from_ucs2(&[0xDFFF]), Err(CodecError::InvalidCodePoint));
    assert_eq!(decode_from_ucs2(&[0xFFEE, 0xD800, 0xDC00]), Err(CodecError::InvalidCodePoint));
}

#[test]
fn ucs2_short_names() {
    assert_eq!(ucs2_encode(&[0x24, 0xFFEE]), Ok(vec![0x24, 0xFFEE]));
    assert_eq!(ucs2_decode(&[0x24, 0xFFEE]), Ok(vec![0x24, 0xFFEE]));
    assert_eq!(ucs2_encode(&[0x10001]), Err(CodecError::InvalidCodePoint));
    assert_eq!(ucs2_decode(&[0xD800, 0xDC01]), Err(CodecError::InvalidCodePoint));
}

#[test]
fn ucs2_round_trip_every_unit() {
    let mut v: Vec<u32> = Vec::new();
    let mut cp: u32 = 0;
    while cp <= 0xFFFF {
        if cp < 0xD800 || cp > 0xDFFF {
            v.push(cp);
        }
        cp += 1;
    }
    let enc: Vec<u16> = encode_in_ucs2(&v).unwrap();
    assert_eq!(enc.len(), v.len());
    assert_eq!(decode_from_ucs2(&enc), Ok(v));
}

#[test]
fn ucs2_agrees_with_utf16_where_it_succeeds() {
    let v: Vec<u32> = vec![0x0, 0x41, 0x20AC, 0xD7FF, 0xE000, 0xFFFF];
    assert_eq!(encode_in_ucs2(&v), encode_in_utf16(&v));
    let units: Vec<u16> = vec![0x0, 0x41, 0x20AC, 0xD7FF, 0xE000, 0xFFFF];
    assert_eq!(decode_from_ucs2(&units), decode_from_utf16(&units));
}

#[test]
fn ucs2_what_decodes_encodes_back() {
    let units: Vec<u16> = vec![0x0, 0x24, 0x20AC, 0xD7FF, 0xE000, 0xFFFF];
    let code_points: Vec<u32> = decode_from_ucs2(&units).unwrap();
    assert_eq!(encode_in_ucs2(&code_points), Ok(units));
}
