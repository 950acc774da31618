use ende::error::CodecError;
use ende::prelude::{decode_from_utf8, encode_in_utf8};

#[test]
fn test_utf8_encode_in_utf8_1() {
    let v: Vec<u32> = vec![0x10001];
    let enc: Vec<u8> = encode_in_utf8(&v).unwrap();
    assert_eq!(enc, vec![0xf0, 0x90, 0x80, 0x81]);
}

#[test]
fn test_utf8_decode_from_utf8_1() {
    let enc: Vec<u8> = vec![0xf0, 0x90, 0x80, 0x81];
    let v: Vec<u32> = decode_from_utf8(&enc).unwrap();
    assert_eq!(v, vec![0x10001]);
}

#[test]
fn test_utf8_encode_in_utf8_2() {
    let v: Vec<u32> = vec![0x10001, 0x10001];
    let enc: Vec<u8> = encode_in_utf8(&v).unwrap();
    assert_eq!(enc, vec![0xf0, 0x90, 0x80, 0x81, 0xf0, 0x90, 0x80, 0x81]);
}

#[test]
fn test_utf8_decode_from_utf8_2() {
    let enc: Vec<u8> = vec![0xf0, 0x90, 0x80, 0x81, 0xf0, 0x90, 0x80, 0x81];
    let v: Vec<u32> = decode_from_utf8(&enc).unwrap();
    assert_eq!(v, vec![0x10001, 0x10001]);
}

#[test]
fn test_utf8_encode_in_utf8_3() {
    let v: Vec<u32> = vec![0x10001, 0x10001, 0x10001];
    let enc: Vec<u8> = encode_in_utf8(&v).unwrap();
    assert_eq!(
        enc,
        vec![0xf0, 0x90, 0x80, 0x81, 0xf0, 0x90, 0x80, 0x81, 0xf0, 0x90, 0x80, 0x81]
    );
}

#[test]
fn test_utf8_decode_from_utf8_3() {
    let enc: Vec<u8> = vec![
        0xf0, 0x90, 0x80, 0x81, 0xf0, 0x90, 0x80, 0x81, 0xf0, 0x90, 0x80, 0x81,
    ];
    let v: Vec<u32> = decode_from_utf8(&enc).unwrap();
    assert_eq!(v, vec![0x10001, 0x10001, 0x10001]);
}

#[test]
fn test_utf8_encode_in_utf8_4() {
    let v: Vec<u32> = vec![0x10001, 0x23456];
    let enc: Vec<u8> = encode_in_utf8(&v).unwrap();
    assert_eq!(enc, vec![0xf0, 0x90, 0x80, 0x81, 0xf0, 0xa3, 0x91, 0x96]);
}

#[test]
fn test_utf8_decode_from_utf8_4() {
    let enc: Vec<u8> = vec![0xf0, 0x90, 0x80, 0x81, 0xf0, 0xa3, 0x91, 0x96];
    let v: Vec<u32> = decode_from_utf8(&enc).unwrap();
    assert_eq!(v, vec![0x10001, 0x23456]);
}

#[test]
fn utf8_empty_input() {
    assert_eq!(encode_in_utf8(&[]), Ok(vec![]));
    assert_eq!(decode_from_utf8(&[]), Ok(vec![]));
}

#[test]
fn utf8_one_byte_symbol() {
    assert_eq!(encode_in_utf8(&[0x24]), Ok(vec![0x24]));
    assert_eq!(decode_from_utf8(&[0x24]), Ok(vec![0x24]));
}

#[test]
fn utf8_two_byte_symbol() {
    assert_eq!(encode_in_utf8(&[0x0418]), Ok(vec![0xD0, 0x98]));
    assert_eq!(decode_from_utf8(&[0xD0, 0x98]), Ok(vec![0x0418]));
}

#[test]
fn utf8_three_byte_symbol() {
    assert_eq!(encode_in_utf8(&[0x20AC]), Ok(vec![0xE2, 0x82, 0xAC]));
    assert_eq!(decode_from_utf8(&[0xE2, 0x82, 0xAC]), Ok(vec![0x20AC]));
}

#[test]
fn utf8_four_byte_symbol() {
    assert_eq!(encode_in_utf8(&[0x10348]), Ok(vec![0xF0, 0x90, 0x8D, 0x88]));
    assert_eq!(decode_from_utf8(&[0xF0, 0x90, 0x8D, 0x88]), Ok(vec![0x10348]));
}

#[test]
fn utf8_mixed_widths_in_order() {
    let v: Vec<u32> = vec![0x24, 0x0418, 0x20AC, 0x10348, 0x41];
    let enc: Vec<u8> = vec![0x24, 0xD0, 0x98, 0xE2, 0x82, 0xAC, 0xF0, 0x90, 0x8D, 0x88, 0x41];
    assert_eq!(encode_in_utf8(&v), Ok(enc.clone()));
    assert_eq!(decode_from_utf8(&enc), Ok(v));
}

#[test]
fn utf8_boundaries_encode() {
    assert_eq!(encode_in_utf8(&[0x00]), Ok(vec![0x00]));
    assert_eq!(encode_in_utf8(&[0x7F]), Ok(vec![0x7F]));
    assert_eq!(encode_in_utf8(&[0x80]), Ok(vec![0xC2, 0x80]));
    assert_eq!(encode_in_utf8(&[0x7FF]), Ok(vec![0xDF, 0xBF]));
    assert_eq!(encode_in_utf8(&[0x800]), Ok(vec![0xE0, 0xA0, 0x80]));
    assert_eq!(encode_in_utf8(&[0xD7FF]), Ok(vec![0xED, 0x9F, 0xBF]));
    assert_eq!(encode_in_utf8(&[0xE000]), Ok(vec![0xEE, 0x80, 0x80]));
    assert_eq!(encode_in_utf8(&[0xFFFF]), Ok(vec![0xEF, 0xBF, 0xBF]));
    assert_eq!(encode_in_utf8(&[0x10000]), Ok(vec![0xF0, 0x90, 0x80, 0x80]));
    assert_eq!(encode_in_utf8(&[0x10FFFF]), Ok(vec![0xF4, 0x8F, 0xBF, 0xBF]));
}

#[test]
fn utf8_boundaries_decode() {
    assert_eq!(decode_from_utf8(&[0x00]), Ok(vec![0x00]));
    assert_eq!(decode_from_utf8(&[0x7F]), Ok(vec![0x7F]));
    assert_eq!(decode_from_utf8(&[0xC2, 0x80]), Ok(vec![0x80]));
    assert_eq!(decode_from_utf8(&[0xDF, 0xBF]), Ok(vec![0x7FF]));
    assert_eq!(decode_from_utf8(&[0xE0, 0xA0, 0x80]), Ok(vec![0x800]));
    assert_eq!(decode_from_utf8(&[0xED, 0x9F, 0xBF]), Ok(vec![0xD7FF]));
    assert_eq!(decode_from_utf8(&[0xEE, 0x80, 0x80]), Ok(vec![0xE000]));
    assert_eq!(decode_from_utf8(&[0xEF, 0xBF, 0xBF]), Ok(vec![0xFFFF]));
    assert_eq!(decode_from_utf8(&[0xF0, 0x90, 0x80, 0x80]), Ok(vec![0x10000]));
    assert_eq!(decode_from_utf8(&[0xF4, 0x8F, 0xBF, 0xBF]), Ok(vec![0x10FFFF]));
}

#[test]
fn utf8_length_by_magnitude() {
    let cases: Vec<(u32, usize)> = vec![
        (0x00, 1),
        (0x7F, 1),
        (0x80, 2),
        (0x7FF, 2),
        (0x800, 3),
        (0xFFFF, 3),
        (0x10000, 4),
        (0x10FFFF, 4),
    ];
    for (cp, len) in cases {
        assert_eq!(encode_in_utf8(&[cp]).unwrap().len(), len);
    }
}

#[test]
fn utf8_encode_rejects_surrogates() {
    assert_eq!(encode_in_utf8(&[0xD800]), Err(CodecError::InvalidCodePoint));
    assert_eq!(encode_in_utf8(&[0xDBFF]), Err(CodecError::InvalidCodePoint));
    assert_eq!(encode_in_utf8(&[0xDC00]), Err(CodecError::InvalidCodePoint));
    assert_eq!(encode_in_utf8(&[0xDFFF]), Err(CodecError::InvalidCodePoint));
    assert_eq!(encode_in_utf8(&[0x24, 0xD800, 0x24]), Err(CodecError::InvalidCodePoint));
}

#[test]
fn utf8_encode_rejects_out_of_range() {
    assert_eq!(encode_in_utf8(&[0x110000]), Err(CodecError::InvalidCodePoint));
    assert_eq!(encode_in_utf8(&[0x1FFFFF]), Err(CodecError::InvalidCodePoint));
    assert_eq!(encode_in_utf8(&[0x200000]), Err(CodecError::InvalidCodePoint));
    assert_eq!(encode_in_utf8(&[u32::MAX]), Err(CodecError::InvalidCodePoint));
}

#[test]
fn utf8_decode_rejects_encoded_surrogates() {
    assert_eq!(decode_from_utf8(&[0xED, 0xA0, 0x80]), Err(CodecError::InvalidCodePoint));
    assert_eq!(decode_from_utf8(&[0xED, 0xBF, 0xBF]), Err(CodecError::InvalidCodePoint));
}

#[test]
fn utf8_decode_rejects_out_of_range() {
    assert_eq!(decode_from_utf8(&[0xF4, 0x90, 0x80, 0x80]), Err(CodecError::InvalidCodePoint));
    assert_eq!(decode_from_utf8(&[0xF7, 0xBF, 0xBF, 0xBF]), Err(CodecError::InvalidCodePoint));
}

#[test]
fn utf8_decode_truncated() {
    assert_eq!(decode_from_utf8(&[0xC3]), Err(CodecError::TruncatedSequence));
    assert_eq!(decode_from_utf8(&[0xE2]), Err(CodecError::TruncatedSequence));
    assert_eq!(decode_from_utf8(&[0xE2, 0x82]), Err(CodecError::TruncatedSequence));
    assert_eq!(decode_from_utf8(&[0xF0]), Err(CodecError::TruncatedSequence));
    assert_eq!(decode_from_utf8(&[0xF0, 0x90]), Err(CodecError::TruncatedSequence));
    assert_eq!(decode_from_utf8(&[0xF0, 0x90, 0x80]), Err(CodecError::TruncatedSequence));
    assert_eq!(decode_from_utf8(&[0x24, 0xE2, 0x82]), Err(CodecError::TruncatedSequence));
}

#[test]
fn utf8_decode_invalid_continuation() {
    assert_eq!(decode_from_utf8(&[0xC3, 0x41]), Err(CodecError::InvalidContinuation));
    assert_eq!(decode_from_utf8(&[0xC3, 0xC3]), Err(CodecError::InvalidContinuation));
    assert_eq!(decode_from_utf8(&[0xE2, 0x82, 0x41]), Err(CodecError::InvalidContinuation));
    assert_eq!(decode_from_utf8(&[0xE2, 0x41, 0xAC]), Err(CodecError::InvalidContinuation));
    assert_eq!(decode_from_utf8(&[0xF0, 0x90, 0x80, 0xC0]), Err(CodecError::InvalidContinuation));
}

#[test]
fn utf8_decode_malformed_byte_before_missing_byte() {
    // The second byte is malformed and the third is missing: the malformed
    // one comes first.
    assert_eq!(decode_from_utf8(&[0xE2, 0x41]), Err(CodecError::InvalidContinuation));
    assert_eq!(decode_from_utf8(&[0xF0, 0x90, 0x41]), Err(CodecError::InvalidContinuation));
}

#[test]
fn utf8_decode_byte_that_starts_no_symbol() {
    assert_eq!(decode_from_utf8(&[0x80]), Err(CodecError::InvalidContinuation));
    assert_eq!(decode_from_utf8(&[0xBF]), Err(CodecError::InvalidContinuation));
    assert_eq!(decode_from_utf8(&[0xF8, 0x80, 0x80, 0x80, 0x80]), Err(CodecError::InvalidContinuation));
    assert_eq!(decode_from_utf8(&[0xFF]), Err(CodecError::InvalidContinuation));
    assert_eq!(decode_from_utf8(&[0x24, 0x80]), Err(CodecError::InvalidContinuation));
}

#[test]
fn utf8_decode_overlong() {
    assert_eq!(decode_from_utf8(&[0xC0, 0x80]), Err(CodecError::OverlongEncoding));
    assert_eq!(decode_from_utf8(&[0xC1, 0xBF]), Err(CodecError::OverlongEncoding));
    assert_eq!(decode_from_utf8(&[0xE0, 0x80, 0x80]), Err(CodecError::OverlongEncoding));
    assert_eq!(decode_from_utf8(&[0xE0, 0x9F, 0xBF]), Err(CodecError::OverlongEncoding));
    assert_eq!(decode_from_utf8(&[0xF0, 0x80, 0x80, 0x80]), Err(CodecError::OverlongEncoding));
    assert_eq!(decode_from_utf8(&[0xF0, 0x8F, 0xBF, 0xBF]), Err(CodecError::OverlongEncoding));
    // An overlong form is refused as such even where its value is a surrogate.
    assert_eq!(decode_from_utf8(&[0xF0, 0x8D, 0xA0, 0x80]), Err(CodecError::OverlongEncoding));
}

#[test]
fn utf8_first_fault_is_reported() {
    assert_eq!(decode_from_utf8(&[0xC0, 0x80, 0xFF]), Err(CodecError::OverlongEncoding));
    assert_eq!(decode_from_utf8(&[0xED, 0xA0, 0x80, 0xE2]), Err(CodecError::InvalidCodePoint));
    assert_eq!(decode_from_utf8(&[0xFF, 0xC0, 0x80]), Err(CodecError::InvalidContinuation));
    assert_eq!(encode_in_utf8(&[0x24, 0x110000, 0xD800]), Err(CodecError::InvalidCodePoint));
}

#[test]
fn utf8_round_trip_samples() {
    let v: Vec<u32> = vec![
        0x0, 0x7F, 0x80, 0x7FF, 0x800, 0xD7FF, 0xE000, 0xFFFD, 0xFFFF, 0x10000, 0x1F496, 0x10FFFF,
    ];
    let enc: Vec<u8> = encode_in_utf8(&v).unwrap();
    assert_eq!(decode_from_utf8(&enc), Ok(v));
}

#[test]
fn utf8_agrees_with_std_on_every_scalar_value() {
    let mut cp: u32 = 0;
    while cp <= 0x10FFFF {
        match char::from_u32(cp) {
            Some(c) => {
                let mut buf: [u8; 4] = [0; 4];
                let expected: &[u8] = c.encode_utf8(&mut buf).as_bytes();
                let enc: Vec<u8> = encode_in_utf8(&[cp]).unwrap();
                assert_eq!(enc.as_slice(), expected);
                assert_eq!(decode_from_utf8(&enc), Ok(vec![cp]));
            }
            None => {
                assert_eq!(encode_in_utf8(&[cp]), Err(CodecError::InvalidCodePoint));
            }
        }
        cp += 1;
    }
}

#[test]
fn utf8_decode_agrees_with_std_on_text() {
    let text: &str = "The quick brown fox: \u{418}\u{20AC}\u{10348} \u{1F496}!";
    let expected: Vec<u32> = text.chars().map(|c| c as u32).collect();
    assert_eq!(decode_from_utf8(text.as_bytes()), Ok(expected.clone()));
    assert_eq!(encode_in_utf8(&expected), Ok(text.as_bytes().to_vec()));
}

#[test]
fn utf8_decode_accepts_what_std_accepts_for_two_bytes() {
    let mut b0: u32 = 0;
    while b0 <= 0xFF {
        let mut b1: u32 = 0;
        while b1 <= 0xFF {
            let bytes: [u8; 2] = [b0 as u8, b1 as u8];
            let ours: bool = decode_from_utf8(&bytes).is_ok();
            let theirs: bool = std::str::from_utf8(&bytes).is_ok();
            assert_eq!(ours, theirs);
            b1 += 1;
        }
        b0 += 1;
    }
}

#[test]
fn utf8_encoding_of_a_concatenation() {
    let a: Vec<u32> = vec![0x24, 0x20AC];
    let b: Vec<u32> = vec![0x10348, 0x418];
    let ab: Vec<u32> = vec![0x24, 0x20AC, 0x10348, 0x418];
    let mut expected: Vec<u8> = encode_in_utf8(&a).unwrap();
    expected.extend(encode_in_utf8(&b).unwrap());
    assert_eq!(encode_in_utf8(&ab), Ok(expected));
    // A failure in the first part wins over one in the second.
    assert_eq!(encode_in_utf8(&[0xD800, 0x110000]), Err(CodecError::InvalidCodePoint));
}

#[test]
fn utf8_decoding_of_a_concatenation() {
    let a: Vec<u8> = vec![0x24, 0xE2, 0x82, 0xAC];
    let b: Vec<u8> = vec![0xF0, 0x90, 0x8D, 0x88, 0xD0, 0x98];
    let ab: Vec<u8> = vec![0x24, 0xE2, 0x82, 0xAC, 0xF0, 0x90, 0x8D, 0x88, 0xD0, 0x98];
    let mut expected: Vec<u32> = decode_from_utf8(&a).unwrap();
    expected.extend(decode_from_utf8(&b).unwrap());
    assert_eq!(decode_from_utf8(&ab), Ok(expected));
    // Behind a part that decodes, the second part fails as it does alone.
    assert_eq!(decode_from_utf8(&[0xC0, 0x80]), Err(CodecError::OverlongEncoding));
    assert_eq!(
        decode_from_utf8(&[0x24, 0xE2, 0x82, 0xAC, 0xC0, 0x80]),
        Err(CodecError::OverlongEncoding)
    );
}

#[test]
fn utf8_what_decodes_encodes_back() {
    let inputs: Vec<Vec<u8>> = vec![
        vec![],
        vec![0x24],
        vec![0xD0, 0x98, 0xE2, 0x82, 0xAC],
        vec![0xF4, 0x8F, 0xBF, 0xBF, 0x00, 0xC2, 0x80],
    ];
    for bytes in inputs {
        let code_points: Vec<u32> = decode_from_utf8(&bytes).unwrap();
        assert_eq!(encode_in_utf8(&code_points), Ok(bytes));
    }
}

#[test]
fn utf8_decode_accepts_what_std_accepts_for_three_bytes() {
    let mut b0: u32 = 0xE0;
    while b0 <= 0xEF {
        let mut b1: u32 = 0;
        while b1 <= 0xFF {
            let mut b2: u32 = 0;
            while b2 <= 0xFF {
                let bytes: [u8; 3] = [b0 as u8, b1 as u8, b2 as u8];
                match std::str::from_utf8(&bytes) {
                    Ok(text) => {
                        let expected: Vec<u32> = text.chars().map(|c| c as u32).collect();
                        assert_eq!(decode_from_utf8(&bytes), Ok(expected));
                    }
                    Err(_) => assert!(decode_from_utf8(&bytes).is_err()),
                }
                b2 += 1;
            }
            b1 += 1;
        }
        b0 += 1;
    }
}

#[test]
fn utf8_decode_accepts_what_std_accepts_for_four_bytes() {
    let tails: [u8; 10] = [0x00, 0x7F, 0x80, 0x8F, 0x90, 0xA5, 0xBF, 0xC0, 0xE0, 0xFF];
    let mut b0: u32 = 0xF0;
    while b0 <= 0xFF {
        let mut b1: u32 = 0;
        while b1 <= 0xFF {
            for b2 in tails {
                for b3 in tails {
                    let bytes: [u8; 4] = [b0 as u8, b1 as u8, b2, b3];
                    match std::str::from_utf8(&bytes) {
                        Ok(text) => {
                            let expected: Vec<u32> = text.chars().map(|c| c as u32).collect();
                            assert_eq!(decode_from_utf8(&bytes), Ok(expected));
                        }
                        Err(_) => assert!(decode_from_utf8(&bytes).is_err()),
                    }
                }
            }
            b1 += 1;
        }
        b0 += 1;
    }
}
