use ende::error::CodecError;
use ende::unicode::{check_code_point, is_scalar_value, is_surrogate, MAX_BMP, MAX_CODE_POINT};

#[test]
fn surrogate_range() {
    assert!(!is_surrogate(0x0));
    assert!(!is_surrogate(0xD7FF));
    assert!(is_surrogate(0xD800));
    assert!(is_surrogate(0xDBFF));
    assert!(is_surrogate(0xDC00));
    assert!(is_surrogate(0xDFFF));
    assert!(!is_surrogate(0xE000));
    assert!(!is_surrogate(0x10FFFF));
    assert!(!is_surrogate(u32::MAX));
}

#[test]
fn scalar_values() {
    assert!(is_scalar_value(0x0));
    assert!(is_scalar_value(0xD7FF));
    assert!(!is_scalar_value(0xD800));
    assert!(!is_scalar_value(0xDFFF));
    assert!(is_scalar_value(0xE000));
    assert!(is_scalar_value(0x10FFFF));
    assert!(!is_scalar_value(0x110000));
    assert!(!is_scalar_value(u32::MAX));
}

#[test]
fn scalar_values_are_the_chars() {
    let mut cp: u32 = 0;
    while cp <= 0x110100 {
        assert_eq!(is_scalar_value(cp), char::from_u32(cp).is_some());
        cp += 1;
    }
}

#[test]
fn check_code_point_rejects_exactly_the_surrogates() {
    assert_eq!(check_code_point(0x0), Ok(()));
    assert_eq!(check_code_point(0xD7FF), Ok(()));
    assert_eq!(check_code_point(0xD800), Err(CodecError::InvalidCodePoint));
    assert_eq!(check_code_point(0xDABC), Err(CodecError::InvalidCodePoint));
    assert_eq!(check_code_point(0xDFFF), Err(CodecError::InvalidCodePoint));
    assert_eq!(check_code_point(0xE000), Ok(()));
    assert_eq!(check_code_point(0x10FFFF), Ok(()));
}

#[test]
fn limits() {
    assert_eq!(MAX_CODE_POINT, 0x10FFFF);
    assert_eq!(MAX_BMP, 0xFFFF);
}

#[test]
fn errors_compare_and_copy() {
    let e: CodecError = CodecError::TruncatedSequence;
    let f: CodecError = e;
    assert_eq!(e, f);
    assert_ne!(CodecError::InvalidCodePoint, CodecError::OverlongEncoding);
    assert_ne!(CodecError::InvalidContinuation, CodecError::TruncatedSequence);
    assert_eq!(format!("{:?}", CodecError::OverlongEncoding), "OverlongEncoding");
}
