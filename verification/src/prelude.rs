//! The codecs' entry points under one path.

pub use crate::error::CodecError;
pub use crate::ucs2::{decode_from_ucs2, encode_in_ucs2, ucs2_decode, ucs2_encode};
pub use crate::unicode::{check_code_point, is_scalar_value, is_surrogate};
pub use crate::utf16::{decode_from_utf16, encode_in_utf16};
pub use crate::utf8::{decode_from_utf8, encode_in_utf8};
