//! Conversion between sequences of Unicode code points and three encodings:
//! UTF-8, UTF-16 and UCS-2.
//!
//! A code point is a `u32`. The ones that stand for characters are the
//! scalar values: `0x0..=0x10FFFF` without the surrogates `0xD800..=0xDFFF`.
//!
//! | module      | encode            | decode              | unit  |
//! |-------------|-------------------|---------------------|-------|
//! | [`utf8`]    | `encode_in_utf8`  | `decode_from_utf8`  | `u8`  |
//! | [`utf16`]   | `encode_in_utf16` | `decode_from_utf16` | `u16` |
//! | [`ucs2`]    | `encode_in_ucs2`  | `decode_from_ucs2`  | `u16` |
//!
//! Every function works on a whole sequence in memory and returns a new
//! one. Malformed input is answered with a [`error::CodecError`] that names
//! the fault of the first malformed symbol; there are no partial results
//! and no replacement characters.
//!
//! Each codec module holds three things: a mathematical model of the
//! encoding over `Seq` (`encode_utf8`, `decode_utf8`, and so on), the
//! executable functions, each proved to return exactly what the model
//! says, and theorems about the model: decoding inverts encoding, a
//! decoder accepts only what the encoder produces, and surrogates are
//! refused everywhere.

#![allow(unused_imports)]

pub mod error;
pub mod unicode;
pub mod utf8;
pub mod utf16;
pub mod ucs2;
pub mod prelude;
