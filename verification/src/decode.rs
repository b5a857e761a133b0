//! Stage 1: raw name bytes to text, or nothing.
//!
//! Valid UTF-8 passes through untouched, and that is the whole stage. Anything
//! else is `Opaque`: skipped and reported, never repaired, never guessed at,
//! never lossily converted.

use vstd::prelude::*;
use vstd::utf8::{valid_utf8, decode_utf8};
use crate::text::string_of;
use crate::unicode::utf8_text;

verus! {

/// The only two outcomes there are.
#[derive(Debug, Clone, PartialEq, Eq)]
pub enum Decoded {
    /// The input was valid UTF-8; the text is exactly what it encodes.
    Utf8(String),
    /// The input was not valid UTF-8. No text, no guess, no lossy conversion.
    Opaque,
}

/// Decode a raw name (on Unix, an `OsStr`'s bytes).
pub fn decode(raw: &[u8]) -> (r: Decoded)
    ensures
        match r {
            Decoded::Utf8(s) => valid_utf8(raw@) && s@ == decode_utf8(raw@),
            Decoded::Opaque => !valid_utf8(raw@),
        },
{
    match utf8_text(raw) {
        Some(v) => Decoded::Utf8(string_of(&v)),
        None => Decoded::Opaque,
    }
}

} // verus!
