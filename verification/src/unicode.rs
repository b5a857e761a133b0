//! The Unicode algorithms this crate takes from unicode-normalization,
//! unicode-segmentation and std, each behind one trusted wrapper.
//!
//! Normalization, case mapping and segmentation are pages of Unicode tables,
//! so their results are named here rather than restated; only the short facts
//! their documentation gives are claimed about them.

use vstd::prelude::*;
use unicode_normalization::UnicodeNormalization;
use unicode_segmentation::UnicodeSegmentation;
use vstd::utf8::{valid_utf8, decode_utf8};

verus! {

/// Unicode Normalization Form C of `s` (UAX #15), as computed by
/// unicode-normalization.
pub uninterp spec fn nfc_of(s: Seq<char>) -> Seq<char>;

/// Full Unicode lowercase mapping of `s`, as computed by `str::to_lowercase`.
pub uninterp spec fn lowercase_of(s: Seq<char>) -> Seq<char>;

/// The extended grapheme clusters of `s` (UAX #29), as computed by
/// unicode-segmentation.
pub uninterp spec fn extended_graphemes(s: Seq<char>) -> Seq<Seq<char>>;

/// Wraps `UnicodeNormalization::nfc` (unicode-normalization) over the
/// characters of `s`. Claims: the result is `nfc_of(s)`, and, being in Normal
/// Form C as that function's documentation promises, it is its own NFC.
#[verifier::external_body]
pub(crate) fn nfc(s: &[char]) -> (r: Vec<char>)
    ensures
        r@ == nfc_of(s@),
        nfc_of(r@) == r@,
{
    s.iter().copied().nfc().collect()
}

/// Wraps `str::to_lowercase` (std). Claims only that the result is
/// `lowercase_of(s)`.
#[verifier::external_body]
pub(crate) fn to_lowercase(s: &[char]) -> (r: Vec<char>)
    ensures
        r@ == lowercase_of(s@),
{
    let text: String = s.iter().collect();
    text.to_lowercase().chars().collect()
}

/// Views of a list of character vectors.
pub open spec fn views(v: Seq<Vec<char>>) -> Seq<Seq<char>> {
    v.map_values(|g: Vec<char>| g@)
}

/// Wraps `UnicodeSegmentation::graphemes(s, true)` (unicode-segmentation).
/// Claims: the clusters are `extended_graphemes(s)`, none is empty, and
/// concatenated in order they are `s` again (they segment the string).
#[verifier::external_body]
pub(crate) fn graphemes(s: &[char]) -> (r: Vec<Vec<char>>)
    ensures
        views(r@) == extended_graphemes(s@),
        views(r@).flatten() == s@,
        forall|i: int| 0 <= i < r@.len() ==> #[trigger] r@[i]@.len() > 0,
{
    let text: String = s.iter().collect();
    text.graphemes(true).map(|g| g.chars().collect()).collect()
}

/// Wraps `std::str::from_utf8`. Claims what its documentation says: `Some`
/// exactly when `bytes` is valid UTF-8, holding the characters they encode.
#[verifier::external_body]
pub(crate) fn utf8_text(bytes: &[u8]) -> (r: Option<Vec<char>>)
    ensures
        r is Some <==> valid_utf8(bytes@),
        r matches Some(v) ==> v@ == decode_utf8(bytes@),
{
    std::str::from_utf8(bytes).ok().map(|s| s.chars().collect())
}

} // verus!
