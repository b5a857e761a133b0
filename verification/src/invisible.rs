//! The invisible-stripping stage's character set: bidi controls, zero-width
//! characters and Unicode Tags, as named ranges.

use vstd::prelude::*;

verus! {

/// The named set: bidi embedding/override controls, bidi isolates, bidi
/// marks, the zero-width characters (ZWSP, ZWNJ, ZWJ, word joiner, BOM) and
/// the Unicode Tags block.
pub open spec fn invisible(c: char) -> bool {
    let u = c as u32;
    (0x202a <= u && u <= 0x202e) || (0x2066 <= u && u <= 0x2069) || u == 0x200e || u == 0x200f
        || u == 0x200b || u == 0x200c || u == 0x200d || u == 0x2060 || u == 0xfeff || (0xe0000
        <= u && u <= 0xe007f)
}

/// Is this character stripped as invisible?
pub fn is_invisible(c: char) -> (r: bool)
    ensures
        r == invisible(c),
{
    let u = c as u32;
    (0x202a <= u && u <= 0x202e) || (0x2066 <= u && u <= 0x2069) || u == 0x200e || u == 0x200f
        || u == 0x200b || u == 0x200c || u == 0x200d || u == 0x2060 || u == 0xfeff || (0xe0000
        <= u && u <= 0xe007f)
}

} // verus!
