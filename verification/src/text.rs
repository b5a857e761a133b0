//! Text as a sequence of `char`s: lengths in UTF-8 bytes and UTF-16 units, and
//! the conversions between `str`/`String` and `Vec<char>`.

use vstd::prelude::*;
use vstd::utf8::{valid_utf8, decode_utf8};

verus! {

/// Bytes in the UTF-8 encoding of `c`.
pub open spec fn utf8_width(c: char) -> nat {
    let u = c as u32;
    if u < 0x80 {
        1
    } else if u < 0x800 {
        2
    } else if u < 0x10000 {
        3
    } else {
        4
    }
}

/// Code units in the UTF-16 encoding of `c`.
pub open spec fn utf16_width(c: char) -> nat {
    if (c as u32) < 0x10000 {
        1
    } else {
        2
    }
}

/// Length of `s` in UTF-8 bytes.
pub open spec fn byte_len(s: Seq<char>) -> nat
    decreases s.len(),
{
    if s.len() == 0 {
        0
    } else {
        byte_len(s.drop_last()) + utf8_width(s.last())
    }
}

/// Length of `s` in UTF-16 code units.
pub open spec fn unit_len(s: Seq<char>) -> nat
    decreases s.len(),
{
    if s.len() == 0 {
        0
    } else {
        unit_len(s.drop_last()) + utf16_width(s.last())
    }
}

pub proof fn lemma_len_concat(a: Seq<char>, b: Seq<char>)
    ensures
        byte_len(a + b) == byte_len(a) + byte_len(b),
        unit_len(a + b) == unit_len(a) + unit_len(b),
    decreases b.len(),
{
    if b.len() == 0 {
        assert(a + b =~= a);
    } else {
        lemma_len_concat(a, b.drop_last());
        assert((a + b).drop_last() =~= a + b.drop_last());
    }
}

pub proof fn lemma_len_bounds(s: Seq<char>)
    ensures
        unit_len(s) <= byte_len(s),
        byte_len(s) <= 4 * s.len(),
        s.len() <= unit_len(s),
    decreases s.len(),
{
    if s.len() > 0 {
        lemma_len_bounds(s.drop_last());
    }
}

/// `s`'s characters, in order.
pub fn chars_of(s: &str) -> (v: Vec<char>)
    ensures
        v@ == s@,
{
    let mut v: Vec<char> = Vec::new();
    for c in it: s.chars()
        invariant
            v@ == it.seq().take(it.index() as int),
    {
        v.push(c);
    }
    v
}

} // verus!

verus! {

/// `s`'s characters `a..b`, copied.
pub fn chars_range(s: &[char], a: usize, b: usize) -> (v: Vec<char>)
    requires
        a <= b <= s@.len(),
    ensures
        v@ == s@.subrange(a as int, b as int),
{
    let mut v: Vec<char> = Vec::new();
    let mut i = a;
    while i < b
        invariant
            a <= i <= b <= s@.len(),
            v@ == s@.subrange(a as int, i as int),
        decreases b - i,
    {
        v.push(s[i]);
        i += 1;
        assert(v@ =~= s@.subrange(a as int, i as int));
    }
    v
}

/// Append `s` to `out`.
pub fn push_all(out: &mut Vec<char>, s: &[char])
    ensures
        final(out)@ == old(out)@ + s@,
{
    let mut i: usize = 0;
    while i < s.len()
        invariant
            0 <= i <= s@.len(),
            out@ == old(out)@ + s@.take(i as int),
        decreases s@.len() - i,
    {
        out.push(s[i]);
        i += 1;
        assert(out@ =~= old(out)@ + s@.take(i as int));
    }
    assert(s@.take(s@.len() as int) =~= s@);
}

/// `a` followed by `b`, as a new vector.
pub fn concat_chars(a: &[char], b: &[char]) -> (v: Vec<char>)
    ensures
        v@ == a@ + b@,
{
    let mut v = chars_range(a, 0, a.len());
    assert(a@.subrange(0, a@.len() as int) =~= a@);
    push_all(&mut v, b);
    v
}

/// Equality of two character sequences.
pub fn chars_eq(a: &[char], b: &[char]) -> (r: bool)
    ensures
        r == (a@ == b@),
{
    if a.len() != b.len() {
        return false;
    }
    let mut i: usize = 0;
    while i < a.len()
        invariant
            a@.len() == b@.len(),
            0 <= i <= a@.len(),
            forall|j: int| 0 <= j < i ==> a@[j] == b@[j],
        decreases a@.len() - i,
    {
        if a[i] != b[i] {
            return false;
        }
        i += 1;
    }
    assert(a@ =~= b@);
    true
}

/// UTF-8 width of one character.
pub fn char_utf8_width(c: char) -> (w: u128)
    ensures
        w == utf8_width(c),
{
    let u = c as u32;
    if u < 0x80 {
        1
    } else if u < 0x800 {
        2
    } else if u < 0x10000 {
        3
    } else {
        4
    }
}

/// UTF-16 width of one character.
pub fn char_utf16_width(c: char) -> (w: u128)
    ensures
        w == utf16_width(c),
{
    if (c as u32) < 0x10000 {
        1
    } else {
        2
    }
}

/// `(byte_len, unit_len)` of `s`.
pub fn lens_of(s: &[char]) -> (r: (u128, u128))
    ensures
        r.0 == byte_len(s@),
        r.1 == unit_len(s@),
        r.0 <= 4 * s@.len(),
        r.1 <= 4 * s@.len(),
{
    let mut b: u128 = 0;
    let mut u: u128 = 0;
    let mut i: usize = 0;
    while i < s.len()
        invariant
            0 <= i <= s@.len(),
            b == byte_len(s@.take(i as int)),
            u == unit_len(s@.take(i as int)),
            b <= 4 * i,
            u <= 4 * i,
        decreases s@.len() - i,
    {
        proof {
            assert(s@.take(i + 1).drop_last() =~= s@.take(i as int));
        }
        b = b + char_utf8_width(s[i]);
        u = u + char_utf16_width(s[i]);
        i += 1;
    }
    assert(s@.take(s@.len() as int) =~= s@);
    (b, u)
}

/// Wraps `String::from_iter` over `char`s: the string whose characters are
/// exactly `v`, in order.
#[verifier::external_body]
pub(crate) fn string_of(v: &[char]) -> (s: String)
    ensures
        s@ == v@,
{
    v.iter().collect()
}


/// The decimal digit `d`.
pub open spec fn digit(d: nat) -> char {
    if d == 0 {
        '0'
    } else if d == 1 {
        '1'
    } else if d == 2 {
        '2'
    } else if d == 3 {
        '3'
    } else if d == 4 {
        '4'
    } else if d == 5 {
        '5'
    } else if d == 6 {
        '6'
    } else if d == 7 {
        '7'
    } else if d == 8 {
        '8'
    } else {
        '9'
    }
}

/// `n` in decimal.
pub open spec fn decimal(n: nat) -> Seq<char>
    decreases n,
{
    if n < 10 {
        seq![digit(n)]
    } else {
        decimal(n / 10).push(digit(n % 10))
    }
}

fn digit_char(d: u64) -> (c: char)
    requires
        d < 10,
    ensures
        c == digit(d as nat),
{
    if d == 0 {
        '0'
    } else if d == 1 {
        '1'
    } else if d == 2 {
        '2'
    } else if d == 3 {
        '3'
    } else if d == 4 {
        '4'
    } else if d == 5 {
        '5'
    } else if d == 6 {
        '6'
    } else if d == 7 {
        '7'
    } else if d == 8 {
        '8'
    } else {
        '9'
    }
}

pub fn decimal_chars(n: u64) -> (r: Vec<char>)
    ensures
        r@ == decimal(n as nat),
    decreases n,
{
    if n < 10 {
        let mut r: Vec<char> = Vec::new();
        r.push(digit_char(n));
        assert(r@ =~= seq![digit(n as nat)]);
        r
    } else {
        let mut r = decimal_chars(n / 10);
        r.push(digit_char(n % 10));
        r
    }
}

/// Wraps `String::from_utf8_lossy`: text for any bytes, each invalid
/// sequence replaced by U+FFFD. Claims: the result is `lossy_of(b)`, and it is
/// exactly the decoded text when `b` is valid UTF-8.
#[verifier::external_body]
pub(crate) fn lossy_text(b: &[u8]) -> (s: String)
    ensures
        s@ == lossy_of(b@),
        valid_utf8(b@) ==> s@ == decode_utf8(b@),
{
    String::from_utf8_lossy(b).into_owned()
}

/// What `String::from_utf8_lossy` makes of `b`.
pub uninterp spec fn lossy_of(b: Seq<u8>) -> Seq<char>;


/// `s` left-padded with zeros to at least `w` characters.
pub open spec fn zero_pad(s: Seq<char>, w: nat) -> Seq<char> {
    if s.len() >= w {
        s
    } else {
        Seq::new((w - s.len()) as nat, |i: int| '0') + s
    }
}

/// `n` in decimal, `0`-padded to at least `w` characters.
pub fn zero_padded(n: u64, w: usize) -> (r: Vec<char>)
    ensures
        r@ == zero_pad(decimal(n as nat), w as nat),
{
    let d = decimal_chars(n);
    pad_zeros(&d, w)
}

/// `d`, `0`-padded to at least `w` characters.
pub fn pad_zeros(d: &[char], w: usize) -> (r: Vec<char>)
    ensures
        r@ == zero_pad(d@, w as nat),
{
    let mut out: Vec<char> = Vec::new();
    if d.len() < w {
        let fill = w - d.len();
        let mut k: usize = 0;
        while k < fill
            invariant
                0 <= k <= fill,
                out@ == Seq::new(k as nat, |i: int| '0'),
            decreases fill - k,
        {
            out.push('0');
            k += 1;
            assert(out@ =~= Seq::new(k as nat, |i: int| '0'));
        }
    }
    push_all(&mut out, d);
    proof {
        if d@.len() >= w {
            assert(out@ =~= d@);
        }
    }
    out
}


/// The hexadecimal digit `d`, lower case.
pub open spec fn hex_digit(d: nat) -> char {
    if d < 10 {
        (48 + d) as char
    } else {
        (87 + d) as char
    }
}

/// `n` in lower-case hexadecimal.
pub open spec fn hex(n: nat) -> Seq<char>
    decreases n,
{
    if n < 16 {
        seq![hex_digit(n)]
    } else {
        hex(n / 16).push(hex_digit(n % 16))
    }
}

fn hex_digit_char(d: u32) -> (c: char)
    requires
        d < 16,
    ensures
        c == hex_digit(d as nat),
{
    if d < 10 {
        ((48 + d) as u8) as char
    } else {
        ((87 + d) as u8) as char
    }
}

/// `n` in lower-case hexadecimal, as characters.
pub fn hex_chars(n: u32) -> (r: Vec<char>)
    ensures
        r@ == hex(n as nat),
    decreases n,
{
    if n < 16 {
        let mut r: Vec<char> = Vec::new();
        r.push(hex_digit_char(n));
        assert(r@ =~= seq![hex_digit(n as nat)]);
        r
    } else {
        let mut r = hex_chars(n / 16);
        r.push(hex_digit_char(n % 16));
        r
    }
}

} // verus!
