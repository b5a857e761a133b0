//! What the report's escaping promises across all names: a rendering can be
//! read back into the exact bytes it came from, so two different names never
//! render the same.

use vstd::prelude::*;
use vstd::utf8::{
    valid_first_scalar, decode_first_scalar, length_of_first_scalar, take_first_scalar,
    encode_scalar, valid_utf8, pop_first_scalar, decode_utf8_first_scalar, char_is_scalar,
};
use crate::report::{escape_spec, escape_char_spec, byte_escape, needs_escape_spec};
use crate::text::{hex, hex_digit, zero_pad};

verus! {

/// A lower-case hexadecimal digit.
pub open spec fn is_hex_char(c: char) -> bool {
    ('0' <= c && c <= '9') || ('a' <= c && c <= 'f')
}

/// The value of one hexadecimal digit.
pub open spec fn hex_val(c: char) -> nat {
    if '0' <= c && c <= '9' {
        (c as nat - 48) as nat
    } else {
        (c as nat - 87) as nat
    }
}

/// The value of a run of hexadecimal digits.
pub open spec fn hex_value(s: Seq<char>) -> nat
    decreases s.len(),
{
    if s.len() == 0 {
        0
    } else {
        hex_value(s.drop_last()) * 16 + hex_val(s.last())
    }
}

/// How many hexadecimal digits `s` starts with.
pub open spec fn hex_run(s: Seq<char>) -> nat
    decreases s.len(),
{
    if s.len() > 0 && is_hex_char(s[0]) {
        1 + hex_run(s.drop_first())
    } else {
        0
    }
}

/// Reading a rendering back: a character other than `<` stands for itself;
/// `<hh>` is the byte `hh` (a control character's own byte, or a byte that
/// starts no character); `<u+h…>` is the character with that code. Anything
/// else ends the reading.
pub open spec fn unescape(s: Seq<char>) -> Seq<u8>
    decreases s.len(),
{
    if s.len() == 0 {
        Seq::empty()
    } else if s[0] != '<' {
        encode_scalar(s[0] as u32) + unescape(s.drop_first())
    } else if s.len() >= 3 && s[1] == 'u' && s[2] == '+' {
        let n = hex_run(s.skip(3)) as int;
        if s.len() > 3 + n && s[3 + n] == '>' {
            encode_scalar(hex_value(s.subrange(3, 3 + n)) as u32) + unescape(s.skip(4 + n))
        } else {
            Seq::empty()
        }
    } else if s.len() >= 4 && is_hex_char(s[1]) && is_hex_char(s[2]) && s[3] == '>' {
        seq![(hex_val(s[1]) * 16 + hex_val(s[2])) as u8] + unescape(s.skip(4))
    } else {
        Seq::empty()
    }
}

proof fn lemma_hex_digit(d: nat)
    requires
        d < 16,
    ensures
        is_hex_char(hex_digit(d)),
        hex_val(hex_digit(d)) == d,
{
}

/// `hex(n)` is all digits, and reads back as `n`.
proof fn lemma_hex(n: nat)
    ensures
        hex(n).len() > 0,
        forall|i: int| 0 <= i < hex(n).len() ==> is_hex_char(#[trigger] hex(n)[i]),
        hex_value(hex(n)) == n,
    decreases n,
{
    if n < 16 {
        lemma_hex_digit(n);
        let h = hex(n);
        assert(h.drop_last() =~= Seq::<char>::empty());
        assert(hex_value(Seq::<char>::empty()) == 0);
        assert(hex_value(h) == hex_value(h.drop_last()) * 16 + hex_val(h.last()));
    } else {
        lemma_hex(n / 16);
        lemma_hex_digit(n % 16);
        let h = hex(n);
        assert(h.drop_last() =~= hex(n / 16));
        assert(h.last() == hex_digit(n % 16));
        assert(hex_value(h) == hex_value(h.drop_last()) * 16 + hex_val(h.last()));
        assert(n == (n / 16) * 16 + n % 16);
    }
}

/// A leading zero changes no value.
proof fn lemma_hex_value_zero(s: Seq<char>)
    ensures
        hex_value(seq!['0'] + s) == hex_value(s),
    decreases s.len(),
{
    let t = seq!['0'] + s;
    assert(hex_value(t) == hex_value(t.drop_last()) * 16 + hex_val(t.last()));
    if s.len() == 0 {
        assert(t.drop_last() =~= Seq::<char>::empty());
        assert(hex_value(Seq::<char>::empty()) == 0);
    } else {
        assert(t.drop_last() =~= seq!['0'] + s.drop_last());
        assert(t.last() == s.last());
        lemma_hex_value_zero(s.drop_last());
        assert(hex_value(s) == hex_value(s.drop_last()) * 16 + hex_val(s.last()));
    }
}

proof fn lemma_zeros_value(k: nat, s: Seq<char>)
    ensures
        hex_value(Seq::new(k, |i: int| '0') + s) == hex_value(s),
    decreases k,
{
    if k > 0 {
        let z = Seq::new(k, |i: int| '0');
        let z1 = Seq::new((k - 1) as nat, |i: int| '0');
        assert(z + s =~= seq!['0'] + (z1 + s));
        lemma_hex_value_zero(z1 + s);
        lemma_zeros_value((k - 1) as nat, s);
    }
}

/// `hex(n)` padded with zeros: still all digits, still `n`.
proof fn lemma_padded_hex(n: nat, w: nat)
    ensures
        zero_pad(hex(n), w).len() >= w,
        zero_pad(hex(n), w).len() > 0,
        forall|i: int| 0 <= i < zero_pad(hex(n), w).len() ==> is_hex_char(#[trigger] zero_pad(hex(n), w)[i]),
        hex_value(zero_pad(hex(n), w)) == n,
{
    lemma_hex(n);
    let h = hex(n);
    if h.len() < w {
        let k = (w - h.len()) as nat;
        lemma_zeros_value(k, h);
        let p = zero_pad(h, w);
        assert forall|i: int| 0 <= i < p.len() implies is_hex_char(#[trigger] p[i]) by {
            if i >= k {
                assert(p[i] == h[i - k]);
            }
        }
    }
}

/// A value below 16^2 takes at most two digits.
proof fn lemma_hex_len_small(n: nat)
    requires
        n < 256,
    ensures
        hex(n).len() <= 2,
{
    if n >= 16 {
        assert(n / 16 < 16);
        assert(hex(n / 16).len() == 1);
    }
}

/// A run of digits followed by `>` is exactly that long.
proof fn lemma_hex_run(h: Seq<char>, r: Seq<char>)
    requires
        forall|i: int| 0 <= i < h.len() ==> is_hex_char(#[trigger] h[i]),
    ensures
        hex_run(h + seq!['>'] + r) == h.len(),
    decreases h.len(),
{
    let s = h + seq!['>'] + r;
    if h.len() == 0 {
        assert(s[0] == '>');
    } else {
        assert(s[0] == h[0]);
        assert(s.drop_first() =~= h.drop_first() + seq!['>'] + r);
        assert forall|i: int| 0 <= i < h.drop_first().len() implies is_hex_char(
            #[trigger] h.drop_first()[i],
        ) by {
            assert(h.drop_first()[i] == h[i + 1]);
        }
        lemma_hex_run(h.drop_first(), r);
    }
}

/// Reading back a `<u+h…>` token.
proof fn lemma_unescape_wide(h: Seq<char>, r: Seq<char>)
    requires
        h.len() > 0,
        forall|i: int| 0 <= i < h.len() ==> is_hex_char(#[trigger] h[i]),
    ensures
        unescape(seq!['<', 'u', '+'] + h + seq!['>'] + r) == encode_scalar(hex_value(h) as u32)
            + unescape(r),
{
    let s = seq!['<', 'u', '+'] + h + seq!['>'] + r;
    assert(s.skip(3) =~= h + seq!['>'] + r);
    lemma_hex_run(h, r);
    let n = h.len() as int;
    assert(s[3 + n] == '>');
    assert(s.subrange(3, 3 + n) =~= h);
    assert(s.skip(4 + n) =~= r);
}

/// Reading back a `<hh>` token.
proof fn lemma_unescape_narrow(h: Seq<char>, r: Seq<char>)
    requires
        h.len() == 2,
        is_hex_char(h[0]),
        is_hex_char(h[1]),
        hex_value(h) < 256,
    ensures
        unescape(seq!['<'] + h + seq!['>'] + r) == seq![hex_value(h) as u8] + unescape(r),
{
    let s = seq!['<'] + h + seq!['>'] + r;
    assert(s[1] == h[0] && s[2] == h[1] && s[3] == '>');
    assert(h[0] != 'u');
    assert(s.skip(4) =~= r);
    assert(h.drop_last() =~= seq![h[0]]);
    assert(seq![h[0]].drop_last() =~= Seq::<char>::empty());
    assert(hex_value(seq![h[0]]) == hex_val(h[0]));
}

/// Every token reads back as the bytes it stands for.
proof fn lemma_unescape_char(c: char, r: Seq<char>)
    ensures
        unescape(escape_char_spec(c) + r) == encode_scalar(c as u32) + unescape(r),
{
    let u = c as u32;
    char_is_scalar(c);
    reveal_strlit("<3c>");
    reveal_strlit("<");
    reveal_strlit(">");
    reveal_strlit("<u+");
    if c == '<' {
        let h = seq!['3', 'c'];
        assert("<3c>"@ =~= seq!['<'] + h + seq!['>']);
        assert(h.drop_last() =~= seq!['3']);
        assert(seq!['3'].drop_last() =~= Seq::<char>::empty());
        assert(hex_value(Seq::<char>::empty()) == 0);
        assert(hex_value(seq!['3']) == 3);
        assert(hex_value(h) == 60);
        lemma_unescape_narrow(h, r);
        assert(u == 0x3c);
        assert(encode_scalar(u) == seq![0x3cu8]) by {
            assert((0x3cu32 & 0x7f) as u8 == 0x3cu8) by (bit_vector);
        }
        assert(escape_char_spec(c) + r =~= seq!['<'] + h + seq!['>'] + r);
    } else if !needs_escape_spec(c) {
        let s = seq![c] + r;
        assert(s.drop_first() =~= r);
        assert(escape_char_spec(c) + r =~= s);
    } else if u < 0x80 {
        lemma_hex_len_small(u as nat);
        lemma_padded_hex(u as nat, 2);
        let h = zero_pad(hex(u as nat), 2);
        assert(h.len() == 2);
        assert(is_hex_char(h[0]) && is_hex_char(h[1]));
        lemma_unescape_narrow(h, r);
        assert(escape_char_spec(c) + r =~= seq!['<'] + h + seq!['>'] + r);
        assert(encode_scalar(u) == seq![u as u8]) by {
            assert(u < 0x80 ==> (u & 0x7f) as u8 == u as u8) by (bit_vector);
        }
    } else {
        lemma_padded_hex(u as nat, 4);
        let h = zero_pad(hex(u as nat), 4);
        lemma_unescape_wide(h, r);
        assert(escape_char_spec(c) + r =~= seq!['<', 'u', '+'] + h + seq!['>'] + r);
    }
}

/// A byte that starts no character reads back as itself.
proof fn lemma_unescape_byte(b: u8, r: Seq<char>)
    ensures
        unescape(byte_escape(b) + r) == seq![b] + unescape(r),
{
    reveal_strlit("<");
    reveal_strlit(">");
    lemma_hex_len_small(b as nat);
    lemma_padded_hex(b as nat, 2);
    let h = zero_pad(hex(b as nat), 2);
    lemma_unescape_narrow(h, r);
    assert(byte_escape(b) + r =~= seq!['<'] + h + seq!['>'] + r);
}

/// The bytes of a well-formed first character are that character's encoding.
proof fn lemma_first_scalar_bytes(b: Seq<u8>)
    requires
        valid_first_scalar(b),
    ensures
        encode_scalar((decode_first_scalar(b) as char) as u32) == take_first_scalar(b),
        1 <= length_of_first_scalar(b) <= b.len(),
{
    let t = take_first_scalar(b);
    let n = length_of_first_scalar(b);
    assert(1 <= n <= b.len());
    assert(t.len() == n);
    assert(forall|i: int| 0 <= i < n ==> t[i] == b[i]);
    assert(valid_first_scalar(t));
    assert(decode_first_scalar(t) == decode_first_scalar(b));
    assert(length_of_first_scalar(t) == n);
    assert(pop_first_scalar(t) =~= Seq::<u8>::empty());
    assert(valid_utf8(pop_first_scalar(t)));
    assert(valid_utf8(t));
    decode_utf8_first_scalar(t);
    assert(take_first_scalar(t) =~= t);
}

/// Reading a rendering back gives exactly the bytes it was made from.
pub proof fn law_escape_reads_back(b: Seq<u8>)
    ensures
        unescape(escape_spec(b)) == b,
    decreases b.len(),
{
    if b.len() > 0 {
        if valid_first_scalar(b) {
            lemma_first_scalar_bytes(b);
            let n = length_of_first_scalar(b);
            let c = decode_first_scalar(b) as char;
            let rest = b.skip(n);
            law_escape_reads_back(rest);
            lemma_unescape_char(c, escape_spec(rest));
            assert(b =~= take_first_scalar(b) + rest);
        } else {
            let rest = b.drop_first();
            law_escape_reads_back(rest);
            lemma_unescape_byte(b[0], escape_spec(rest));
            assert(b =~= seq![b[0]] + rest);
        }
    }
}

/// Two different names never render the same.
pub proof fn law_escape_is_injective(a: Seq<u8>, b: Seq<u8>)
    requires
        escape_spec(a) == escape_spec(b),
    ensures
        a == b,
{
    law_escape_reads_back(a);
    law_escape_reads_back(b);
}

} // verus!
