//! Grapheme-safe, extension-preserving truncation.
//!
//! Boundaries are grapheme cluster boundaries, never character boundaries: a
//! base and its combining mark, or a ZWJ emoji sequence, is kept or dropped as
//! one unit.

use vstd::prelude::*;
use crate::text::{
    byte_len, unit_len, utf16_width, lemma_len_concat, chars_of, lens_of, chars_range, push_all, concat_chars,
    string_of,
};
use crate::unicode::{extended_graphemes, graphemes, views};

verus! {

/// A length budget in both units at once. Both fields are always checked.
#[derive(Debug, Clone, Copy, PartialEq, Eq, Structural)]
pub struct Limits {
    /// Maximum length in UTF-8 bytes.
    pub bytes: usize,
    /// Maximum length in UTF-16 code units.
    pub utf16: usize,
}

/// Does `s` satisfy both limits?
pub open spec fn fits_spec(s: Seq<char>, l: Limits) -> bool {
    byte_len(s) <= l.bytes && unit_len(s) <= l.utf16
}

/// The clusters kept from the front of `gs` while both running totals stay
/// within `bytes` and `units`, concatenated.
pub open spec fn keep_clusters(gs: Seq<Seq<char>>, bytes: int, units: int) -> Seq<char>
    decreases gs.len(),
{
    if gs.len() == 0 {
        Seq::empty()
    } else if byte_len(gs[0]) > bytes || unit_len(gs[0]) > units {
        Seq::empty()
    } else {
        gs[0] + keep_clusters(gs.drop_first(), bytes - byte_len(gs[0]), units - unit_len(gs[0]))
    }
}

/// The largest grapheme-cluster prefix of `s` that satisfies both limits.
pub open spec fn truncate_graphemes_spec(s: Seq<char>, l: Limits) -> Seq<char> {
    if fits_spec(s, l) {
        s
    } else {
        keep_clusters(extended_graphemes(s), l.bytes as int, l.utf16 as int)
    }
}

/// `l` with `ext`'s length taken off both fields (meaningful when `ext` is
/// shorter than both).
pub open spec fn reduced_limits(ext: Seq<char>, l: Limits) -> Limits {
    Limits { bytes: (l.bytes - byte_len(ext)) as usize, utf16: (l.utf16 - unit_len(ext)) as usize }
}

/// Truncation of `stem + ext`: unchanged when it fits; otherwise the stem is
/// shortened and the extension kept, when the extension leaves room and the
/// kept stem is not empty; otherwise the whole name is shortened as one unit.
pub open spec fn truncate_spec(stem: Seq<char>, ext: Seq<char>, l: Limits) -> (Seq<char>, bool) {
    let whole = stem + ext;
    if fits_spec(whole, l) {
        (whole, false)
    } else if byte_len(ext) < l.bytes && unit_len(ext) < l.utf16 && truncate_graphemes_spec(
        stem,
        reduced_limits(ext, l),
    ).len() > 0 {
        (truncate_graphemes_spec(stem, reduced_limits(ext, l)) + ext, true)
    } else {
        (truncate_graphemes_spec(whole, l), true)
    }
}

/// Index of the last `c` in `s`, or -1.
pub open spec fn rfind(s: Seq<char>, c: char) -> int
    decreases s.len(),
{
    if s.len() == 0 {
        -1
    } else if s.last() == c {
        s.len() - 1
    } else {
        rfind(s.drop_last(), c)
    }
}

/// Splitting off the extension: the last `.`-suffix, plus the preceding
/// segment when that segment is at most 4 UTF-8 bytes and is itself preceded
/// by a `.` that is not the name's first character (`.tar.gz`). A leading `.`
/// is never an extension.
pub open spec fn split_extension_spec(s: Seq<char>) -> (Seq<char>, Seq<char>) {
    let dot = rfind(s, '.');
    if dot <= 0 {
        (s, Seq::empty())
    } else {
        let prev = rfind(s.take(dot), '.');
        if prev > 0 && byte_len(s.subrange(prev + 1, dot)) <= 4 {
            (s.take(prev), s.skip(prev))
        } else {
            (s.take(dot), s.skip(dot))
        }
    }
}

pub proof fn lemma_rfind_bounds(s: Seq<char>, c: char)
    ensures
        -1 <= rfind(s, c) < s.len(),
        rfind(s, c) >= 0 ==> s[rfind(s, c)] == c,
        forall|i: int| rfind(s, c) < i < s.len() ==> s[i] != c,
    decreases s.len(),
{
    if s.len() > 0 && s.last() != c {
        lemma_rfind_bounds(s.drop_last(), c);
        assert forall|i: int| rfind(s, c) < i < s.len() implies s[i] != c by {
            if i < s.len() - 1 {
                assert(s.drop_last()[i] == s[i]);
            }
        }
    }
}

/// The two halves of a split put back together are the name.
pub proof fn lemma_split_extension_concat(s: Seq<char>)
    ensures
        split_extension_spec(s).0 + split_extension_spec(s).1 == s,
        s.len() > 0 ==> split_extension_spec(s).0.len() > 0,
{
    let dot = rfind(s, '.');
    lemma_rfind_bounds(s, '.');
    if dot <= 0 {
        assert(s + Seq::<char>::empty() =~= s);
    } else {
        let prev = rfind(s.take(dot), '.');
        lemma_rfind_bounds(s.take(dot), '.');
        if prev > 0 && byte_len(s.subrange(prev + 1, dot)) <= 4 {
            assert(s.take(prev) + s.skip(prev) =~= s);
        } else {
            assert(s.take(dot) + s.skip(dot) =~= s);
        }
    }
}

/// What a split gives: the halves put back together are the name; the
/// extension is empty or starts with `.` and holds no other `.` but at most
/// one more; it is empty exactly when the name has no `.` after its first
/// character; and a name that is not empty keeps a stem that is not empty.
pub proof fn law_split_extension(s: Seq<char>)
    ensures
        split_extension_spec(s).0 + split_extension_spec(s).1 == s,
        split_extension_spec(s).1.len() == 0 || split_extension_spec(s).1[0] == '.',
        forall|i: int, j: int|
            0 < i < j < split_extension_spec(s).1.len() ==> !(split_extension_spec(s).1[i] == '.'
                && split_extension_spec(s).1[j] == '.'),
        split_extension_spec(s).1.len() == 0 <==> (forall|i: int| 0 < i < s.len() ==> s[i] != '.'),
        s.len() > 0 ==> split_extension_spec(s).0.len() > 0,
{
    lemma_split_extension_concat(s);
    let dot = rfind(s, '.');
    lemma_rfind_bounds(s, '.');
    let ext = split_extension_spec(s).1;
    if dot > 0 {
        let prev = rfind(s.take(dot), '.');
        lemma_rfind_bounds(s.take(dot), '.');
        let start = if prev > 0 && byte_len(s.subrange(prev + 1, dot)) <= 4 {
            prev
        } else {
            dot
        };
        assert(ext =~= s.skip(start));
        assert forall|i: int, j: int| 0 < i < j < ext.len() implies !(ext[i] == '.' && ext[j]
            == '.') by {
            assert(ext[i] == s[start + i]);
            assert(ext[j] == s[start + j]);
            if start == prev && start + i < dot {
                assert(s.take(dot)[start + i] == s[start + i]);
            }
        }
        assert(s[dot] == '.');
    }
}

pub proof fn lemma_keep_clusters_unfold(gs: Seq<Seq<char>>, i: int, bytes: int, units: int)
    requires
        0 <= i < gs.len(),
    ensures
        keep_clusters(gs.skip(i), bytes, units) == (if byte_len(gs[i]) > bytes || unit_len(gs[i])
            > units {
            Seq::<char>::empty()
        } else {
            gs[i] + keep_clusters(
                gs.skip(i + 1),
                bytes - byte_len(gs[i]),
                units - unit_len(gs[i]),
            )
        }),
{
    assert(gs.skip(i)[0] == gs[i]);
    assert(gs.skip(i).drop_first() =~= gs.skip(i + 1));
}

/// What `keep_clusters` keeps fits the budget it was given and is a prefix
/// of the concatenated clusters.
pub proof fn lemma_keep_clusters_fits(gs: Seq<Seq<char>>, bytes: int, units: int)
    requires
        bytes >= 0,
        units >= 0,
    ensures
        byte_len(keep_clusters(gs, bytes, units)) <= bytes,
        unit_len(keep_clusters(gs, bytes, units)) <= units,
        keep_clusters(gs, bytes, units).len() <= gs.flatten().len(),
        gs.flatten().take(keep_clusters(gs, bytes, units).len() as int) == keep_clusters(
            gs,
            bytes,
            units,
        ),
    decreases gs.len(),
{
    if gs.len() > 0 && !(byte_len(gs[0]) > bytes || unit_len(gs[0]) > units) {
        let b2 = bytes - byte_len(gs[0]);
        let u2 = units - unit_len(gs[0]);
        lemma_keep_clusters_fits(gs.drop_first(), b2, u2);
        lemma_len_concat(gs[0], keep_clusters(gs.drop_first(), b2, u2));
        let k = keep_clusters(gs.drop_first(), b2, u2);
        assert(gs.flatten() == gs[0] + gs.drop_first().flatten());
        assert((gs[0] + gs.drop_first().flatten()).take((gs[0].len() + k.len()) as int) =~= gs[0]
            + k);
    } else {
        assert(gs.flatten().take(0) =~= Seq::<char>::empty());
    }
}

/// The first `k` clusters of `gs`, concatenated.
pub open spec fn cluster_prefix(gs: Seq<Seq<char>>, k: int) -> Seq<char> {
    gs.take(k).flatten()
}

/// What `keep_clusters` keeps is the longest run of whole clusters from the
/// front whose totals stay within the budget: `k` clusters, and `k + 1`
/// would not fit.
pub proof fn lemma_keep_clusters_longest(gs: Seq<Seq<char>>, bytes: int, units: int) -> (k: int)
    ensures
        0 <= k <= gs.len(),
        keep_clusters(gs, bytes, units) == cluster_prefix(gs, k),
        k < gs.len() ==> (byte_len(cluster_prefix(gs, k + 1)) > bytes || unit_len(
            cluster_prefix(gs, k + 1),
        ) > units),
    decreases gs.len(),
{
    if gs.len() == 0 {
        assert(gs.take(0) =~= Seq::<Seq<char>>::empty());
        0
    } else {
        let g0 = gs[0];
        assert(gs.take(1).drop_first() =~= Seq::<Seq<char>>::empty());
        assert(gs.take(1).flatten() == g0 + Seq::<Seq<char>>::empty().flatten());
        assert(g0 + Seq::<char>::empty() =~= g0);
        if byte_len(g0) > bytes || unit_len(g0) > units {
            assert(gs.take(0) =~= Seq::<Seq<char>>::empty());
            0
        } else {
            let rest = gs.drop_first();
            let b2 = bytes - byte_len(g0);
            let u2 = units - unit_len(g0);
            let k2 = lemma_keep_clusters_longest(rest, b2, u2);
            assert(gs.take(k2 + 1).drop_first() =~= rest.take(k2));
            assert(gs.take(k2 + 1)[0] == g0);
            if k2 < rest.len() {
                assert(gs.take(k2 + 2).drop_first() =~= rest.take(k2 + 1));
                assert(gs.take(k2 + 2)[0] == g0);
                lemma_len_concat(g0, cluster_prefix(rest, k2 + 1));
            }
            k2 + 1
        }
    }
}

/// Grapheme truncation keeps the longest run of whole clusters from the
/// front of `s` that fits both limits; a name that already fits comes back
/// whole. No cluster is ever split.
pub proof fn law_truncate_graphemes_longest_prefix(s: Seq<char>, l: Limits) -> (k: int)
    requires
        extended_graphemes(s).flatten() == s,
    ensures
        0 <= k <= extended_graphemes(s).len(),
        truncate_graphemes_spec(s, l) == cluster_prefix(extended_graphemes(s), k),
        fits_spec(cluster_prefix(extended_graphemes(s), k), l),
        k < extended_graphemes(s).len() ==> !fits_spec(cluster_prefix(extended_graphemes(s), k + 1), l),
        fits_spec(s, l) ==> truncate_graphemes_spec(s, l) == s,
{
    let gs = extended_graphemes(s);
    lemma_truncate_graphemes_prefix(s, l);
    if fits_spec(s, l) {
        assert(gs.take(gs.len() as int) =~= gs);
        gs.len() as int
    } else {
        lemma_keep_clusters_longest(gs, l.bytes as int, l.utf16 as int)
    }
}

/// Truncation of a stem and its extension: unchanged exactly when the whole
/// name fits; otherwise within both limits, and either the whole name
/// grapheme-truncated, or a non-empty run of whole clusters from the front of
/// the stem with the extension kept after it.
pub proof fn law_truncate(stem: Seq<char>, ext: Seq<char>, l: Limits)
    requires
        extended_graphemes(stem).flatten() == stem,
        extended_graphemes(stem + ext).flatten() == stem + ext,
    ensures
        fits_spec(truncate_spec(stem, ext, l).0, l),
        truncate_spec(stem, ext, l).1 == !fits_spec(stem + ext, l),
        !truncate_spec(stem, ext, l).1 ==> truncate_spec(stem, ext, l).0 == stem + ext,
        truncate_spec(stem, ext, l).1 ==> (truncate_spec(stem, ext, l).0 == truncate_graphemes_spec(
            stem + ext,
            l,
        ) || exists|k: int|
            0 < k <= extended_graphemes(stem).len() && #[trigger] cluster_prefix(
                extended_graphemes(stem),
                k,
            ).len() > 0 && truncate_spec(stem, ext, l).0 == cluster_prefix(
                extended_graphemes(stem),
                k,
            ) + ext),
{
    let whole = stem + ext;
    lemma_truncate_graphemes_prefix(whole, l);
    if !fits_spec(whole, l) && byte_len(ext) < l.bytes && unit_len(ext) < l.utf16 {
        let red = reduced_limits(ext, l);
        let kept = truncate_graphemes_spec(stem, red);
        if kept.len() > 0 {
            lemma_truncate_graphemes_prefix(stem, red);
            lemma_len_concat(kept, ext);
            let k = law_truncate_graphemes_longest_prefix(stem, red);
            if k == 0 {
                assert(extended_graphemes(stem).take(0) =~= Seq::<Seq<char>>::empty());
            }
            assert(cluster_prefix(extended_graphemes(stem), k).len() > 0);
        }
    }
}

/// The grapheme-truncated form of `s` fits the limits and is a prefix of `s`.
pub proof fn lemma_truncate_graphemes_prefix(s: Seq<char>, l: Limits)
    requires
        extended_graphemes(s).flatten() == s,
    ensures
        fits_spec(truncate_graphemes_spec(s, l), l),
        truncate_graphemes_spec(s, l).len() <= s.len(),
        s.take(truncate_graphemes_spec(s, l).len() as int) == truncate_graphemes_spec(s, l),
{
    if fits_spec(s, l) {
        assert(s.take(s.len() as int) =~= s);
    } else {
        let gs = extended_graphemes(s);
        lemma_keep_clusters_fits(gs, l.bytes as int, l.utf16 as int);
    }
}

/// A name has no more UTF-16 code units than UTF-8 bytes.
proof fn lemma_units_le_encoded(s: Seq<char>)
    ensures
        unit_len(s) <= vstd::utf8::encode_utf8(s).len(),
    decreases s.len(),
{
    if s.len() > 0 {
        lemma_units_le_encoded(s.drop_first());
        lemma_len_concat(seq![s[0]], s.drop_first());
        assert(s =~= seq![s[0]] + s.drop_first());
        assert(seq![s[0]].drop_last() =~= Seq::<char>::empty());
        assert(unit_len(Seq::<char>::empty()) == 0);
        assert(unit_len(seq![s[0]]) == utf16_width(s[0]));
        vstd::utf8::char_is_scalar(s[0]);
    }
}

/// Length in UTF-16 code units.
pub fn utf16_len(s: &str) -> (n: usize)
    ensures
        n == unit_len(s@),
{
    let b = s.as_bytes();
    let blen = b.len();
    proof {
        lemma_units_le_encoded(s@);
    }
    assert(unit_len(s@) <= blen);
    let v = chars_of(s);
    let (_, u) = lens_of(&v);
    u as usize
}

/// Does `s` satisfy both limits?
pub fn fits(s: &str, limits: &Limits) -> (r: bool)
    ensures
        r == fits_spec(s@, *limits),
{
    let v = chars_of(s);
    fits_chars(&v, limits)
}

pub fn fits_chars(s: &[char], limits: &Limits) -> (r: bool)
    ensures
        r == fits_spec(s@, *limits),
{
    let (b, u) = lens_of(s);
    b <= limits.bytes as u128 && u <= limits.utf16 as u128
}


/// [`truncate_graphemes`] over characters.
pub fn truncate_graphemes_chars(s: &[char], limits: &Limits) -> (r: Vec<char>)
    ensures
        r@ == truncate_graphemes_spec(s@, *limits),
        extended_graphemes(s@).flatten() == s@,
        fits_spec(r@, *limits),
        r@.len() <= s@.len(),
        s@.take(r@.len() as int) == r@,
{
    let gs = graphemes(s);
    proof {
        lemma_truncate_graphemes_prefix(s@, *limits);
    }
    if fits_chars(s, limits) {
        let r = chars_range(s, 0, s.len());
        assert(s@.subrange(0, s@.len() as int) =~= s@);
        return r;
    }
    let bmax = limits.bytes as u128;
    let umax = limits.utf16 as u128;
    let ghost g_all = views(gs@);
    let mut out: Vec<char> = Vec::new();
    let mut bytes: u128 = 0;
    let mut units: u128 = 0;
    let mut i: usize = 0;
    let mut stop = false;
    assert(g_all.skip(0) =~= g_all);
    while i < gs.len() && !stop
        invariant
            g_all == views(gs@),
            g_all == extended_graphemes(s@),
            0 <= i <= gs@.len(),
            bmax == limits.bytes,
            umax == limits.utf16,
            bytes <= bmax,
            units <= umax,
            keep_clusters(g_all, bmax as int, umax as int) == out@ + keep_clusters(
                g_all.skip(i as int),
                bmax - bytes,
                umax - units,
            ),
            stop ==> keep_clusters(g_all.skip(i as int), bmax - bytes, umax - units)
                == Seq::<char>::empty(),
        decreases gs@.len() - i + (if stop { 0int } else { 1int }),
    {
        let g = &gs[i];
        let (b, u) = lens_of(g);
        assert(b <= 4 * g@.len() && u <= 4 * g@.len() && g@.len() <= usize::MAX);
        proof {
            lemma_keep_clusters_unfold(g_all, i as int, bmax - bytes, umax - units);
            assert(g_all[i as int] == gs@[i as int]@);
        }
        if bytes + b > bmax || units + u > umax {
            stop = true;
        } else {
            let ghost old_out = out@;
            push_all(&mut out, g);
            bytes = bytes + b;
            units = units + u;
            i = i + 1;
            proof {
                assert(old_out + (g@ + keep_clusters(g_all.skip(i as int), bmax - bytes, umax
                    - units)) =~= out@ + keep_clusters(g_all.skip(i as int), bmax - bytes, umax
                    - units));
            }
        }
    }
    if !stop {
        assert(g_all.skip(i as int) =~= Seq::<Seq<char>>::empty());
        assert(out@ + Seq::<char>::empty() =~= out@);
    } else {
        assert(out@ + Seq::<char>::empty() =~= out@);
    }
    out
}

/// Largest prefix of `s` ending on a grapheme cluster boundary that satisfies
/// both limits.
pub fn truncate_graphemes(s: &str, limits: &Limits) -> (r: String)
    ensures
        r@ == truncate_graphemes_spec(s@, *limits),
        extended_graphemes(s@).flatten() == s@,
        fits_spec(r@, *limits),
        s@.take(r@.len() as int) == r@,
{
    let v = chars_of(s);
    let r = truncate_graphemes_chars(&v, limits);
    string_of(&r)
}

/// [`truncate`] over characters.
pub fn truncate_chars(stem: &[char], ext: &[char], limits: &Limits) -> (r: (Vec<char>, bool))
    ensures
        (r.0@, r.1) == truncate_spec(stem@, ext@, *limits),
        fits_spec(r.0@, *limits),
        r.0@.len() > 0 && stem@.len() > 0 ==> r.0@[0] == stem@[0],
        r.0@.len() <= stem@.len() + ext@.len(),
        r.0@ == (stem@ + ext@).take(r.0@.len() as int) || (r.0@.len() > ext@.len() && r.0@
            == stem@.take(r.0@.len() - ext@.len()) + ext@),
{
    let whole = concat_chars(stem, ext);
    if fits_chars(&whole, limits) {
        assert(whole@.take(whole@.len() as int) =~= whole@);
        return (whole, false);
    }
    let (eb, eu) = lens_of(ext);
    if eb < limits.bytes as u128 && eu < limits.utf16 as u128 {
        let reduced = Limits {
            bytes: (limits.bytes as u128 - eb) as usize,
            utf16: (limits.utf16 as u128 - eu) as usize,
        };
        assert(reduced == reduced_limits(ext@, *limits));
        let kept = truncate_graphemes_chars(stem, &reduced);
        if kept.len() > 0 {
            let out = concat_chars(&kept, ext);
            proof {
                lemma_len_concat(kept@, ext@);
                assert(out@[0] == kept@[0]);
                assert(kept@[0] == stem@.take(kept@.len() as int)[0]);
            }
            return (out, true);
        }
    }
    let cut = truncate_graphemes_chars(&whole, limits);
    proof {
        if cut@.len() > 0 && stem@.len() > 0 {
            assert(cut@[0] == whole@.take(cut@.len() as int)[0]);
            assert(whole@[0] == stem@[0]);
        }
    }
    (cut, true)
}

/// Truncate `stem` + `ext` to fit both limits, preserving the extension when
/// there is room for it. Returns the new name and whether anything was
/// dropped. When the extension does not fit, or keeping it would leave no stem
/// at all, the whole name is truncated as one unit instead.
pub fn truncate(stem: &str, ext: &str, limits: &Limits) -> (r: (String, bool))
    ensures
        (r.0@, r.1) == truncate_spec(stem@, ext@, *limits),
        fits_spec(r.0@, *limits),
{
    let s = chars_of(stem);
    let e = chars_of(ext);
    let (out, cut) = truncate_chars(&s, &e, limits);
    (string_of(&out), cut)
}

/// The index of the last `c` in `s`.
pub fn rfind_char(s: &[char], c: char) -> (r: Option<usize>)
    ensures
        match r {
            Some(i) => rfind(s@, c) == i,
            None => rfind(s@, c) == -1,
        },
{
    let mut i = s.len();
    assert(s@.take(i as int) =~= s@);
    while i > 0
        invariant
            0 <= i <= s@.len(),
            rfind(s@, c) == rfind(s@.take(i as int), c),
        decreases i,
    {
        if s[i - 1] == c {
            assert(s@.take(i as int).last() == s@[i - 1]);
            return Some(i - 1);
        }
        assert(s@.take(i as int).drop_last() =~= s@.take(i - 1));
        i -= 1;
    }
    None
}

/// [`split_extension`] over characters.
pub fn split_extension_chars(s: &[char]) -> (r: (Vec<char>, Vec<char>))
    ensures
        (r.0@, r.1@) == split_extension_spec(s@),
{
    proof {
        lemma_rfind_bounds(s@, '.');
    }
    let n = s.len();
    match rfind_char(s, '.') {
        None => {
            assert(s@.subrange(0, n as int) =~= s@);
            (chars_range(s, 0, n), Vec::new())
        },
        Some(dot) => {
            if dot == 0 {
                assert(s@.subrange(0, n as int) =~= s@);
                return (chars_range(s, 0, n), Vec::new());
            }
            let head = chars_range(s, 0, dot);
            assert(head@ =~= s@.take(dot as int));
            proof {
                lemma_rfind_bounds(head@, '.');
            }
            if let Some(prev) = rfind_char(&head, '.') {
                if prev > 0 {
                    let inner = chars_range(s, prev + 1, dot);
                    let (b, _) = lens_of(&inner);
                    if b <= 4 {
                        let stem = chars_range(s, 0, prev);
                        let ext = chars_range(s, prev, n);
                        assert(stem@ =~= s@.take(prev as int));
                        assert(ext@ =~= s@.skip(prev as int));
                        return (stem, ext);
                    }
                }
            }
            let ext = chars_range(s, dot, n);
            assert(ext@ =~= s@.skip(dot as int));
            (head, ext)
        },
    }
}

/// Split off the extension: the last `.`-suffix, plus the preceding segment
/// when that segment is at most 4 bytes of UTF-8 and is itself preceded by a
/// `.` (`.tar.gz`). A leading `.` is never an extension: `.bashrc` is a
/// dotfile, not a bare suffix.
pub fn split_extension(name: &str) -> (r: (String, String))
    ensures
        (r.0@, r.1@) == split_extension_spec(name@),
{
    let v = chars_of(name);
    let (stem, ext) = split_extension_chars(&v);
    (string_of(&stem), string_of(&ext))
}

} // verus!
