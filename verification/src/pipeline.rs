//! The transform pipeline.
//!
//! Stage 1 (decoding) happens before this module sees text at all. The linear
//! stages are normalization (3), invisible stripping (4), the safe map (7),
//! run collapsing (9) and trimming (10); then truncation (12) and a bounded
//! re-run to a fixed point (13). Each linear stage is its own function, and
//! [`run_with`] composes them under a [`StageMask`], so a disabled stage is
//! skipped rather than reimplemented.

use vstd::prelude::*;
use crate::classes::{CharClass, class_of, classify};
use crate::invisible::{invisible, is_invisible};
use crate::policy::Policy;
use crate::text::{chars_of, chars_range, chars_eq, string_of, push_all};
use crate::truncate::{
    Limits, fits_spec, split_extension_spec, truncate_spec, split_extension_chars, truncate_chars,
    lemma_split_extension_concat,
};
use crate::unicode::{nfc_of, nfc};

verus! {

/// A successful transform.
#[derive(Debug, Clone, PartialEq, Eq)]
pub struct Outcome {
    /// The cleaned name.
    pub text: String,
    /// Whether truncation shortened the name.
    pub truncated: bool,
}

/// Why there is no representable output.
#[derive(Debug, Clone, Copy, PartialEq, Eq, Structural)]
pub enum Unrepresentable {
    /// Nothing safe remained (`***`).
    ReducesToEmpty,
    /// The result would have been `.` or `..`.
    ReducesToDotOrDotDot,
    /// The fixed-point loop was still moving after its bound.
    NotConverged,
}

/// `transform`'s two outcomes. There is no fallback to the original text:
/// that would reintroduce exactly the characters the pipeline removes.
#[derive(Debug, Clone, PartialEq, Eq)]
pub enum TransformResult {
    /// A cleaned name.
    Name(Outcome),
    /// No name at all; the planner skips the entry and reports it.
    Unrepresentable(Unrepresentable),
}

/// The mathematical form of a [`TransformResult`].
pub enum TransformView {
    Name { text: Seq<char>, truncated: bool },
    Unrepresentable(Unrepresentable),
}

impl View for TransformResult {
    type V = TransformView;

    open spec fn view(&self) -> TransformView {
        match self {
            TransformResult::Name(o) => TransformView::Name { text: o.text@, truncated: o.truncated },
            TransformResult::Unrepresentable(r) => TransformView::Unrepresentable(*r),
        }
    }
}

/// Which linear stages to skip, as bits named by stage number.
#[derive(Debug, Clone, Copy, PartialEq, Eq, Structural)]
pub struct StageMask(pub u16);

/// No stage skipped: what `transform` uses.
pub const NONE: u16 = 0;
/// Stage 3, NFC normalization.
pub const NORMALIZE: u16 = 8;
/// Stage 4, invisible stripping.
pub const INVISIBLE: u16 = 16;
/// Stage 7, the safe map.
pub const SAFE_MAP: u16 = 128;
/// Stage 9, same-character run collapsing.
pub const COLLAPSE: u16 = 512;
/// Stage 10, trimming.
pub const TRIM: u16 = 1024;
/// Every linear stage. Truncation and the fixed-point loop are not maskable.
pub const ALL_LINEAR: u16 = 8 | 16 | 128 | 512 | 1024;

impl StageMask {
    /// Is any stage in `stage` among the skipped ones?
    pub open spec fn skips(self, stage: u16) -> bool {
        self.0 & stage != 0
    }

    /// Is any stage in `stage` among the skipped ones?
    pub fn has(self, stage: u16) -> (r: bool)
        ensures
            r == self.skips(stage),
    {
        self.0 & stage != 0
    }
}

// ---- the stages, as mathematics -------------------------------------------

/// Stage 4: every invisible character removed.
pub open spec fn strip_invisible_spec(s: Seq<char>) -> Seq<char>
    decreases s.len(),
{
    if s.len() == 0 {
        Seq::empty()
    } else if invisible(s.last()) {
        strip_invisible_spec(s.drop_last())
    } else {
        strip_invisible_spec(s.drop_last()).push(s.last())
    }
}

/// Stage 7: Delete-class characters removed, Separator-class characters
/// replaced by `sep`, Keep-class characters kept.
pub open spec fn safe_map_spec(s: Seq<char>, sep: char) -> Seq<char>
    decreases s.len(),
{
    if s.len() == 0 {
        Seq::empty()
    } else {
        let r = safe_map_spec(s.drop_last(), sep);
        match class_of(s.last()) {
            CharClass::Delete => r,
            CharClass::Separator => r.push(sep),
            CharClass::Keep => r.push(s.last()),
        }
    }
}

/// The characters whose runs collapse: `.`, `-`, `_` and the separator.
pub open spec fn collapsible(c: char, sep: char) -> bool {
    c == '.' || c == '-' || c == '_' || c == sep
}

/// Stage 9's first half: a run of one repeated collapsible character becomes
/// one. Runs of different characters are never merged.
pub open spec fn squeeze_spec(s: Seq<char>, sep: char) -> Seq<char>
    decreases s.len(),
{
    if s.len() == 0 {
        Seq::empty()
    } else {
        let r = squeeze_spec(s.drop_last(), sep);
        let c = s.last();
        if collapsible(c, sep) && r.len() > 0 && r.last() == c {
            r
        } else {
            r.push(c)
        }
    }
}

/// Stage 9's second half: is `q[i]` kept? A separator next to a `.` is not.
pub open spec fn kept_beside_dots(q: Seq<char>, sep: char, i: int) -> bool {
    !(q[i] == sep && sep != '.' && ((i > 0 && q[i - 1] == '.') || (i + 1 < q.len() && q[i + 1]
        == '.')))
}

/// The first `n` characters of `q`, minus the separators next to a `.`.
pub open spec fn drop_seps_beside_dots(q: Seq<char>, sep: char, n: int) -> Seq<char>
    decreases n,
{
    if n <= 0 {
        Seq::empty()
    } else if kept_beside_dots(q, sep, n - 1) {
        drop_seps_beside_dots(q, sep, n - 1).push(q[n - 1])
    } else {
        drop_seps_beside_dots(q, sep, n - 1)
    }
}

/// Stage 9.
pub open spec fn collapse_spec(s: Seq<char>, sep: char) -> Seq<char> {
    let q = squeeze_spec(s, sep);
    drop_seps_beside_dots(q, sep, q.len() as int)
}

/// Trimmed from the front: `.`, `-`, space, the separator.
pub open spec fn lead_trimmed(c: char, sep: char) -> bool {
    c == '.' || c == '-' || c == ' ' || c == sep
}

/// Trimmed from the back: `.`, space, the separator.
pub open spec fn tail_trimmed(c: char, sep: char) -> bool {
    c == '.' || c == ' ' || c == sep
}

pub open spec fn strip_lead(s: Seq<char>, sep: char) -> Seq<char>
    decreases s.len(),
{
    if s.len() > 0 && lead_trimmed(s[0], sep) {
        strip_lead(s.drop_first(), sep)
    } else {
        s
    }
}

pub open spec fn strip_tail(s: Seq<char>, sep: char) -> Seq<char>
    decreases s.len(),
{
    if s.len() > 0 && tail_trimmed(s.last(), sep) {
        strip_tail(s.drop_last(), sep)
    } else {
        s
    }
}

/// `k` dots.
pub open spec fn dots(k: nat) -> Seq<char> {
    Seq::new(k, |i: int| '.')
}

/// Stage 10: leading and trailing trim characters stripped, then exactly
/// `k` leading dots restored; empty when nothing survives.
pub open spec fn trim_spec(s: Seq<char>, sep: char, k: nat) -> Seq<char> {
    let body = strip_tail(strip_lead(s, sep), sep);
    if body.len() == 0 {
        Seq::empty()
    } else {
        dots(k) + body
    }
}

/// How many `.` the name starts with.
pub open spec fn leading_dots(s: Seq<char>) -> nat
    decreases s.len(),
{
    if s.len() > 0 && s[0] == '.' {
        1 + leading_dots(s.drop_first())
    } else {
        0
    }
}

/// The name past its leading invisible characters: what a reader sees first.
pub open spec fn past_invisibles(s: Seq<char>) -> Seq<char>
    decreases s.len(),
{
    if s.len() > 0 && invisible(s[0]) {
        past_invisibles(s.drop_first())
    } else {
        s
    }
}

/// How many leading dots trimming restores: the input's own run of leading
/// dots, counted past any leading invisible characters when stage 4 deletes
/// them (an invisible character in front of `.bashrc` does not make it any
/// less a dotfile).
pub open spec fn kept_dots(input: Seq<char>, m: StageMask) -> nat {
    if m.skips(INVISIBLE) {
        leading_dots(input)
    } else {
        leading_dots(past_invisibles(input))
    }
}

/// Stage 12 over a whole name: split the extension off, then truncate.
pub open spec fn apply_truncate_spec(text: Seq<char>, l: Limits) -> (Seq<char>, bool) {
    truncate_spec(split_extension_spec(text).0, split_extension_spec(text).1, l)
}

/// Stages 3, 4, 7, 9 and 10, each unless masked.
pub open spec fn linear_stages(input: Seq<char>, p: Policy, m: StageMask) -> Seq<char> {
    let sep = p.sep();
    let t1 = if m.skips(NORMALIZE) { input } else { nfc_of(input) };
    let t2 = if m.skips(INVISIBLE) { t1 } else { strip_invisible_spec(t1) };
    let t3 = if m.skips(SAFE_MAP) { t2 } else { safe_map_spec(t2, sep) };
    let t4 = if m.skips(COLLAPSE) { t3 } else { collapse_spec(t3, sep) };
    if m.skips(TRIM) { t4 } else { trim_spec(t4, sep, kept_dots(input, m)) }
}

/// One round of the fixed-point loop: stages 3, 9 and 10 (unless masked),
/// then truncation.
pub open spec fn loop_round(text: Seq<char>, p: Policy, m: StageMask, k: nat) -> (Seq<char>, bool) {
    let sep = p.sep();
    let t1 = if m.skips(NORMALIZE) { text } else { nfc_of(text) };
    let t2 = if m.skips(COLLAPSE) { t1 } else { collapse_spec(t1, sep) };
    let t3 = if m.skips(TRIM) { t2 } else { trim_spec(t2, sep, k) };
    apply_truncate_spec(t3, p.limits_spec())
}

/// Stage 13: re-run rounds until one leaves the text unchanged, at most
/// `fuel` rounds; `None` when it never settles.
pub open spec fn fixed_point(
    text: Seq<char>,
    truncated: bool,
    p: Policy,
    m: StageMask,
    k: nat,
    fuel: nat,
) -> Option<(Seq<char>, bool)>
    decreases fuel,
{
    if fuel == 0 {
        None
    } else {
        let next = loop_round(text, p, m, k);
        let tr = truncated || next.1;
        if next.0 == text {
            Some((text, tr))
        } else {
            fixed_point(next.0, tr, p, m, k, (fuel - 1) as nat)
        }
    }
}

/// The rounds the fixed-point loop may take.
pub open spec fn fixed_point_bound() -> nat {
    3
}

/// The verdict on a settled name.
pub open spec fn verdict(input: Seq<char>, text: Seq<char>, truncated: bool) -> TransformView {
    if text.len() == 0 {
        if input == seq!['.'] || input == seq!['.', '.'] {
            TransformView::Unrepresentable(Unrepresentable::ReducesToDotOrDotDot)
        } else {
            TransformView::Unrepresentable(Unrepresentable::ReducesToEmpty)
        }
    } else if text == seq!['.'] || text == seq!['.', '.'] {
        TransformView::Unrepresentable(Unrepresentable::ReducesToDotOrDotDot)
    } else {
        TransformView::Name { text, truncated }
    }
}

/// The whole pipeline with the stages in `m` skipped.
pub open spec fn run_with_spec(input: Seq<char>, p: Policy, m: StageMask) -> TransformView {
    let first = apply_truncate_spec(linear_stages(input, p, m), p.limits_spec());
    match fixed_point(first.0, first.1, p, m, kept_dots(input, m), fixed_point_bound()) {
        None => TransformView::Unrepresentable(Unrepresentable::NotConverged),
        Some(settled) => verdict(input, settled.0, settled.1),
    }
}

/// The pipeline `transform` runs: nothing skipped.
pub open spec fn transform_spec(input: Seq<char>, p: Policy) -> TransformView {
    run_with_spec(input, p, StageMask(NONE))
}

/// The text after `n` rounds of the fixed-point loop, starting from `t`.
pub open spec fn rounds(t: Seq<char>, p: Policy, m: StageMask, k: nat, n: nat) -> Seq<char>
    decreases n,
{
    if n == 0 {
        t
    } else {
        loop_round(rounds(t, p, m, k, (n - 1) as nat), p, m, k).0
    }
}

/// Over the first `n` rounds from `t`, NFC hands back Keep-class characters
/// only.
pub open spec fn nfc_keeps_safe(t: Seq<char>, p: Policy, m: StageMask, k: nat, n: nat) -> bool {
    forall|i: nat| i < n ==> all_keep(#[trigger] nfc_of(rounds(t, p, m, k, i)))
}

/// In every round of the fixed-point loop on `input`, NFC hands back
/// Keep-class characters only. The loop re-normalizes text the safe map has
/// already cleaned, so this is what keeps that cleaning intact.
pub open spec fn loop_nfc_keeps_safe(input: Seq<char>, p: Policy, m: StageMask) -> bool {
    let first = apply_truncate_spec(linear_stages(input, p, m), p.limits_spec()).0;
    nfc_keeps_safe(first, p, m, kept_dots(input, m), fixed_point_bound())
}

// ---- facts the laws rest on ----------------------------------------------

/// Every character is Keep-class: neither deleted nor replaced by the safe
/// map.
pub open spec fn all_keep(s: Seq<char>) -> bool {
    forall|i: int| 0 <= i < s.len() ==> class_of(#[trigger] s[i]) == CharClass::Keep
}

pub proof fn lemma_keep_take(s: Seq<char>, n: int)
    requires
        all_keep(s),
        0 <= n <= s.len(),
    ensures
        all_keep(s.take(n)),
{
    assert forall|i: int| 0 <= i < s.take(n).len() implies class_of(#[trigger] s.take(n)[i])
        == CharClass::Keep by {
        assert(s.take(n)[i] == s[i]);
    }
}

pub proof fn lemma_keep_skip(s: Seq<char>, n: int)
    requires
        all_keep(s),
        0 <= n <= s.len(),
    ensures
        all_keep(s.skip(n)),
{
    assert forall|i: int| 0 <= i < s.skip(n).len() implies class_of(#[trigger] s.skip(n)[i])
        == CharClass::Keep by {
        assert(s.skip(n)[i] == s[n + i]);
    }
}

pub proof fn lemma_keep_concat(a: Seq<char>, b: Seq<char>)
    requires
        all_keep(a),
        all_keep(b),
    ensures
        all_keep(a + b),
{
    assert forall|i: int| 0 <= i < (a + b).len() implies class_of(#[trigger] (a + b)[i])
        == CharClass::Keep by {
        if i < a.len() {
            assert((a + b)[i] == a[i]);
        } else {
            assert((a + b)[i] == b[i - a.len()]);
        }
    }
}

/// The safe map leaves only Keep-class characters, given a Keep-class
/// separator.
pub proof fn lemma_safe_map_keep(s: Seq<char>, sep: char)
    requires
        class_of(sep) == CharClass::Keep,
    ensures
        all_keep(safe_map_spec(s, sep)),
    decreases s.len(),
{
    if s.len() > 0 {
        lemma_safe_map_keep(s.drop_last(), sep);
        let r = safe_map_spec(s.drop_last(), sep);
        assert forall|i: int| 0 <= i < r.len() implies class_of(#[trigger] r.push(sep)[i])
            == CharClass::Keep && class_of(r.push(s.last())[i]) == CharClass::Keep by {
            assert(r.push(sep)[i] == r[i]);
            assert(r.push(s.last())[i] == r[i]);
        }
        let out = safe_map_spec(s, sep);
        assert forall|i: int| 0 <= i < out.len() implies class_of(#[trigger] out[i])
            == CharClass::Keep by {
            if i < r.len() {
                assert(class_of(r.push(sep)[i]) == CharClass::Keep);
            }
        }
    }
}

proof fn lemma_keep_drop_last(s: Seq<char>)
    requires
        all_keep(s),
        s.len() > 0,
    ensures
        all_keep(s.drop_last()),
        class_of(s.last()) == CharClass::Keep,
{
    lemma_keep_take(s, s.len() - 1);
    assert(s.take(s.len() - 1) =~= s.drop_last());
}

proof fn lemma_keep_push(s: Seq<char>, c: char)
    requires
        all_keep(s),
        class_of(c) == CharClass::Keep,
    ensures
        all_keep(s.push(c)),
{
    assert forall|i: int| 0 <= i < s.push(c).len() implies class_of(#[trigger] s.push(c)[i])
        == CharClass::Keep by {
        if i < s.len() {
            assert(s.push(c)[i] == s[i]);
        }
    }
}

pub proof fn lemma_squeeze_keep(s: Seq<char>, sep: char)
    requires
        all_keep(s),
    ensures
        all_keep(squeeze_spec(s, sep)),
    decreases s.len(),
{
    if s.len() > 0 {
        lemma_keep_drop_last(s);
        lemma_squeeze_keep(s.drop_last(), sep);
        lemma_keep_push(squeeze_spec(s.drop_last(), sep), s.last());
    }
}

pub proof fn lemma_drop_seps_keep(q: Seq<char>, sep: char, n: int)
    requires
        all_keep(q),
        0 <= n <= q.len(),
    ensures
        all_keep(drop_seps_beside_dots(q, sep, n)),
    decreases n,
{
    if n > 0 {
        lemma_drop_seps_keep(q, sep, n - 1);
        lemma_keep_push(drop_seps_beside_dots(q, sep, n - 1), q[n - 1]);
    }
}

/// Collapsing runs only removes characters.
pub proof fn lemma_collapse_keep(s: Seq<char>, sep: char)
    requires
        all_keep(s),
    ensures
        all_keep(collapse_spec(s, sep)),
{
    lemma_squeeze_keep(s, sep);
    let q = squeeze_spec(s, sep);
    lemma_drop_seps_keep(q, sep, q.len() as int);
}

proof fn lemma_strip_lead_keep(s: Seq<char>, sep: char)
    requires
        all_keep(s),
    ensures
        all_keep(strip_lead(s, sep)),
    decreases s.len(),
{
    if s.len() > 0 && lead_trimmed(s[0], sep) {
        lemma_keep_skip(s, 1);
        assert(s.skip(1) =~= s.drop_first());
        lemma_strip_lead_keep(s.drop_first(), sep);
    }
}

/// Trimming only removes characters and restores dots.
pub proof fn lemma_trim_keep(s: Seq<char>, sep: char, k: nat)
    requires
        all_keep(s),
    ensures
        all_keep(trim_spec(s, sep, k)),
{
    let l = strip_lead(s, sep);
    lemma_strip_lead_keep(s, sep);
    lemma_strip_tail_prefix(l, sep);
    let body = strip_tail(l, sep);
    lemma_keep_take(l, body.len() as int);
    assert(class_of('.') == CharClass::Keep);
    assert(all_keep(dots(k)));
    lemma_keep_concat(dots(k), body);
}

/// Squeezing keeps a name's first and last characters and never lengthens
/// it.
proof fn lemma_squeeze_ends(s: Seq<char>, sep: char)
    requires
        s.len() > 0,
    ensures
        squeeze_spec(s, sep).len() > 0,
        squeeze_spec(s, sep).len() <= s.len(),
        squeeze_spec(s, sep)[0] == s[0],
        squeeze_spec(s, sep).last() == s.last(),
    decreases s.len(),
{
    let r = squeeze_spec(s.drop_last(), sep);
    if s.len() == 1 {
        assert(s.drop_last() =~= Seq::<char>::empty());
        assert(r.len() == 0);
        assert(squeeze_spec(s, sep) =~= r.push(s.last()));
    } else {
        lemma_squeeze_ends(s.drop_last(), sep);
        assert(s.drop_last()[0] == s[0]);
        assert(r.push(s.last())[0] == r[0]);
    }
}

/// A run of dots squeezes to one.
pub proof fn lemma_squeeze_dots(j: nat, sep: char)
    requires
        j >= 1,
    ensures
        squeeze_spec(dots(j), sep) == seq!['.'],
    decreases j,
{
    assert(dots(j).drop_last() =~= dots((j - 1) as nat));
    assert(dots(j).last() == '.');
    let r = squeeze_spec(dots((j - 1) as nat), sep);
    if j > 1 {
        lemma_squeeze_dots((j - 1) as nat, sep);
        assert(r.last() == '.');
    } else {
        assert(dots((j - 1) as nat) =~= Seq::<char>::empty());
        assert(r.len() == 0);
        assert(r.push('.') =~= seq!['.']);
    }
}

/// A name that starts with `j` dots loses at least `j - 1` characters to
/// squeezing.
proof fn lemma_squeeze_lead_dots(j: nat, r: Seq<char>, sep: char)
    requires
        j >= 1,
    ensures
        squeeze_spec(dots(j) + r, sep).len() + j <= (dots(j) + r).len() + 1,
    decreases r.len(),
{
    if r.len() == 0 {
        assert(dots(j) + r =~= dots(j));
        lemma_squeeze_dots(j, sep);
    } else {
        assert((dots(j) + r).drop_last() =~= dots(j) + r.drop_last());
        lemma_squeeze_lead_dots(j, r.drop_last(), sep);
    }
}

/// Dropping separators beside dots never lengthens a name, and keeps a
/// first or last `.`.
proof fn lemma_drop_seps_ends(q: Seq<char>, sep: char, n: int)
    requires
        0 <= n <= q.len(),
    ensures
        drop_seps_beside_dots(q, sep, n).len() <= n,
        n > 0 && q[0] == '.' ==> drop_seps_beside_dots(q, sep, n).len() > 0 && drop_seps_beside_dots(
            q,
            sep,
            n,
        )[0] == '.',
        n > 0 && q[n - 1] == '.' ==> drop_seps_beside_dots(q, sep, n).len() > 0
            && drop_seps_beside_dots(q, sep, n).last() == '.',
    decreases n,
{
    if n > 0 {
        lemma_drop_seps_ends(q, sep, n - 1);
        if n == 1 {
            assert(drop_seps_beside_dots(q, sep, 0).len() == 0);
        }
    }
}

/// Collapsing keeps a first or last `.`, and shortens a name that starts
/// with `j` dots by at least `j - 1`.
pub proof fn lemma_collapse_ends(t: Seq<char>, sep: char, j: nat)
    requires
        t.len() > 0,
        j >= 1 ==> j <= t.len() && t.take(j as int) == dots(j),
    ensures
        collapse_spec(t, sep).len() <= t.len(),
        j >= 1 ==> collapse_spec(t, sep).len() + j <= t.len() + 1,
        t[0] == '.' ==> collapse_spec(t, sep).len() > 0 && collapse_spec(t, sep)[0] == '.',
        t.last() == '.' ==> collapse_spec(t, sep).len() > 0 && collapse_spec(t, sep).last() == '.',
{
    lemma_squeeze_ends(t, sep);
    let q = squeeze_spec(t, sep);
    lemma_drop_seps_ends(q, sep, q.len() as int);
    if j >= 1 {
        assert(t =~= dots(j) + t.skip(j as int));
        lemma_squeeze_lead_dots(j, t.skip(j as int), sep);
    }
}

/// What `strip_tail` leaves does not end with a tail-trimmed character.
pub proof fn lemma_strip_tail_last(s: Seq<char>, sep: char)
    ensures
        strip_tail(s, sep).len() > 0 ==> !tail_trimmed(strip_tail(s, sep).last(), sep),
    decreases s.len(),
{
    if s.len() > 0 && tail_trimmed(s.last(), sep) {
        lemma_strip_tail_last(s.drop_last(), sep);
    }
}

/// `strip_lead` keeps a suffix.
pub proof fn lemma_strip_lead_suffix(s: Seq<char>, sep: char)
    ensures
        strip_lead(s, sep).len() <= s.len(),
        strip_lead(s, sep) == s.skip(s.len() - strip_lead(s, sep).len()),
        s.len() > 0 && lead_trimmed(s[0], sep) ==> strip_lead(s, sep).len() < s.len(),
    decreases s.len(),
{
    if s.len() > 0 && lead_trimmed(s[0], sep) {
        lemma_strip_lead_suffix(s.drop_first(), sep);
        let t = strip_lead(s.drop_first(), sep);
        assert(s.drop_first().skip(s.drop_first().len() - t.len()) =~= s.skip(s.len() - t.len()));
    } else {
        assert(s.skip(0) =~= s);
    }
}

/// A trimmed name does not end with `.`.
proof fn lemma_trim_last(s: Seq<char>, sep: char, k: nat)
    ensures
        trim_spec(s, sep, k).len() > 0 ==> trim_spec(s, sep, k).last() != '.',
{
    let body = strip_tail(strip_lead(s, sep), sep);
    lemma_strip_tail_last(strip_lead(s, sep), sep);
    if body.len() > 0 {
        assert((dots(k) + body).last() == body.last());
    }
}

/// A settled name never ends with `.`: were it a prefix of what trimming its
/// own collapsed form gives, and ended with `.`, that trimmed form would be
/// shorter than it.
proof fn lemma_no_trailing_dot(t: Seq<char>, sep: char, k: nat)
    requires
        t.len() > 0,
        t.len() <= trim_spec(collapse_spec(t, sep), sep, k).len(),
        t == trim_spec(collapse_spec(t, sep), sep, k).take(t.len() as int),
    ensures
        t.last() != '.',
{
    if t.last() != '.' {
        return;
    }
    let c = collapse_spec(t, sep);
    let pre = trim_spec(c, sep, k);
    let l = strip_lead(c, sep);
    let body = strip_tail(l, sep);
    lemma_strip_lead_head(c, sep);
    lemma_strip_tail_prefix(l, sep);
    lemma_strip_tail_last(l, sep);
    lemma_strip_lead_suffix(c, sep);
    assert(body.len() > 0);
    assert(pre == dots(k) + body);
    assert(body[0] == l[0]);
    let n = t.len();
    if n == pre.len() {
        assert(t =~= pre);
        assert(pre.last() == body.last());
    } else if n <= k {
        assert(t =~= dots(n));
        assert(t.take(n as int) =~= t);
        lemma_collapse_ends(t, sep, n);
        lemma_squeeze_dots(n, sep);
        assert(c.len() <= 1);
        assert(c[0] == '.');
        assert(l.len() == 0);
    } else {
        assert(t[k as int] == body[0]);
        if k >= 1 {
            assert(t.take(k as int) =~= dots(k));
        }
        lemma_collapse_ends(t, sep, k);
        assert(c.last() == '.');
        assert(l.last() == c.last());
        assert(body.len() < l.len());
    }
}

/// `strip_tail` keeps a prefix.
pub proof fn lemma_strip_tail_prefix(s: Seq<char>, sep: char)
    ensures
        strip_tail(s, sep).len() <= s.len(),
        s.take(strip_tail(s, sep).len() as int) == strip_tail(s, sep),
    decreases s.len(),
{
    if s.len() > 0 && tail_trimmed(s.last(), sep) {
        lemma_strip_tail_prefix(s.drop_last(), sep);
        let t = strip_tail(s.drop_last(), sep);
        assert(s.take(t.len() as int) =~= s.drop_last().take(t.len() as int));
    } else {
        assert(s.take(s.len() as int) =~= s);
    }
}

/// What `strip_lead` leaves does not start with a lead-trimmed character.
pub proof fn lemma_strip_lead_head(s: Seq<char>, sep: char)
    ensures
        strip_lead(s, sep).len() > 0 ==> !lead_trimmed(strip_lead(s, sep)[0], sep),
    decreases s.len(),
{
    if s.len() > 0 && lead_trimmed(s[0], sep) {
        lemma_strip_lead_head(s.drop_first(), sep);
    }
}

/// The first character of a trimmed name: a `.` exactly when dots are
/// restored, and never `-` or a space.
pub open spec fn head_ok(t: Seq<char>, sep: char, k: nat) -> bool {
    t.len() > 0 ==> (t[0] != '-' && t[0] != ' ' && (t[0] == '.' <==> k > 0) && (k == 0 ==> t[0]
        != sep))
}

pub proof fn lemma_trim_head(s: Seq<char>, sep: char, k: nat)
    ensures
        head_ok(trim_spec(s, sep, k), sep, k),
{
    let l = strip_lead(s, sep);
    let body = strip_tail(l, sep);
    lemma_strip_lead_head(s, sep);
    lemma_strip_tail_prefix(l, sep);
    if body.len() > 0 {
        assert(body[0] == l.take(body.len() as int)[0]);
        let t = dots(k) + body;
        if k > 0 {
            assert(t[0] == '.');
        } else {
            assert(t[0] == body[0]);
        }
    }
}

pub proof fn lemma_leading_dots_head(s: Seq<char>)
    ensures
        leading_dots(s) > 0 <==> (s.len() > 0 && s[0] == '.'),
{
}

// ---- the stages, executable ----------------------------------------------

/// Stage 3: NFC.
pub fn normalize(s: &[char]) -> (r: Vec<char>)
    ensures
        r@ == nfc_of(s@),
{
    nfc(s)
}

/// Stage 4: delete the invisibles.
pub fn strip_invisible(s: &[char]) -> (r: Vec<char>)
    ensures
        r@ == strip_invisible_spec(s@),
{
    let mut out: Vec<char> = Vec::new();
    let mut i: usize = 0;
    while i < s.len()
        invariant
            0 <= i <= s@.len(),
            out@ == strip_invisible_spec(s@.take(i as int)),
        decreases s@.len() - i,
    {
        assert(s@.take(i + 1).drop_last() =~= s@.take(i as int));
        if !is_invisible(s[i]) {
            out.push(s[i]);
        }
        i += 1;
    }
    assert(s@.take(s@.len() as int) =~= s@);
    out
}

/// Stage 7: the safe map. Character classes, not a table.
pub fn safe_map(s: &[char], separator: char) -> (r: Vec<char>)
    ensures
        r@ == safe_map_spec(s@, separator),
{
    let mut out: Vec<char> = Vec::new();
    let mut i: usize = 0;
    while i < s.len()
        invariant
            0 <= i <= s@.len(),
            out@ == safe_map_spec(s@.take(i as int), separator),
        decreases s@.len() - i,
    {
        assert(s@.take(i + 1).drop_last() =~= s@.take(i as int));
        match classify(s[i]) {
            CharClass::Delete => {},
            CharClass::Separator => out.push(separator),
            CharClass::Keep => out.push(s[i]),
        }
        i += 1;
    }
    assert(s@.take(s@.len() as int) =~= s@);
    out
}

fn is_collapsible(c: char, separator: char) -> (r: bool)
    ensures
        r == collapsible(c, separator),
{
    c == '.' || c == '-' || c == '_' || c == separator
}

/// Stage 9: collapse a run of the same repeated character to one, for `.`,
/// `-`, `_` and the separator only, then drop separators next to a `.`.
/// Runs of different characters are never merged: `a_-_b` is unchanged.
pub fn collapse(s: &[char], separator: char) -> (r: Vec<char>)
    ensures
        r@ == collapse_spec(s@, separator),
{
    let mut q: Vec<char> = Vec::new();
    let mut i: usize = 0;
    while i < s.len()
        invariant
            0 <= i <= s@.len(),
            q@ == squeeze_spec(s@.take(i as int), separator),
        decreases s@.len() - i,
    {
        assert(s@.take(i + 1).drop_last() =~= s@.take(i as int));
        let c = s[i];
        let repeat = is_collapsible(c, separator) && q.len() > 0 && q[q.len() - 1] == c;
        if !repeat {
            q.push(c);
        }
        i += 1;
    }
    assert(s@.take(s@.len() as int) =~= s@);
    let mut out: Vec<char> = Vec::new();
    let mut j: usize = 0;
    while j < q.len()
        invariant
            0 <= j <= q@.len(),
            out@ == drop_seps_beside_dots(q@, separator, j as int),
        decreases q@.len() - j,
    {
        let c = q[j];
        let mut keep = true;
        if c == separator && c != '.' {
            let after_dot = j > 0 && q[j - 1] == '.';
            let before_dot = j + 1 < q.len() && q[j + 1] == '.';
            if after_dot || before_dot {
                keep = false;
            }
        }
        assert(keep == kept_beside_dots(q@, separator, j as int));
        if keep {
            out.push(c);
        }
        j += 1;
    }
    out
}

/// Stage 10: strip a leading `-`, leading and trailing separators, dots and
/// spaces, then restore exactly `leading_dots` leading dots. Empty when
/// nothing survives.
pub fn trim(s: &[char], separator: char, leading_dots: usize) -> (r: Vec<char>)
    ensures
        r@ == trim_spec(s@, separator, leading_dots as nat),
{
    let n = s.len();
    let mut a: usize = 0;
    assert(s@.skip(0) =~= s@);
    while a < n && (s[a] == '.' || s[a] == '-' || s[a] == ' ' || s[a] == separator)
        invariant
            0 <= a <= n == s@.len(),
            strip_lead(s@, separator) == strip_lead(s@.skip(a as int), separator),
        decreases n - a,
    {
        assert(s@.skip(a as int)[0] == s@[a as int]);
        assert(s@.skip(a as int).drop_first() =~= s@.skip(a + 1));
        a += 1;
    }
    proof {
        if a < n {
            assert(s@.skip(a as int)[0] == s@[a as int]);
        } else {
            assert(s@.skip(a as int) =~= Seq::<char>::empty());
        }
    }
    let mut e: usize = n;
    assert(s@.subrange(a as int, n as int) =~= s@.skip(a as int));
    while e > a && (s[e - 1] == '.' || s[e - 1] == ' ' || s[e - 1] == separator)
        invariant
            0 <= a <= e <= n == s@.len(),
            strip_tail(strip_lead(s@, separator), separator) == strip_tail(
                s@.subrange(a as int, e as int),
                separator,
            ),
        decreases e - a,
    {
        assert(s@.subrange(a as int, e as int).last() == s@[e - 1]);
        assert(s@.subrange(a as int, e as int).drop_last() =~= s@.subrange(a as int, e - 1));
        e -= 1;
    }
    proof {
        if e > a {
            assert(s@.subrange(a as int, e as int).last() == s@[e - 1]);
        }
    }
    if e == a {
        assert(s@.subrange(a as int, e as int) =~= Seq::<char>::empty());
        return Vec::new();
    }
    let mut out: Vec<char> = Vec::new();
    let mut i: usize = 0;
    while i < leading_dots
        invariant
            0 <= i <= leading_dots,
            out@ == dots(i as nat),
        decreases leading_dots - i,
    {
        out.push('.');
        i += 1;
        assert(out@ =~= dots(i as nat));
    }
    let body = chars_range(s, a, e);
    push_all(&mut out, &body);
    out
}

/// How many `.` the name starts with.
pub fn count_leading_dots(s: &[char]) -> (n: usize)
    ensures
        n == leading_dots(s@),
{
    let mut i: usize = 0;
    assert(s@.skip(0) =~= s@);
    while i < s.len() && s[i] == '.'
        invariant
            0 <= i <= s@.len(),
            leading_dots(s@) == i + leading_dots(s@.skip(i as int)),
        decreases s@.len() - i,
    {
        assert(s@.skip(i as int)[0] == s@[i as int]);
        assert(s@.skip(i as int).drop_first() =~= s@.skip(i + 1));
        i += 1;
    }
    proof {
        if i < s@.len() {
            assert(s@.skip(i as int)[0] == s@[i as int]);
        } else {
            assert(s@.skip(i as int) =~= Seq::<char>::empty());
        }
    }
    i
}

/// How many leading invisible characters the name starts with.
fn count_leading_invisibles(s: &[char]) -> (n: usize)
    ensures
        n <= s@.len(),
        past_invisibles(s@) == s@.skip(n as int),
{
    let mut i: usize = 0;
    assert(s@.skip(0) =~= s@);
    while i < s.len() && is_invisible(s[i])
        invariant
            0 <= i <= s@.len(),
            past_invisibles(s@) == past_invisibles(s@.skip(i as int)),
        decreases s@.len() - i,
    {
        assert(s@.skip(i as int)[0] == s@[i as int]);
        assert(s@.skip(i as int).drop_first() =~= s@.skip(i + 1));
        i += 1;
    }
    proof {
        if i < s@.len() {
            assert(s@.skip(i as int)[0] == s@[i as int]);
        } else {
            assert(s@.skip(i as int) =~= Seq::<char>::empty());
        }
    }
    i
}

/// How many leading dots trimming restores; see [`kept_dots`].
pub fn count_kept_dots(s: &[char], disabled: StageMask) -> (n: usize)
    ensures
        n == kept_dots(s@, disabled),
{
    if disabled.has(INVISIBLE) {
        count_leading_dots(s)
    } else {
        let k = count_leading_invisibles(s);
        let rest = chars_range(s, k, s.len());
        assert(rest@ =~= s@.skip(k as int));
        count_leading_dots(&rest)
    }
}

/// Stage 12 over a whole name: split the extension off, then truncate.
pub fn apply_truncate(text: &[char], limits: &Limits) -> (r: (Vec<char>, bool))
    ensures
        (r.0@, r.1) == apply_truncate_spec(text@, *limits),
        fits_spec(r.0@, *limits),
        r.0@.len() > 0 ==> text@.len() > 0 && r.0@[0] == text@[0],
        all_keep(text@) ==> all_keep(r.0@),
        r.0@.len() <= text@.len(),
        r.0@ == text@.take(r.0@.len() as int) || (r.0@.len() > 0 && text@.len() > 0 && r.0@.last()
            == text@.last()),
        r.0@ == text@.take(r.0@.len() as int) || ({
            let (stem, ext) = split_extension_spec(text@);
            &&& ext.len() > 0
            &&& ext[0] == '.'
            &&& ext.len() < r.0@.len()
            &&& r.0@ == stem.take(r.0@.len() - ext.len()) + ext
        }),
{
    let (stem, ext) = split_extension_chars(text);
    proof {
        lemma_split_extension_concat(text@);
        if stem@.len() > 0 {
            assert(text@[0] == (stem@ + ext@)[0]);
        }
    }
    let r = truncate_chars(&stem, &ext, limits);
    proof {
        if r.0@ != text@.take(r.0@.len() as int) {
            if ext@.len() == 0 {
                assert(stem@ =~= text@);
                assert(stem@ + ext@ =~= stem@);
                assert(r.0@ =~= stem@.take(r.0@.len() as int));
            } else {
                crate::truncate::law_split_extension(text@);
                let x = stem@.take(r.0@.len() - ext@.len());
                assert(r.0@ == x + ext@);
                assert((x + ext@).last() == ext@.last());
                assert((stem@ + ext@).last() == ext@.last());
            }
        }
        if all_keep(text@) {
            lemma_keep_take(text@, r.0@.len() as int);
            lemma_keep_take(text@, stem@.len() as int);
            assert(text@.take(stem@.len() as int) =~= stem@);
            assert(text@.skip(stem@.len() as int) =~= ext@);
            lemma_keep_skip(text@, stem@.len() as int);
            if r.0@ != text@.take(r.0@.len() as int) {
                lemma_keep_take(stem@, r.0@.len() - ext@.len());
                lemma_keep_concat(stem@.take(r.0@.len() - ext@.len()), ext@);
            }
        }
    }
    r
}

fn copy_chars(s: &[char]) -> (r: Vec<char>)
    ensures
        r@ == s@,
{
    let r = chars_range(s, 0, s.len());
    assert(s@.subrange(0, s@.len() as int) =~= s@);
    r
}

fn is_one_or_two_dots(s: &[char]) -> (r: bool)
    ensures
        r == (s@ == seq!['.'] || s@ == seq!['.', '.']),
{
    if s.len() == 1 {
        let r = s[0] == '.';
        assert(r ==> s@ =~= seq!['.']);
        r
    } else if s.len() == 2 {
        let r = s[0] == '.' && s[1] == '.';
        assert(r ==> s@ =~= seq!['.', '.']);
        r
    } else {
        false
    }
}

fn settle(input: &[char], text: Vec<char>, truncated: bool) -> (r: TransformResult)
    ensures
        r@ == verdict(input@, text@, truncated),
{
    if text.len() == 0 {
        if is_one_or_two_dots(input) {
            TransformResult::Unrepresentable(Unrepresentable::ReducesToDotOrDotDot)
        } else {
            TransformResult::Unrepresentable(Unrepresentable::ReducesToEmpty)
        }
    } else if is_one_or_two_dots(&text) {
        TransformResult::Unrepresentable(Unrepresentable::ReducesToDotOrDotDot)
    } else {
        TransformResult::Name(Outcome { text: string_of(&text), truncated })
    }
}

/// [`run_with`] over characters.
#[verifier::rlimit(40)]
pub fn run_with_chars(input: &[char], p: &Policy, disabled: StageMask) -> (r: TransformResult)
    ensures
        r@ == run_with_spec(input@, *p, disabled),
        r@ matches TransformView::Name { text, truncated } ==> fits_spec(text, p.limits_spec()),
        !disabled.skips(TRIM) ==> (r@ matches TransformView::Name { text, truncated } ==> head_ok(
            text,
            p.sep(),
            kept_dots(input@, disabled),
        )),
        p.wf() && !disabled.skips(SAFE_MAP) && loop_nfc_keeps_safe(input@, *p, disabled) ==> (
        r@ matches TransformView::Name { text, truncated } ==> all_keep(text)),
        !disabled.skips(COLLAPSE) && !disabled.skips(TRIM) ==> (r@ matches TransformView::Name {
            text,
            truncated,
        } ==> (disabled.skips(NORMALIZE) || nfc_of(text) == text ==> text.last() != '.')),
        disabled == StageMask(NONE) ==> (r@ matches TransformView::Name { text, truncated } ==> (
        nfc_of(text) == text ==> (leading_dots(text) == 1 <==> kept_dots(input@, disabled) == 1))),
        disabled == StageMask(NONE) ==> (r@ matches TransformView::Name { text, truncated } ==> (
        p.wf() && loop_nfc_keeps_safe(input@, *p, disabled) && nfc_of(text) == text && (forall|
            i: int,
        | 0 <= i < text.len() ==> !invisible(#[trigger] text[i])) ==> transform_spec(text, *p) == (
        TransformView::Name { text, truncated: false }))),
{
    let leading = count_kept_dots(input, disabled);
    let sep = p.separator();
    let limits = p.limits();
    let mut text = copy_chars(input);
    if !disabled.has(NORMALIZE) {
        text = normalize(&text);
    }
    if !disabled.has(INVISIBLE) {
        text = strip_invisible(&text);
    }
    if !disabled.has(SAFE_MAP) {
        text = safe_map(&text, sep);
    }
    if !disabled.has(COLLAPSE) {
        text = collapse(&text, sep);
    }
    if !disabled.has(TRIM) {
        let ghost before = text@;
        text = trim(&text, sep, leading);
        proof {
            lemma_trim_head(before, sep, leading as nat);
        }
    }
    assert(text@ == linear_stages(input@, *p, disabled));
    let ghost lin = text@;
    proof {
        if p.wf() && !disabled.skips(SAFE_MAP) {
            let t1 = if disabled.skips(NORMALIZE) { input@ } else { nfc_of(input@) };
            let t2 = if disabled.skips(INVISIBLE) { t1 } else { strip_invisible_spec(t1) };
            let t3 = safe_map_spec(t2, sep);
            lemma_safe_map_keep(t2, sep);
            lemma_collapse_keep(t3, sep);
            let t4 = if disabled.skips(COLLAPSE) { t3 } else { collapse_spec(t3, sep) };
            lemma_trim_keep(t4, sep, leading as nat);
        }
    }
    let (first, first_cut) = apply_truncate(&text, &limits);
    let ghost k = leading as nat;
    let ghost first_v = first@;
    assert(apply_truncate_spec(linear_stages(input@, *p, disabled), p.limits_spec()) == (
        first@,
        first_cut,
    ));
    proof {
        if !disabled.skips(TRIM) && first@.len() > 0 {
            assert(head_ok(lin, sep, k));
            assert(first@[0] == lin[0]);
        }
    }
    let mut text = first;
    let mut truncated = first_cut;
    let mut round: usize = 0;
    while round < 3
        invariant
            0 <= round <= 3,
            k == kept_dots(input@, disabled),
            k == leading as nat,
            apply_truncate_spec(linear_stages(input@, *p, disabled), p.limits_spec()) == (
                first_v,
                first_cut,
            ),
            sep == p.sep(),
            limits == p.limits_spec(),
            fixed_point(first_v, first_cut, *p, disabled, k, fixed_point_bound()) == fixed_point(
                text@,
                truncated,
                *p,
                disabled,
                k,
                (3 - round) as nat,
            ),
            fits_spec(text@, limits),
            !disabled.skips(TRIM) ==> head_ok(text@, sep, k),
            text@ == rounds(first_v, *p, disabled, k, round as nat),
            p.wf() && !disabled.skips(SAFE_MAP) && nfc_keeps_safe(
                first_v,
                *p,
                disabled,
                k,
                round as nat,
            ) ==> all_keep(text@),
        decreases 3 - round,
    {
        let ghost safe_now = p.wf() && !disabled.skips(SAFE_MAP) && nfc_keeps_safe(
            first_v,
            *p,
            disabled,
            k,
            (round + 1) as nat,
        );
        proof {
            if safe_now {
                assert(all_keep(nfc_of(rounds(first_v, *p, disabled, k, round as nat))));
                assert(nfc_keeps_safe(first_v, *p, disabled, k, round as nat));
            }
        }
        let mut next = copy_chars(&text);
        if !disabled.has(NORMALIZE) {
            next = normalize(&next);
        }
        if !disabled.has(COLLAPSE) {
            next = collapse(&next, sep);
        }
        if !disabled.has(TRIM) {
            let ghost before = next@;
            next = trim(&next, sep, leading);
            proof {
                lemma_trim_head(before, sep, k);
            }
        }
        let ghost pre = next@;
        proof {
            if safe_now {
                let t1 = if disabled.skips(NORMALIZE) { text@ } else { nfc_of(text@) };
                lemma_collapse_keep(t1, sep);
                let t2 = if disabled.skips(COLLAPSE) { t1 } else { collapse_spec(t1, sep) };
                lemma_trim_keep(t2, sep, k);
            }
        }
        let (next, cut) = apply_truncate(&next, &limits);
        assert((next@, cut) == loop_round(text@, *p, disabled, k));
        proof {
            if !disabled.skips(TRIM) && next@.len() > 0 {
                assert(next@[0] == pre[0]);
            }
        }
        let tr = truncated || cut;
        if chars_eq(&next, &text) {
            proof {
                if !disabled.skips(COLLAPSE) && !disabled.skips(TRIM) && text@.len() > 0 && (
                disabled.skips(NORMALIZE) || nfc_of(text@) == text@) {
                    assert(pre == trim_spec(collapse_spec(text@, sep), sep, k));
                    if next@ == pre.take(next@.len() as int) {
                        lemma_no_trailing_dot(text@, sep, k);
                    } else {
                        lemma_trim_last(collapse_spec(text@, sep), sep, k);
                    }
                }
                if disabled == StageMask(NONE) && nfc_of(text@) == text@ && text@.len() > 0
                    && text@ != seq!['.'] && text@ != seq!['.', '.'] {
                    assert(!StageMask(NONE).skips(NORMALIZE)) by (bit_vector);
                    assert(!StageMask(NONE).skips(COLLAPSE)) by (bit_vector);
                    assert(!StageMask(NONE).skips(TRIM)) by (bit_vector);
                    let (stem, ext) = split_extension_spec(pre);
                    lemma_split_extension_concat(pre);
                    crate::transform_laws::lemma_settled_retrims(text@, sep, k, stem, ext);
                }
                if disabled == StageMask(NONE) && p.wf() && loop_nfc_keeps_safe(input@, *p, disabled)
                    && nfc_of(text@) == text@ && (forall|i: int|
                    0 <= i < text@.len() ==> !invisible(#[trigger] text@[i])) && text@.len() > 0
                    && text@ != seq!['.'] && text@ != seq!['.', '.'] {
                    assert(!StageMask(NONE).skips(NORMALIZE)) by (bit_vector);
                    assert(!StageMask(NONE).skips(SAFE_MAP)) by (bit_vector);
                    assert(!StageMask(NONE).skips(COLLAPSE)) by (bit_vector);
                    assert(!StageMask(NONE).skips(TRIM)) by (bit_vector);
                    assert(nfc_keeps_safe(first_v, *p, disabled, k, round as nat));
                    crate::transform_laws::lemma_settled_is_kept(text@, *p, k, pre);
                }
            }
            assert(fixed_point(text@, truncated, *p, disabled, k, (3 - round) as nat) == Some(
                (text@, tr),
            ));
            assert(fixed_point(first_v, first_cut, *p, disabled, kept_dots(input@, disabled), fixed_point_bound()) == Some((text@, tr)));
            assert(run_with_spec(input@, *p, disabled) == verdict(input@, text@, tr));
            return settle(input, text, tr);
        }
        text = next;
        truncated = tr;
        round += 1;
    }
    TransformResult::Unrepresentable(Unrepresentable::NotConverged)
}

/// The pipeline with the stages in `disabled` skipped. [`transform`] is this
/// with nothing disabled.
pub fn run_with(input: &str, p: &Policy, disabled: StageMask) -> (r: TransformResult)
    ensures
        r@ == run_with_spec(input@, *p, disabled),
{
    let v = chars_of(input);
    run_with_chars(&v, p, disabled)
}

/// Transform a decoded name. Pure: no path, no directory, no other file.
///
/// Beyond computing exactly [`transform_spec`], a name that comes back is
/// never empty, `.` or `..`; fits both of the policy's limits; never starts
/// with `-` or a space; and starts with `.` exactly when the input does, past
/// any leading invisible characters, so a dotfile stays one and no dotfile is
/// manufactured. Every character it keeps is Keep-class (no control and no
/// separator-class character, a space among them, survives), so long as the
/// policy's separator is Keep-class and NFC, re-applied in the fixed-point
/// rounds, hands back Keep-class characters only. A name that NFC leaves as
/// it is never ends with `.`, and starts with exactly one `.` exactly when
/// the input does past its leading invisible characters: a dotfile is
/// neither made nor unmade.
///
/// Transforming is idempotent: under those same two conditions, a name that
/// comes back, that NFC leaves as it is and that holds no invisible
/// character, is its own transform, unshortened.
pub fn transform(input: &str, p: &Policy) -> (r: TransformResult)
    ensures
        r@ == transform_spec(input@, *p),
        r@ matches TransformView::Name { text, truncated } ==> {
            &&& text != Seq::<char>::empty()
            &&& text != seq!['.']
            &&& text != seq!['.', '.']
            &&& fits_spec(text, p.limits_spec())
            &&& text[0] != '-'
            &&& text[0] != ' '
            &&& (text[0] == '.' <==> (past_invisibles(input@).len() > 0 && past_invisibles(
                input@,
            )[0] == '.'))
            &&& (p.wf() && loop_nfc_keeps_safe(input@, *p, StageMask(NONE)) ==> all_keep(text))
            &&& (nfc_of(text) == text ==> text.last() != '.')
            &&& (nfc_of(text) == text ==> (leading_dots(text) == 1 <==> leading_dots(
                past_invisibles(input@),
            ) == 1))
            &&& (p.wf() && loop_nfc_keeps_safe(input@, *p, StageMask(NONE)) && nfc_of(text) == text
                && (forall|i: int| 0 <= i < text.len() ==> !invisible(#[trigger] text[i]))
                ==> transform_spec(text, *p) == (TransformView::Name { text, truncated: false }))
        },
{
    let v = chars_of(input);
    let r = run_with_chars(&v, p, StageMask(NONE));
    proof {
        lemma_leading_dots_head(past_invisibles(input@));
        assert(!StageMask(NONE).skips(TRIM)) by (bit_vector);
        assert(!StageMask(NONE).skips(INVISIBLE)) by (bit_vector);
        assert(!StageMask(NONE).skips(SAFE_MAP)) by (bit_vector);
        assert(!StageMask(NONE).skips(COLLAPSE)) by (bit_vector);
    }
    r
}

} // verus!
