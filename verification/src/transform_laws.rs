//! What re-running [`transform`](crate::pipeline::transform) on its own
//! output gives, proved over [`transform_spec`].

use vstd::prelude::*;
use crate::classes::{CharClass, class_of};
use crate::invisible::invisible;
use crate::pipeline::{
    StageMask, TransformView, NONE, NORMALIZE, INVISIBLE, SAFE_MAP, COLLAPSE, TRIM, all_keep,
    apply_truncate_spec, collapse_spec, dots, fixed_point, fixed_point_bound, kept_dots,
    lead_trimmed, leading_dots, linear_stages, loop_nfc_keeps_safe, loop_round, nfc_keeps_safe,
    past_invisibles, rounds, run_with_spec, safe_map_spec, strip_invisible_spec, strip_lead,
    strip_tail, transform_spec, trim_spec, verdict, lemma_collapse_keep, lemma_safe_map_keep,
    lemma_strip_lead_head, lemma_strip_tail_prefix, lemma_trim_keep, lemma_collapse_ends,
    lemma_squeeze_dots, lemma_strip_lead_suffix,
};
use crate::policy::Policy;
use crate::truncate::{fits_spec, split_extension_spec, truncate_spec, lemma_split_extension_concat};
use crate::unicode::nfc_of;

verus! {

/// Text with no invisible character comes through stage 4 unchanged.
proof fn lemma_strip_invisible_id(s: Seq<char>)
    requires
        forall|i: int| 0 <= i < s.len() ==> !invisible(#[trigger] s[i]),
    ensures
        strip_invisible_spec(s) == s,
    decreases s.len(),
{
    if s.len() > 0 {
        let d = s.drop_last();
        assert forall|i: int| 0 <= i < d.len() implies !invisible(#[trigger] d[i]) by {
            assert(d[i] == s[i]);
        }
        lemma_strip_invisible_id(d);
        assert(d.push(s.last()) =~= s);
    }
}

/// Keep-class text comes through the safe map unchanged.
proof fn lemma_safe_map_id(s: Seq<char>, sep: char)
    requires
        all_keep(s),
    ensures
        safe_map_spec(s, sep) == s,
    decreases s.len(),
{
    if s.len() > 0 {
        let d = s.drop_last();
        assert forall|i: int| 0 <= i < d.len() implies class_of(#[trigger] d[i]) == CharClass::Keep by {
            assert(d[i] == s[i]);
        }
        lemma_safe_map_id(d, sep);
        assert(class_of(s[s.len() - 1]) == CharClass::Keep);
        assert(d.push(s.last()) =~= s);
    }
}

/// `k` dots before a character that is not a dot are `k` leading dots.
proof fn lemma_leading_dots_of(k: nat, body: Seq<char>)
    requires
        body.len() > 0,
        body[0] != '.',
    ensures
        leading_dots(dots(k) + body) == k,
    decreases k,
{
    if k == 0 {
        assert(dots(0) + body =~= body);
    } else {
        assert((dots(k) + body).drop_first() =~= dots((k - 1) as nat) + body);
        lemma_leading_dots_of((k - 1) as nat, body);
    }
}

/// A name starts with its run of leading dots, and what follows is no dot.
pub proof fn lemma_leading_dots_take(s: Seq<char>)
    ensures
        leading_dots(s) <= s.len(),
        s.take(leading_dots(s) as int) == dots(leading_dots(s)),
        leading_dots(s) < s.len() ==> s[leading_dots(s) as int] != '.',
    decreases s.len(),
{
    if s.len() > 0 && s[0] == '.' {
        let d = s.drop_first();
        lemma_leading_dots_take(d);
        let j = leading_dots(d) as int;
        assert forall|i: int| 0 <= i < j + 1 implies #[trigger] s.take(j + 1)[i] == dots(
            (j + 1) as nat,
        )[i] by {
            if i > 0 {
                assert(s[i] == d[i - 1]);
                assert(d.take(j)[i - 1] == d[i - 1]);
            }
        }
        assert(s.take(j + 1) =~= dots((j + 1) as nat));
        if j + 1 < s.len() {
            assert(s[j + 1] == d[j]);
        }
    } else {
        assert(s.take(0) =~= dots(0));
    }
}

/// A name that starts with `a` dots has at least `a` leading dots.
proof fn lemma_leading_dots_at_least(s: Seq<char>, a: nat)
    requires
        a <= s.len(),
        s.take(a as int) == dots(a),
    ensures
        leading_dots(s) >= a,
    decreases a,
{
    if a > 0 {
        assert(s[0] == s.take(a as int)[0]);
        let d = s.drop_first();
        assert forall|i: int| 0 <= i < a - 1 implies #[trigger] d.take(a - 1)[i] == dots(
            (a - 1) as nat,
        )[i] by {
            assert(d[i] == s[i + 1]);
            assert(s.take(a as int)[i + 1] == s[i + 1]);
        }
        assert(d.take(a - 1) =~= dots((a - 1) as nat));
        lemma_leading_dots_at_least(d, (a - 1) as nat);
    }
}

/// What trimming keeps of a collapsed name: its body between the restored
/// dots and the stripped tail.
pub open spec fn trimmed_body(t: Seq<char>, sep: char) -> Seq<char> {
    strip_tail(strip_lead(collapse_spec(t, sep), sep), sep)
}

/// How long a trimmed, collapsed name can be: no longer than the name, less
/// its own leading dots, plus the dots restored.
proof fn lemma_retrim_len(t: Seq<char>, sep: char, k: nat)
    requires
        t.len() > 0,
        t[0] == '.' <==> k > 0,
    ensures
        trimmed_body(t, sep).len() + leading_dots(t) <= t.len(),
        trimmed_body(t, sep).len() > 0 ==> !lead_trimmed(trimmed_body(t, sep)[0], sep),
        trim_spec(collapse_spec(t, sep), sep, k) == (if trimmed_body(t, sep).len() == 0 {
            Seq::<char>::empty()
        } else {
            dots(k) + trimmed_body(t, sep)
        }),
{
    let c = collapse_spec(t, sep);
    let l = strip_lead(c, sep);
    let body = strip_tail(l, sep);
    let j = leading_dots(t);
    lemma_leading_dots_take(t);
    lemma_strip_lead_head(c, sep);
    lemma_strip_tail_prefix(l, sep);
    lemma_strip_lead_suffix(c, sep);
    lemma_collapse_ends(t, sep, j);
    if body.len() > 0 {
        assert(body[0] == l.take(body.len() as int)[0]);
    }
    if j >= 1 {
        assert(t[0] == t.take(j as int)[0]);
    }
}

/// The settled name is its own trimmed, collapsed form, with its own leading
/// dots restored: whether the last round kept a prefix of that form, or a
/// prefix of its stem with its extension after it.
pub proof fn lemma_settled_retrims(
    t: Seq<char>,
    sep: char,
    k: nat,
    stem: Seq<char>,
    ext: Seq<char>,
)
    requires
        t.len() > 0,
        t != seq!['.'],
        t != seq!['.', '.'],
        t[0] == '.' <==> k > 0,
        stem + ext == trim_spec(collapse_spec(t, sep), sep, k),
        (t.len() <= (stem + ext).len() && t == (stem + ext).take(t.len() as int)) || (ext.len() > 0
            && ext[0] == '.' && ext.len() < t.len() <= stem.len() + ext.len() && t == stem.take(
            t.len() - ext.len(),
        ) + ext),
    ensures
        trim_spec(collapse_spec(t, sep), sep, leading_dots(t)) == t,
        leading_dots(t) == k || 2 <= leading_dots(t) < k,
{
    let m_all = stem + ext;
    let body = trimmed_body(t, sep);
    let j = leading_dots(t);
    let n = t.len();
    lemma_retrim_len(t, sep, k);
    lemma_retrim_len(t, sep, j);
    lemma_leading_dots_take(t);
    if j >= 1 {
        assert(t[0] == t.take(j as int)[0]);
    }
    if n <= m_all.len() && t == m_all.take(n as int) {
        assert(body.len() > 0);
        assert(m_all == dots(k) + body);
        if n <= k {
            assert(t =~= dots(n as nat));
            assert(t.take(n as int) =~= t);
            lemma_collapse_ends(t, sep, n as nat);
            lemma_squeeze_dots(n as nat, sep);
            assert(n >= 3) by {
                if n == 1 {
                    assert(t =~= seq!['.']);
                } else if n == 2 {
                    assert(t =~= seq!['.', '.']);
                }
            }
            lemma_strip_lead_suffix(collapse_spec(t, sep), sep);
            assert(false);
        } else {
            assert(t[k as int] == body[0]);
            assert(t.take(k as int) =~= dots(k));
            lemma_leading_dots_at_least(t, k);
            assert(j == k);
            assert(t =~= m_all);
        }
    } else {
        let m = n - ext.len();
        let d = stem.len() as int;
        assert(t == stem.take(m) + ext);
        if m == d {
            assert(stem.take(m) =~= stem);
            assert(m_all.take(n as int) =~= m_all);
            assert(false);
        }
        assert(body.len() > 0);
        assert(m_all == dots(k) + body);
        assert(j < k);
        assert(j >= 1);
        assert forall|i: int| 0 <= i < m implies #[trigger] stem.take(m)[i] == m_all[i] by {
            assert(m_all[i] == stem[i]);
        }
        if m >= k {
            assert forall|i: int| 0 <= i < k implies #[trigger] t.take(k as int)[i] == dots(k)[i] by {
                assert(t[i] == stem.take(m)[i]);
                assert(m_all[i] == (dots(k) + body)[i]);
            }
            assert(t.take(k as int) =~= dots(k));
            lemma_leading_dots_at_least(t, k);
            assert(false);
        }
        assert(stem.take(m) =~= dots(m as nat)) by {
            assert forall|i: int| 0 <= i < m implies #[trigger] stem.take(m)[i] == dots(m as nat)[i] by {
                assert(m_all[i] == (dots(k) + body)[i]);
            }
        }
        if d <= k {
            if d == k {
                assert(ext[0] == m_all[d]);
                assert(m_all[d] == (dots(k) + body)[d]);
                assert(false);
            }
            assert(ext =~= dots((k - d) as nat) + body) by {
                assert forall|i: int| 0 <= i < ext.len() implies #[trigger] ext[i] == (dots((k - d) as nat)
                    + body)[i] by {
                    assert(ext[i] == m_all[d + i]);
                    assert(m_all[d + i] == (dots(k) + body)[d + i]);
                }
            }
            assert(t =~= dots((m + k - d) as nat) + body);
            lemma_leading_dots_of((m + k - d) as nat, body);
        } else {
            assert(ext[0] == '.');
            assert(t.take(m + 1) =~= dots((m + 1) as nat)) by {
                assert forall|i: int| 0 <= i < m + 1 implies #[trigger] t.take(m + 1)[i] == dots(
                    (m + 1) as nat,
                )[i] by {
                    if i < m {
                        assert(t[i] == stem.take(m)[i]);
                    } else {
                        assert(t[i] == ext[0]);
                    }
                }
            }
            lemma_leading_dots_at_least(t, (m + 1) as nat);
            assert(ext.len() == m_all.len() - d);
            assert(false);
        }
    }
}

/// A name that fits comes through truncation whole.
proof fn lemma_fits_untouched(s: Seq<char>, p: Policy)
    requires
        fits_spec(s, p.limits_spec()),
    ensures
        apply_truncate_spec(s, p.limits_spec()) == (s, false),
{
    lemma_split_extension_concat(s);
}

/// A name that is already clean -- in NFC, free of invisible characters,
/// Keep-class throughout, within the limits, and its own trimmed, collapsed
/// form under its own leading dots -- comes through the pipeline unchanged
/// and unshortened.
pub proof fn lemma_clean_name_is_kept(t: Seq<char>, p: Policy)
    requires
        t.len() > 0,
        t != seq!['.'],
        t != seq!['.', '.'],
        nfc_of(t) == t,
        forall|i: int| 0 <= i < t.len() ==> !invisible(#[trigger] t[i]),
        all_keep(t),
        fits_spec(t, p.limits_spec()),
        trim_spec(collapse_spec(t, p.sep()), p.sep(), leading_dots(t)) == t,
    ensures
        transform_spec(t, p) == (TransformView::Name { text: t, truncated: false }),
{
    let m = StageMask(NONE);
    assert(!StageMask(NONE).skips(NORMALIZE)) by (bit_vector);
    assert(!StageMask(NONE).skips(INVISIBLE)) by (bit_vector);
    assert(!StageMask(NONE).skips(SAFE_MAP)) by (bit_vector);
    assert(!StageMask(NONE).skips(COLLAPSE)) by (bit_vector);
    assert(!StageMask(NONE).skips(TRIM)) by (bit_vector);
    let sep = p.sep();
    assert(!invisible(t[0]));
    assert(past_invisibles(t) == t);
    let k = kept_dots(t, m);
    assert(k == leading_dots(t));
    lemma_strip_invisible_id(t);
    lemma_safe_map_id(t, sep);
    assert(linear_stages(t, p, m) == t);
    lemma_fits_untouched(t, p);
    assert(loop_round(t, p, m, k) == (t, false));
    assert(fixed_point(t, false, p, m, k, fixed_point_bound()) == Some((t, false)));
}

/// The fixed-point loop's last round on a settled name `t`: `pre` is `t`
/// normalized, collapsed and trimmed with `k` dots, and truncating `pre`
/// gave `t` back. If `t` is clean in every other way, transforming it again
/// gives it back unchanged and unshortened.
pub proof fn lemma_settled_is_kept(t: Seq<char>, p: Policy, k: nat, pre: Seq<char>)
    requires
        t.len() > 0,
        t != seq!['.'],
        t != seq!['.', '.'],
        t[0] == '.' <==> k > 0,
        nfc_of(t) == t,
        forall|i: int| 0 <= i < t.len() ==> !invisible(#[trigger] t[i]),
        all_keep(t),
        fits_spec(t, p.limits_spec()),
        pre == trim_spec(collapse_spec(nfc_of(t), p.sep()), p.sep(), k),
        t.len() <= pre.len(),
        t == pre.take(t.len() as int) || ({
            let (stem, ext) = split_extension_spec(pre);
            &&& ext.len() > 0
            &&& ext[0] == '.'
            &&& ext.len() < t.len()
            &&& t == stem.take(t.len() - ext.len()) + ext
        }),
    ensures
        transform_spec(t, p) == (TransformView::Name { text: t, truncated: false }),
{
    let (stem, ext) = split_extension_spec(pre);
    lemma_split_extension_concat(pre);
    lemma_settled_retrims(t, p.sep(), k, stem, ext);
    lemma_clean_name_is_kept(t, p);
}

} // verus!
