//! What every plan guarantees, proved over [`plan_spec`].
//!
//! Each law is a proof function whose parameters are the law's inputs: a
//! snapshot, the policy and the two switches, the plan it comes to, and the
//! positions the law speaks of.

use vstd::prelude::*;
use vstd::utf8::{
    valid_utf8, decode_utf8, encode_utf8, encode_utf8_valid_utf8, encode_utf8_decode_utf8,
};
use crate::order::{
    lex_lt, lemma_lex_asym, distinct_keys, is_sorted_perm, lemma_sorted_perm_exists,
};
use crate::plan::{
    Conflict, DesiredView, DirIdent, Entry, EntryView, ItemView, NameKey, OnCollision, PartView,
    PlanView, Resolution, VolumeCase, apply_order, arranged, base_key, count_in, decide_spec,
    enc_bytes, enc_dir, enc_key, enc_part, enc_parts,
    conflicts_of, decisions, desired_of, entry_views, has_chain, is_fixed_point_spec, is_free_spec, item_of,
    key_of_name_spec, key_of_text_spec, occupancy, plan_spec, planned_entries, planned_items,
    probe_spec, sort_key_spec, sort_keys, take_spec, want_slots,
};
use crate::policy::Policy;

verus! {

// ---- how decisions accumulate ------------------------------------------------

/// One item per entry, each decided once and never revised.
proof fn lemma_decisions_index(
    es: Seq<EntryView>,
    ds: Seq<DesiredView>,
    p: Policy,
    oc: OnCollision,
    case: VolumeCase,
    n: nat,
)
    ensures
        decisions(es, ds, p, oc, case, n).0.len() == n,
        forall|i: int|
            0 <= i < n ==> #[trigger] decisions(es, ds, p, oc, case, n).0[i] == decisions(
                es,
                ds,
                p,
                oc,
                case,
                (i + 1) as nat,
            ).0[i],
    decreases n,
{
    if n > 0 {
        lemma_decisions_index(es, ds, p, oc, case, (n - 1) as nat);
    }
}

/// The destinations a run has promised: one slot per rename so far.
pub open spec fn rename_slots(items: Seq<ItemView>, es: Seq<EntryView>, case: VolumeCase) -> Seq<
    (DirIdent, NameKey),
>
    decreases items.len(),
{
    if items.len() == 0 {
        Seq::empty()
    } else {
        let prev = rename_slots(items.drop_last(), es, case);
        if items.last().resolution == Resolution::Rename {
            prev.push((es[items.len() - 1].dir_ident, key_of_name_spec(items.last().to, case)))
        } else {
            prev
        }
    }
}

/// A name encoded from text keys as the text does.
proof fn lemma_key_of_encoded(c: Seq<char>, case: VolumeCase)
    ensures
        valid_utf8(encode_utf8(c)),
        decode_utf8(encode_utf8(c)) == c,
        key_of_name_spec(encode_utf8(c), case) == key_of_text_spec(c, case),
{
    encode_utf8_valid_utf8(c);
    encode_utf8_decode_utf8(c);
}

/// Under `Number`, what has been promised is exactly the renames so far;
/// otherwise nothing is ever promised.
proof fn lemma_alloc(
    es: Seq<EntryView>,
    ds: Seq<DesiredView>,
    p: Policy,
    oc: OnCollision,
    case: VolumeCase,
    n: nat,
)
    requires
        n <= es.len(),
        n <= ds.len(),
    ensures
        oc == OnCollision::Number ==> decisions(es, ds, p, oc, case, n).1 == rename_slots(
            decisions(es, ds, p, oc, case, n).0,
            es,
            case,
        ),
        oc != OnCollision::Number ==> decisions(es, ds, p, oc, case, n).1 == Seq::<
            (DirIdent, NameKey),
        >::empty(),
    decreases n,
{
    if n > 0 {
        lemma_alloc(es, ds, p, oc, case, (n - 1) as nat);
        lemma_decisions_index(es, ds, p, oc, case, (n - 1) as nat);
        let prev = decisions(es, ds, p, oc, case, (n - 1) as nat);
        let cur = decisions(es, ds, p, oc, case, n);
        assert(cur.0.drop_last() =~= prev.0);
        assert(cur.0.len() == n);
        if let DesiredView::Rename(t, _) = ds[n - 1] {
            if oc == OnCollision::Number {
                let tk = take_spec(
                    occupancy(es, case),
                    prev.1,
                    es[n - 1].dir_ident,
                    t,
                    n - 1,
                    p,
                    case,
                );
                if let Some(c) = tk {
                    lemma_key_of_encoded(c, case);
                }
            }
        }
    }
}

proof fn lemma_rename_slots_contains(
    items: Seq<ItemView>,
    es: Seq<EntryView>,
    case: VolumeCase,
    i: int,
)
    requires
        0 <= i < items.len(),
        items[i].resolution == Resolution::Rename,
    ensures
        rename_slots(items, es, case).contains((es[i].dir_ident, key_of_name_spec(items[i].to, case))),
    decreases items.len(),
{
    let x = (es[i].dir_ident, key_of_name_spec(items[i].to, case));
    let prev = rename_slots(items.drop_last(), es, case);
    if i == items.len() - 1 {
        assert(prev.push(x)[prev.len() as int] == x);
    } else {
        assert(items.drop_last()[i] == items[i]);
        lemma_rename_slots_contains(items.drop_last(), es, case, i);
        let k = choose|k: int| 0 <= k < prev.len() && prev[k] == x;
        if items.last().resolution == Resolution::Rename {
            assert(rename_slots(items, es, case)[k] == x);
        }
    }
}

// ---- the allocator ------------------------------------------------------------

proof fn lemma_probe(
    occ: Seq<(DirIdent, NameKey)>,
    alloc: Seq<(DirIdent, NameKey)>,
    d: DirIdent,
    want: Seq<char>,
    owner: int,
    p: Policy,
    case: VolumeCase,
    n: nat,
)
    ensures
        probe_spec(occ, alloc, d, want, owner, p, case, n) matches Some(c) ==> {
            &&& is_free_spec(occ, alloc, d, key_of_text_spec(c, case), owner)
            &&& is_fixed_point_spec(c, p)
        },
    decreases 1000 - n,
{
    if n <= 999 {
        lemma_probe(occ, alloc, d, want, owner, p, case, n + 1);
    }
}

/// What the allocator hands out is free for its owner, and is either the
/// wanted name itself or a fixed point of `transform`.
proof fn lemma_take(
    occ: Seq<(DirIdent, NameKey)>,
    alloc: Seq<(DirIdent, NameKey)>,
    d: DirIdent,
    want: Seq<char>,
    owner: int,
    p: Policy,
    case: VolumeCase,
)
    ensures
        take_spec(occ, alloc, d, want, owner, p, case) matches Some(c) ==> {
            &&& is_free_spec(occ, alloc, d, key_of_text_spec(c, case), owner)
            &&& (c == want || is_fixed_point_spec(c, p))
        },
{
    lemma_probe(occ, alloc, d, want, owner, p, case, 2);
}

// ---- layer 1's count ------------------------------------------------------------

proof fn lemma_count_push(s: Seq<(DirIdent, NameKey)>, y: (DirIdent, NameKey), x: (DirIdent, NameKey))
    ensures
        count_in(s.push(y), x) == count_in(s, x) + if y == x {
            1nat
        } else {
            0nat
        },
{
    assert(s.push(y).drop_last() =~= s);
}

proof fn lemma_count_mono(
    es: Seq<EntryView>,
    ds: Seq<DesiredView>,
    case: VolumeCase,
    x: (DirIdent, NameKey),
    m: int,
    n: int,
)
    requires
        0 <= m <= n,
    ensures
        count_in(want_slots(es, ds, case, m), x) <= count_in(want_slots(es, ds, case, n), x),
    decreases n,
{
    if m < n {
        lemma_count_mono(es, ds, case, x, m, n - 1);
        let prev = want_slots(es, ds, case, n - 1);
        if let DesiredView::Rename(t, _) = ds[n - 1] {
            lemma_count_push(prev, (es[n - 1].dir_ident, key_of_text_spec(t, case)), x);
        }
    }
}

/// The slot the entry at `k` asks for is counted once more from `k + 1` on.
proof fn lemma_count_step(
    es: Seq<EntryView>,
    ds: Seq<DesiredView>,
    case: VolumeCase,
    k: int,
    t: Seq<char>,
)
    requires
        0 <= k,
        (ds[k] matches DesiredView::Rename(tk, _) && tk == t),
    ensures
        count_in(want_slots(es, ds, case, k + 1), (es[k].dir_ident, key_of_text_spec(t, case)))
            == count_in(want_slots(es, ds, case, k), (es[k].dir_ident, key_of_text_spec(t, case)))
            + 1,
{
    let x = (es[k].dir_ident, key_of_text_spec(t, case));
    lemma_count_push(want_slots(es, ds, case, k), x, x);
}

/// Two entries that ask for one slot make it counted at least twice.
proof fn lemma_count_two(
    es: Seq<EntryView>,
    ds: Seq<DesiredView>,
    case: VolumeCase,
    i: int,
    j: int,
    n: int,
    ti: Seq<char>,
    tj: Seq<char>,
)
    requires
        0 <= i < j < n,
        (ds[i] matches DesiredView::Rename(x, _) && x == ti),
        (ds[j] matches DesiredView::Rename(x, _) && x == tj),
        (es[i].dir_ident, key_of_text_spec(ti, case)) == (es[j].dir_ident, key_of_text_spec(tj, case)),
    ensures
        count_in(want_slots(es, ds, case, n), (es[j].dir_ident, key_of_text_spec(tj, case))) >= 2,
{
    let x = (es[j].dir_ident, key_of_text_spec(tj, case));
    lemma_count_step(es, ds, case, i, ti);
    lemma_count_step(es, ds, case, j, tj);
    lemma_count_mono(es, ds, case, x, i + 1, j);
    lemma_count_mono(es, ds, case, x, j + 1, n);
}

// ---- apply order ------------------------------------------------------------------

/// A snapshot small enough to index has its apply order.
pub proof fn lemma_apply_order(entries: Seq<EntryView>)
    requires
        entries.len() <= usize::MAX,
    ensures
        is_sorted_perm(apply_order(entries), sort_keys(entries)),
        planned_entries(entries).len() == entries.len(),
        forall|i: int|
            0 <= i < entries.len() ==> #[trigger] planned_entries(entries)[i]
                == entries[apply_order(entries)[i] as int],
{
    let ks = sort_keys(entries);
    assert forall|a: int, b: int| 0 <= a < ks.len() && 0 <= b < ks.len() && a != b implies ks[a]
        != ks[b] by {
        assert(ks[a].last() == a as u64);
        assert(ks[b].last() == b as u64);
    }
    assert(distinct_keys(ks));
    lemma_sorted_perm_exists(ks);
}

/// The item at `i` decides the entry at `i` in apply order.
proof fn lemma_item_at(
    entries: Seq<EntryView>,
    p: Policy,
    oc: OnCollision,
    case: VolumeCase,
    i: int,
)
    requires
        0 <= i < planned_entries(entries).len(),
    ensures
        planned_items(entries, p, oc, case).len() == planned_entries(entries).len(),
        ({
            let es = planned_entries(entries);
            let ds = desired_of(es, p);
            let prev = decisions(es, ds, p, oc, case, i as nat);
            let d = decide_spec(
                es[i],
                ds[i],
                i,
                occupancy(es, case),
                want_slots(es, ds, case, es.len() as int),
                prev.1,
                p,
                oc,
                case,
            );
            planned_items(entries, p, oc, case)[i] == item_of(es[i], d.0, d.1, crate::plan::truncated_of(ds[i], d.1))
        }),
{
    let es = planned_entries(entries);
    let ds = desired_of(es, p);
    lemma_decisions_index(es, ds, p, oc, case, es.len());
    lemma_decisions_index(es, ds, p, oc, case, i as nat);
    let cur = decisions(es, ds, p, oc, case, (i + 1) as nat);
    let prev = decisions(es, ds, p, oc, case, i as nat);
    assert(((i + 1) as nat - 1) as nat == i as nat);
    let d = decide_spec(
        es[i],
        ds[i],
        i,
        occupancy(es, case),
        want_slots(es, ds, case, es.len() as int),
        prev.1,
        p,
        oc,
        case,
    );
    let it = item_of(es[i], d.0, d.1, crate::plan::truncated_of(ds[i], d.1));
    assert(cur.0 == prev.0.push(it));
    assert(cur.0[i] == it);
    assert(planned_items(entries, p, oc, case)[i] == cur.0[i]);
}

/// The item at `i` carries the entry at `i`'s directory, name and identity.
proof fn lemma_item_fields(
    entries: Seq<EntryView>,
    p: Policy,
    oc: OnCollision,
    case: VolumeCase,
    i: int,
)
    requires
        0 <= i < planned_entries(entries).len(),
    ensures
        planned_items(entries, p, oc, case)[i].dir == planned_entries(entries)[i].dir,
        planned_items(entries, p, oc, case)[i].from == planned_entries(entries)[i].name,
        planned_items(entries, p, oc, case)[i].kind == planned_entries(entries)[i].kind,
        planned_items(entries, p, oc, case)[i].ident == planned_entries(entries)[i].ident,
        planned_items(entries, p, oc, case)[i].depth == planned_entries(entries)[i].depth,
{
    lemma_item_at(entries, p, oc, case, i);
}

/// A planned snapshot's items are its planned items.
proof fn lemma_planned(
    entries: Seq<EntryView>,
    p: Policy,
    oc: OnCollision,
    case: VolumeCase,
    items: Seq<ItemView>,
)
    requires
        plan_spec(entries, p, oc, case) == PlanView::Planned(items),
    ensures
        items == planned_items(entries, p, oc, case),
        items.len() == planned_entries(entries).len(),
        !has_chain(planned_entries(entries), desired_of(planned_entries(entries), p)),
{
    let es = planned_entries(entries);
    lemma_decisions_index(es, desired_of(es, p), p, oc, case, es.len());
}


// ---- the laws ----------------------------------------------------------------------

/// No collision: two renames of entries in one directory never share a
/// destination -- their destinations' comparison keys differ. This is what
/// stops N files collapsing into one.
pub proof fn law_no_collision(
    entries: Seq<EntryView>,
    p: Policy,
    oc: OnCollision,
    case: VolumeCase,
    items: Seq<ItemView>,
    i: int,
    j: int,
)
    requires
        plan_spec(entries, p, oc, case) == PlanView::Planned(items),
        0 <= i < j < items.len(),
        items[i].resolution == Resolution::Rename,
        items[j].resolution == Resolution::Rename,
        planned_entries(entries)[i].dir_ident == planned_entries(entries)[j].dir_ident,
    ensures
        key_of_name_spec(items[i].to, case) != key_of_name_spec(items[j].to, case),
{
    let es = planned_entries(entries);
    let ds = desired_of(es, p);
    let n = es.len();
    lemma_planned(entries, p, oc, case, items);
    lemma_item_at(entries, p, oc, case, i);
    lemma_item_at(entries, p, oc, case, j);
    let occ = occupancy(es, case);
    let wants = want_slots(es, ds, case, n as int);
    let ai = decisions(es, ds, p, oc, case, i as nat).1;
    let aj = decisions(es, ds, p, oc, case, j as nat).1;
    assert(ds[i] is Rename);
    assert(ds[j] is Rename);
    let ti = ds[i]->Rename_0;
    let tj = ds[j]->Rename_0;
    let dj = es[j].dir_ident;
    if oc == OnCollision::Number {
        let ci = take_spec(occ, ai, es[i].dir_ident, ti, i, p, case)->Some_0;
        let cj = take_spec(occ, aj, dj, tj, j, p, case)->Some_0;
        lemma_key_of_encoded(ci, case);
        lemma_key_of_encoded(cj, case);
        lemma_take(occ, aj, dj, tj, j, p, case);
        lemma_alloc(es, ds, p, oc, case, j as nat);
        lemma_decisions_index(es, ds, p, oc, case, j as nat);
        lemma_decisions_index(es, ds, p, oc, case, n);
        let before = decisions(es, ds, p, oc, case, j as nat).0;
        assert(before[i] == items[i]);
        lemma_rename_slots_contains(before, es, case, i);
    } else {
        lemma_key_of_encoded(ti, case);
        lemma_key_of_encoded(tj, case);
        if key_of_name_spec(items[i].to, case) == key_of_name_spec(items[j].to, case) {
            lemma_count_two(es, ds, case, i, j, n as int, ti, tj);
        }
    }
}

/// No pre-existing clobber: a rename's destination is the name of no other
/// entry of the snapshot in its directory (compared by comparison key). Its
/// own source may be respelled into its own key.
pub proof fn law_no_clobber(
    entries: Seq<EntryView>,
    p: Policy,
    oc: OnCollision,
    case: VolumeCase,
    items: Seq<ItemView>,
    i: int,
    k: int,
)
    requires
        entries.len() <= usize::MAX,
        plan_spec(entries, p, oc, case) == PlanView::Planned(items),
        0 <= i < items.len(),
        items[i].resolution == Resolution::Rename,
        0 <= k < entries.len(),
        k != apply_order(entries)[i],
        entries[k].dir_ident == planned_entries(entries)[i].dir_ident,
    ensures
        key_of_name_spec(entries[k].name, case) != key_of_name_spec(items[i].to, case),
{
    let es = planned_entries(entries);
    let ds = desired_of(es, p);
    let o = apply_order(entries);
    lemma_apply_order(entries);
    lemma_planned(entries, p, oc, case, items);
    lemma_item_at(entries, p, oc, case, i);
    assert(o.contains(k as usize));
    let kk = choose|kk: int| 0 <= kk < o.len() && o[kk] == k as usize;
    assert(es[kk] == entries[k]);
    let occ = occupancy(es, case);
    assert(occ[kk] == (entries[k].dir_ident, key_of_name_spec(entries[k].name, case)));
    let ai = decisions(es, ds, p, oc, case, i as nat).1;
    let ti = ds[i]->Rename_0;
    if oc == OnCollision::Number {
        let ci = take_spec(occ, ai, es[i].dir_ident, ti, i, p, case)->Some_0;
        lemma_key_of_encoded(ci, case);
        lemma_take(occ, ai, es[i].dir_ident, ti, i, p, case);
    } else {
        lemma_key_of_encoded(ti, case);
    }
}

/// No sibling chains: a rename never lands on the name another entry in its
/// directory is leaving, so no rename depends on another happening first.
pub proof fn law_no_sibling_chain(
    entries: Seq<EntryView>,
    p: Policy,
    oc: OnCollision,
    case: VolumeCase,
    items: Seq<ItemView>,
    i: int,
    j: int,
)
    requires
        entries.len() <= usize::MAX,
        plan_spec(entries, p, oc, case) == PlanView::Planned(items),
        0 <= i < items.len(),
        0 <= j < items.len(),
        i != j,
        items[i].resolution == Resolution::Rename,
        planned_entries(entries)[i].dir_ident == planned_entries(entries)[j].dir_ident,
    ensures
        key_of_name_spec(items[j].from, case) != key_of_name_spec(items[i].to, case),
{
    let o = apply_order(entries);
    lemma_apply_order(entries);
    lemma_planned(entries, p, oc, case, items);
    lemma_item_fields(entries, p, oc, case, j);
    assert(o[i] != o[j]);
    assert(o.contains(o[j]));
    law_no_clobber(entries, p, oc, case, items, i, o[j] as int);
}

/// Order safety: the plan never lists an item after one that renames a
/// directory holding it. Items come deepest first, so no later item lives
/// below an earlier one.
pub proof fn law_order_safety(
    entries: Seq<Entry>,
    p: Policy,
    oc: OnCollision,
    case: VolumeCase,
    items: Seq<ItemView>,
    i: int,
    j: int,
)
    requires
        entries.len() <= usize::MAX,
        plan_spec(entry_views(entries), p, oc, case) == PlanView::Planned(items),
        0 <= i < j < items.len(),
    ensures
        items[j].dir.len() <= items[i].dir.len(),
        !items[i].dir.push(PartView::Normal(items[i].from)).is_prefix_of(items[j].dir),
{
    let ev = entry_views(entries);
    let o = apply_order(ev);
    let ks = sort_keys(ev);
    lemma_apply_order(ev);
    lemma_planned(ev, p, oc, case, items);
    lemma_item_fields(ev, p, oc, case, i);
    lemma_item_fields(ev, p, oc, case, j);
    let a = o[i] as int;
    let b = o[j] as int;
    vstd::std_specs::vec::axiom_spec_len(&entries[a].dir);
    vstd::std_specs::vec::axiom_spec_len(&entries[b].dir);
    assert(o.contains(o[i]));
    assert(o.contains(o[j]));
    assert(ev[a] == entries[a]@);
    assert(ev[b] == entries[b]@);
    assert(crate::plan::dir_view(entries[a].dir@).len() == entries[a].dir@.len());
    assert(crate::plan::dir_view(entries[b].dir@).len() == entries[b].dir@.len());
    let la = ev[a].dir.len();
    let lb = ev[b].dir.len();
    assert(la == entries[a].dir@.len());
    assert(lb == entries[b].dir@.len());
    assert(lex_lt(ks[a], ks[b]));
    assert(ks[a][0] == (u64::MAX - la) as u64);
    assert(ks[b][0] == (u64::MAX - lb) as u64);
    if lb > la {
        assert(lex_lt(ks[b], ks[a]));
        lemma_lex_asym(ks[a], ks[b]);
    }
}

/// Only renames move: every item that is not a `Rename` keeps its own name.
pub proof fn law_only_renames_move(
    entries: Seq<EntryView>,
    p: Policy,
    oc: OnCollision,
    case: VolumeCase,
    items: Seq<ItemView>,
    i: int,
)
    requires
        plan_spec(entries, p, oc, case) == PlanView::Planned(items),
        0 <= i < items.len(),
        items[i].resolution != Resolution::Rename,
    ensures
        items[i].to == items[i].from,
{
    lemma_planned(entries, p, oc, case, items);
    lemma_item_at(entries, p, oc, case, i);
}

/// A name that is not UTF-8 is skipped and reported, never renamed.
pub proof fn law_undecodable_is_skipped(
    entries: Seq<EntryView>,
    p: Policy,
    oc: OnCollision,
    case: VolumeCase,
    items: Seq<ItemView>,
    i: int,
)
    requires
        plan_spec(entries, p, oc, case) == PlanView::Planned(items),
        0 <= i < items.len(),
        !valid_utf8(items[i].from),
    ensures
        items[i].resolution == Resolution::Skipped(crate::plan::SkipReason::NotUtf8),
        items[i].to == items[i].from,
{
    lemma_planned(entries, p, oc, case, items);
    lemma_item_at(entries, p, oc, case, i);
}

/// Fixed-point destinations: a rename's destination is text, and is either
/// exactly what `transform` makes of its source or a numbered alternative
/// that `transform` leaves as it is. Under `skip` and `fail` nothing is
/// numbered: the destination is always `transform`'s own output.
pub proof fn law_destination_is_transform_output_or_fixed_point(
    entries: Seq<EntryView>,
    p: Policy,
    oc: OnCollision,
    case: VolumeCase,
    items: Seq<ItemView>,
    i: int,
)
    requires
        plan_spec(entries, p, oc, case) == PlanView::Planned(items),
        0 <= i < items.len(),
        items[i].resolution == Resolution::Rename,
    ensures
        valid_utf8(items[i].from),
        valid_utf8(items[i].to),
        crate::pipeline::transform_spec(decode_utf8(items[i].from), p) matches crate::pipeline::TransformView::Name { text, truncated }
            && text != decode_utf8(items[i].from)
            && (decode_utf8(items[i].to) == text || (oc == OnCollision::Number
            && is_fixed_point_spec(decode_utf8(items[i].to), p))),
{
    let es = planned_entries(entries);
    let ds = desired_of(es, p);
    lemma_planned(entries, p, oc, case, items);
    lemma_item_at(entries, p, oc, case, i);
    let ai = decisions(es, ds, p, oc, case, i as nat).1;
    let occ = occupancy(es, case);
    let ti = ds[i]->Rename_0;
    if oc == OnCollision::Number {
        let ci = take_spec(occ, ai, es[i].dir_ident, ti, i, p, case)->Some_0;
        lemma_key_of_encoded(ci, case);
        lemma_take(occ, ai, es[i].dir_ident, ti, i, p, case);
    } else {
        lemma_key_of_encoded(ti, case);
    }
}

/// Under `number`, no item is left with an intra-batch or pre-existing
/// conflict: a wanted name that is taken is numbered around, and only an
/// exhausted probe is a conflict.
pub proof fn law_number_conflicts_are_unresolvable(
    entries: Seq<EntryView>,
    p: Policy,
    case: VolumeCase,
    items: Seq<ItemView>,
    i: int,
)
    requires
        plan_spec(entries, p, OnCollision::Number, case) == PlanView::Planned(items),
        0 <= i < items.len(),
        items[i].resolution is Conflict,
    ensures
        items[i].resolution == Resolution::Conflict(Conflict::Unresolvable),
{
    lemma_planned(entries, p, OnCollision::Number, case, items);
    lemma_item_at(entries, p, OnCollision::Number, case, i);
}

/// Under `skip` and `fail` each entry is decided alike.
proof fn lemma_fail_decides_as_skip(
    es: Seq<EntryView>,
    ds: Seq<DesiredView>,
    p: Policy,
    case: VolumeCase,
    n: nat,
)
    ensures
        decisions(es, ds, p, OnCollision::Fail, case, n) == decisions(
            es,
            ds,
            p,
            OnCollision::Skip,
            case,
            n,
        ),
    decreases n,
{
    if n > 0 {
        lemma_fail_decides_as_skip(es, ds, p, case, (n - 1) as nat);
    }
}

/// A list whose conflicted items keep their names has only such items among
/// its conflicts.
proof fn lemma_conflicts_keep_names(items: Seq<ItemView>)
    requires
        forall|j: int|
            0 <= j < items.len() && (#[trigger] items[j]).resolution is Conflict ==> items[j].to
                == items[j].from,
    ensures
        forall|k: int|
            0 <= k < conflicts_of(items).len() ==> (#[trigger] conflicts_of(items)[k]).resolution is Conflict
                && conflicts_of(items)[k].to == conflicts_of(items)[k].from,
    decreases items.len(),
{
    if items.len() > 0 {
        let rest = items.drop_last();
        assert forall|j: int| 0 <= j < rest.len() && (#[trigger] rest[j]).resolution is Conflict implies rest[j].to
            == rest[j].from by {
            assert(rest[j] == items[j]);
        }
        lemma_conflicts_keep_names(rest);
        assert(items.last() == items[items.len() - 1]);
    }
}

/// `fail` decides every entry as `skip` does, then refuses the whole batch
/// when any item is in conflict: the refusal lists exactly the items that
/// `skip` leaves in conflict, in plan order, and each of them keeps its own
/// name. With no conflict the two plans are the same.
pub proof fn law_fail_refuses_what_skip_conflicts(
    entries: Seq<EntryView>,
    p: Policy,
    case: VolumeCase,
)
    ensures
        plan_spec(entries, p, OnCollision::Fail, case) == (match plan_spec(
            entries,
            p,
            OnCollision::Skip,
            case,
        ) {
            PlanView::Planned(q) => if conflicts_of(q).len() > 0 {
                PlanView::Refused(conflicts_of(q))
            } else {
                PlanView::Planned(q)
            },
            other => other,
        }),
        plan_spec(entries, p, OnCollision::Fail, case) matches PlanView::Refused(cs) ==> forall|k: int|
            0 <= k < cs.len() ==> (#[trigger] cs[k]).resolution is Conflict && cs[k].to == cs[k].from,
{
    let es = planned_entries(entries);
    let ds = desired_of(es, p);
    lemma_fail_decides_as_skip(es, ds, p, case, es.len());
    lemma_decisions_index(es, ds, p, OnCollision::Fail, case, es.len());
    let items = planned_items(entries, p, OnCollision::Fail, case);
    assert forall|j: int| 0 <= j < items.len() && (#[trigger] items[j]).resolution is Conflict implies items[j].to
        == items[j].from by {
        lemma_item_at(entries, p, OnCollision::Fail, case, j);
        lemma_item_fields(entries, p, OnCollision::Fail, case, j);
    }
    lemma_conflicts_keep_names(items);
}


// ---- the apply-order key, decoded --------------------------------------------------

/// Every element of `s` is at least 1.
pub open spec fn all_pos(s: Seq<u64>) -> bool {
    forall|k: int| 0 <= k < s.len() ==> s[k] >= 1
}

/// No element of `s` is 1.
pub open spec fn no_ones(s: Seq<u64>) -> bool {
    forall|k: int| 0 <= k < s.len() ==> s[k] != 1
}

proof fn lemma_enc_part_pos(q: PartView)
    ensures
        all_pos(enc_part(q)),
        enc_part(q).len() > 0,
        enc_part(q)[0] >= 2,
{
    if let PartView::Normal(b) = q {
        assert forall|k: int| 0 <= k < enc_part(q).len() implies enc_part(q)[k] >= 1 by {
            if 1 <= k < b.len() + 1 {
                assert(enc_part(q)[k] == enc_bytes(b)[k - 1]);
            }
        }
    }
}

proof fn lemma_enc_parts_pos(d: Seq<PartView>)
    ensures
        all_pos(enc_parts(d)),
    decreases d.len(),
{
    if d.len() > 0 {
        lemma_enc_parts_pos(d.drop_last());
        lemma_enc_part_pos(d.last());
        let l = enc_parts(d.drop_last());
        assert forall|k: int| 0 <= k < enc_parts(d).len() implies enc_parts(d)[k] >= 1 by {
            if k >= l.len() {
                assert(enc_parts(d)[k] == enc_part(d.last())[k - l.len()]);
            }
        }
    }
}

proof fn lemma_enc_key_pos(k: NameKey)
    ensures
        all_pos(enc_key(k)),
{
    match k {
        NameKey::Text(t) => {
            assert forall|x: int| 0 <= x < enc_key(k).len() implies enc_key(k)[x] >= 1 by {
                if 1 <= x < t.len() + 1 {
                    assert(enc_key(k)[x] == ((t[x - 1] as u32) + 2) as u64);
                }
            }
        },
        NameKey::Opaque(b) => {
            assert forall|x: int| 0 <= x < enc_key(k).len() implies enc_key(k)[x] >= 1 by {
                if 1 <= x < b.len() + 1 {
                    assert(enc_key(k)[x] == enc_bytes(b)[x - 1]);
                }
            }
        },
    }
}

/// Every element of an entry's base key after the first is at least 1.
proof fn lemma_base_key_pos(e: EntryView)
    ensures
        base_key(e).len() > 0,
        all_pos(base_key(e).drop_first()),
{
    let d = enc_dir(e.dir);
    let k = enc_key(key_of_name_spec(e.name, VolumeCase::Sensitive));
    let b = enc_bytes(e.name);
    lemma_enc_parts_pos(e.dir);
    lemma_enc_key_pos(key_of_name_spec(e.name, VolumeCase::Sensitive));
    assert(base_key(e).drop_first() =~= d + k + b);
    assert(all_pos(d));
    assert(all_pos(b));
}

/// A chunk ending in its only 1 is told apart from what follows it.
proof fn lemma_split_at_one(a: Seq<u64>, b: Seq<u64>, x: Seq<u64>, y: Seq<u64>)
    requires
        no_ones(a),
        no_ones(b),
        a + seq![1u64] + x == b + seq![1u64] + y,
    ensures
        a == b,
        x == y,
{
    let l = a + seq![1u64] + x;
    let r = b + seq![1u64] + y;
    if a.len() < b.len() {
        assert(l[a.len() as int] == 1);
        assert(r[a.len() as int] == b[a.len() as int]);
    } else if b.len() < a.len() {
        assert(r[b.len() as int] == 1);
        assert(l[b.len() as int] == a[b.len() as int]);
    } else {
        assert(a =~= l.take(a.len() as int));
        assert(b =~= r.take(b.len() as int));
        assert(x =~= l.skip(a.len() as int + 1));
        assert(y =~= r.skip(b.len() as int + 1));
    }
}

/// Bytes' code, without its terminator, holds no 1.
proof fn lemma_shifted_bytes(b: Seq<u8>)
    ensures
        no_ones(enc_bytes(b).drop_last()),
        enc_bytes(b) == enc_bytes(b).drop_last() + seq![1u64],
{
    assert forall|k: int| 0 <= k < enc_bytes(b).drop_last().len() implies enc_bytes(b).drop_last()[k]
        != 1 by {
        assert(enc_bytes(b).drop_last()[k] == (b[k] + 2) as u64);
    }
    assert(enc_bytes(b) =~= enc_bytes(b).drop_last() + seq![1u64]);
}

pub proof fn lemma_enc_bytes_inj(b: Seq<u8>, c: Seq<u8>)
    requires
        enc_bytes(b).drop_last() == enc_bytes(c).drop_last(),
    ensures
        b == c,
{
    assert(enc_bytes(b).len() == b.len() + 1);
    assert(enc_bytes(c).len() == c.len() + 1);
    assert(enc_bytes(b).drop_last().len() == b.len());
    assert(enc_bytes(c).drop_last().len() == c.len());
    assert(b.len() == c.len());
    assert forall|k: int| 0 <= k < b.len() implies b[k] == c[k] by {
        assert(enc_bytes(b).drop_last()[k] == (b[k] + 2) as u64);
        assert(enc_bytes(c).drop_last()[k] == (c[k] + 2) as u64);
    }
    assert(b =~= c);
}

/// One component's code is told apart from what follows it.
proof fn lemma_part_split(q1: PartView, q2: PartView, x: Seq<u64>, y: Seq<u64>)
    requires
        enc_part(q1) + x == enc_part(q2) + y,
    ensures
        q1 == q2,
        x == y,
{
    let l = enc_part(q1) + x;
    lemma_enc_part_pos(q1);
    lemma_enc_part_pos(q2);
    assert(l[0] == enc_part(q1)[0]);
    assert((enc_part(q2) + y)[0] == enc_part(q2)[0]);
    match (q1, q2) {
        (PartView::Normal(b), PartView::Normal(c)) => {
            lemma_shifted_bytes(b);
            lemma_shifted_bytes(c);
            let bm = enc_bytes(b).drop_last();
            let cm = enc_bytes(c).drop_last();
            assert(l.drop_first() =~= bm + seq![1u64] + x);
            assert((enc_part(q2) + y).drop_first() =~= cm + seq![1u64] + y);
            lemma_split_at_one(bm, cm, x, y);
            lemma_enc_bytes_inj(b, c);
        },
        (PartView::Normal(_), _) => {},
        (_, PartView::Normal(_)) => {},
        _ => {
            assert(x =~= l.drop_first());
            assert(y =~= (enc_part(q2) + y).drop_first());
        },
    }
}

/// A path's code, read from the front.
proof fn lemma_enc_parts_front(d: Seq<PartView>)
    requires
        d.len() > 0,
    ensures
        enc_parts(d) == enc_part(d[0]) + enc_parts(d.drop_first()),
    decreases d.len(),
{
    if d.len() == 1 {
        assert(enc_parts(d.drop_last()) =~= Seq::<u64>::empty());
        assert(enc_parts(d.drop_first()) =~= Seq::<u64>::empty());
        assert(d.last() == d[0]);
        assert(enc_parts(d) =~= enc_part(d[0]));
        assert(enc_part(d[0]) + enc_parts(d.drop_first()) =~= enc_part(d[0]));
    } else {
        lemma_enc_parts_front(d.drop_last());
        assert(d.drop_last().drop_first() =~= d.drop_first().drop_last());
        assert(d.drop_last()[0] == d[0]);
        assert(d.drop_first().last() == d.last());
        assert(enc_parts(d) =~= enc_part(d[0]) + enc_parts(d.drop_first()));
    }
}

/// A path's code, terminated, is told apart from what follows it.
proof fn lemma_dir_split(d: Seq<PartView>, e: Seq<PartView>, x: Seq<u64>, y: Seq<u64>)
    requires
        enc_parts(d) + seq![1u64] + x == enc_parts(e) + seq![1u64] + y,
    ensures
        d == e,
        x == y,
    decreases d.len(),
{
    let l = enc_parts(d) + seq![1u64] + x;
    let r = enc_parts(e) + seq![1u64] + y;
    if d.len() == 0 && e.len() == 0 {
        assert(x =~= l.drop_first());
        assert(y =~= r.drop_first());
        assert(d =~= e);
    } else if d.len() == 0 {
        lemma_enc_parts_front(e);
        lemma_enc_part_pos(e[0]);
        assert(l[0] == 1);
        assert(r[0] == enc_part(e[0])[0]);
    } else if e.len() == 0 {
        lemma_enc_parts_front(d);
        lemma_enc_part_pos(d[0]);
        assert(r[0] == 1);
        assert(l[0] == enc_part(d[0])[0]);
    } else {
        lemma_enc_parts_front(d);
        lemma_enc_parts_front(e);
        let lx = enc_parts(d.drop_first()) + seq![1u64] + x;
        let ry = enc_parts(e.drop_first()) + seq![1u64] + y;
        assert(l =~= enc_part(d[0]) + lx);
        assert(r =~= enc_part(e[0]) + ry);
        lemma_part_split(d[0], e[0], lx, ry);
        lemma_dir_split(d.drop_first(), e.drop_first(), x, y);
        assert(d =~= seq![d[0]] + d.drop_first());
        assert(e =~= seq![e[0]] + e.drop_first());
    }
}

/// A comparison key's code is told apart from what follows it.
proof fn lemma_key_split(k1: NameKey, k2: NameKey, x: Seq<u64>, y: Seq<u64>)
    requires
        enc_key(k1) + x == enc_key(k2) + y,
    ensures
        x == y,
{
    let l = enc_key(k1) + x;
    let r = enc_key(k2) + y;
    let e1 = enc_key(k1);
    let e2 = enc_key(k2);
    assert(l[0] == e1[0]);
    assert(r[0] == e2[0]);
    let f1 = e1.subrange(1, e1.len() - 1);
    let f2 = e2.subrange(1, e2.len() - 1);
    assert forall|t: int| 0 <= t < f1.len() implies f1[t] != 1 by {
        match k1 {
            NameKey::Text(w) => assert(f1[t] == ((w[t] as u32) + 2) as u64),
            NameKey::Opaque(w) => assert(f1[t] == (w[t] + 2) as u64),
        }
    }
    assert forall|t: int| 0 <= t < f2.len() implies f2[t] != 1 by {
        match k2 {
            NameKey::Text(w) => assert(f2[t] == ((w[t] as u32) + 2) as u64),
            NameKey::Opaque(w) => assert(f2[t] == (w[t] + 2) as u64),
        }
    }
    assert(e1.last() == 1);
    assert(e2.last() == 1);
    assert(l.drop_first() =~= f1 + seq![1u64] + x);
    assert(r.drop_first() =~= f2 + seq![1u64] + y);
    lemma_split_at_one(f1, f2, x, y);
}

/// Two entries with one base key have one directory and one name.
proof fn lemma_base_key_inj(u: EntryView, v: EntryView)
    requires
        base_key(u) == base_key(v),
    ensures
        u.dir == v.dir,
        u.name == v.name,
{
    let ku = enc_key(key_of_name_spec(u.name, VolumeCase::Sensitive));
    let kv = enc_key(key_of_name_spec(v.name, VolumeCase::Sensitive));
    let xu = ku + enc_bytes(u.name);
    let xv = kv + enc_bytes(v.name);
    assert(base_key(u).drop_first() =~= enc_parts(u.dir) + seq![1u64] + xu);
    assert(base_key(v).drop_first() =~= enc_parts(v.dir) + seq![1u64] + xv);
    lemma_dir_split(u.dir, v.dir, xu, xv);
    lemma_key_split(
        key_of_name_spec(u.name, VolumeCase::Sensitive),
        key_of_name_spec(v.name, VolumeCase::Sensitive),
        enc_bytes(u.name),
        enc_bytes(v.name),
    );
    lemma_enc_bytes_inj(u.name, v.name);
}

// ---- the separator before the position ------------------------------------------

pub proof fn lemma_lex_sep_pos(x: Seq<u64>, y: Seq<u64>, i: u64, j: u64)
    requires
        all_pos(x),
        all_pos(y),
        x != y,
    ensures
        lex_lt(x + seq![0u64, i], y + seq![0u64, j]) == lex_lt(x, y),
    decreases x.len(),
{
    let l = x + seq![0u64, i];
    let r = y + seq![0u64, j];
    if x.len() == 0 {
        if y.len() == 0 {
            assert(x =~= y);
        }
        assert(l[0] == 0);
        assert(r[0] == y[0]);
    } else if y.len() == 0 {
        assert(r[0] == 0);
        assert(l[0] == x[0]);
    } else {
        assert(l[0] == x[0]);
        assert(r[0] == y[0]);
        if x[0] == y[0] {
            assert(l.drop_first() =~= x.drop_first() + seq![0u64, i]);
            assert(r.drop_first() =~= y.drop_first() + seq![0u64, j]);
            if x.drop_first() == y.drop_first() {
                assert(x =~= seq![x[0]] + x.drop_first());
                assert(y =~= seq![y[0]] + y.drop_first());
            }
            lemma_lex_sep_pos(x.drop_first(), y.drop_first(), i, j);
        }
    }
}

/// With distinct base keys, the position never decides the order.
proof fn lemma_lex_sep(x: Seq<u64>, y: Seq<u64>, i: u64, j: u64)
    requires
        x.len() > 0,
        y.len() > 0,
        all_pos(x.drop_first()),
        all_pos(y.drop_first()),
        x != y,
    ensures
        lex_lt(x + seq![0u64, i], y + seq![0u64, j]) == lex_lt(x, y),
{
    let l = x + seq![0u64, i];
    let r = y + seq![0u64, j];
    assert(l[0] == x[0]);
    assert(r[0] == y[0]);
    if x[0] == y[0] {
        assert(l.drop_first() =~= x.drop_first() + seq![0u64, i]);
        assert(r.drop_first() =~= y.drop_first() + seq![0u64, j]);
        if x.drop_first() == y.drop_first() {
            assert(x =~= seq![x[0]] + x.drop_first());
            assert(y =~= seq![y[0]] + y.drop_first());
        }
        lemma_lex_sep_pos(x.drop_first(), y.drop_first(), i, j);
    }
}

// ---- determinism ---------------------------------------------------------------------

/// No two entries of the snapshot share a directory and a name.
pub open spec fn distinct_names(es: Seq<EntryView>) -> bool {
    forall|i: int, j: int|
        0 <= i < es.len() && 0 <= j < es.len() && i != j ==> es[i].dir != es[j].dir || es[i].name
            != es[j].name
}

/// In apply order, a snapshot without repeated names is strictly increasing
/// by base key.
proof fn lemma_planned_by_base(entries: Seq<EntryView>)
    requires
        entries.len() <= usize::MAX,
        distinct_names(entries),
    ensures
        planned_entries(entries).len() == entries.len(),
        forall|x: EntryView| planned_entries(entries).contains(x) <==> entries.contains(x),
        forall|i: int, j: int|
            0 <= i < j < entries.len() ==> lex_lt(
                #[trigger] base_key(planned_entries(entries)[i]),
                #[trigger] base_key(planned_entries(entries)[j]),
            ),
{
    let o = apply_order(entries);
    let es = planned_entries(entries);
    let ks = sort_keys(entries);
    lemma_apply_order(entries);
    assert forall|x: EntryView| es.contains(x) <==> entries.contains(x) by {
        if es.contains(x) {
            let i = choose|i: int| 0 <= i < es.len() && es[i] == x;
            assert(o.contains(o[i]));
        }
        if entries.contains(x) {
            let k = choose|k: int| 0 <= k < entries.len() && entries[k] == x;
            assert(o.contains(k as usize));
            let i = choose|i: int| 0 <= i < o.len() && o[i] == k as usize;
            assert(es[i] == x);
        }
    }
    assert forall|i: int, j: int| 0 <= i < j < entries.len() implies lex_lt(
        #[trigger] base_key(es[i]),
        #[trigger] base_key(es[j]),
    ) by {
        let a = o[i] as int;
        let b = o[j] as int;
        assert(o.contains(o[i]));
        assert(o.contains(o[j]));
        assert(a != b);
        assert(lex_lt(ks[a], ks[b]));
        assert(ks[a] == base_key(es[i]) + seq![0u64, a as u64]);
        assert(ks[b] == base_key(es[j]) + seq![0u64, b as u64]);
        lemma_base_key_pos(es[i]);
        lemma_base_key_pos(es[j]);
        if base_key(es[i]) == base_key(es[j]) {
            lemma_base_key_inj(es[i], es[j]);
        }
        lemma_lex_sep(base_key(es[i]), base_key(es[j]), a as u64, b as u64);
    }
}

proof fn lemma_by_base_agree_upto(x: Seq<EntryView>, y: Seq<EntryView>, i: int)
    requires
        x.len() == y.len(),
        forall|v: EntryView| x.contains(v) <==> y.contains(v),
        forall|s: int, t: int|
            0 <= s < t < x.len() ==> lex_lt(#[trigger] base_key(x[s]), #[trigger] base_key(x[t])),
        forall|s: int, t: int|
            0 <= s < t < y.len() ==> lex_lt(#[trigger] base_key(y[s]), #[trigger] base_key(y[t])),
        0 <= i < x.len(),
    ensures
        forall|k: int| 0 <= k <= i ==> x[k] == y[k],
    decreases i,
{
    if i > 0 {
        lemma_by_base_agree_upto(x, y, i - 1);
    }
    let u = x[i];
    let v = y[i];
    if u != v {
        assert(y.contains(v));
        let j = choose|j: int| 0 <= j < x.len() && x[j] == v;
        assert(x.contains(u));
        let k = choose|k: int| 0 <= k < y.len() && y[k] == u;
        if j < i {
            assert(y[j] == v);
            assert(lex_lt(base_key(y[j]), base_key(y[i])));
            crate::order::lemma_lex_irrefl(base_key(v));
        }
        if k < i {
            assert(x[k] == u);
            assert(lex_lt(base_key(x[k]), base_key(x[i])));
            crate::order::lemma_lex_irrefl(base_key(u));
        }
        assert(lex_lt(base_key(x[i]), base_key(x[j])));
        assert(lex_lt(base_key(y[i]), base_key(y[k])));
        lemma_lex_asym(base_key(u), base_key(v));
    }
}

/// Determinism: a shuffled snapshot plans identically, collision numbering
/// included. Which entry keeps a contested name is a function of the names,
/// never of the order the walk listed them in. (`b` lists `a`'s entries in
/// the order `perm` gives; no two entries share a directory and a name, as
/// in any snapshot of a real directory tree.)
pub proof fn law_determinism(
    a: Seq<EntryView>,
    b: Seq<EntryView>,
    perm: Seq<usize>,
    p: Policy,
    oc: OnCollision,
    case: VolumeCase,
)
    requires
        a.len() <= usize::MAX,
        distinct_names(a),
        perm.len() == a.len(),
        perm.no_duplicates(),
        forall|x: usize| perm.contains(x) <==> x < a.len(),
        b.len() == a.len(),
        forall|i: int| 0 <= i < b.len() ==> b[i] == a[#[trigger] perm[i] as int],
    ensures
        planned_entries(a) == planned_entries(b),
        plan_spec(a, p, oc, case) == plan_spec(b, p, oc, case),
{
    assert forall|i: int, j: int|
        0 <= i < b.len() && 0 <= j < b.len() && i != j implies b[i].dir != b[j].dir || b[i].name
        != b[j].name by {
        assert(perm.contains(perm[i]));
        assert(perm.contains(perm[j]));
        assert(b[i] == a[perm[i] as int]);
        assert(b[j] == a[perm[j] as int]);
    }
    assert forall|x: EntryView| b.contains(x) <==> a.contains(x) by {
        if b.contains(x) {
            let i = choose|i: int| 0 <= i < b.len() && b[i] == x;
            assert(perm.contains(perm[i]));
        }
        if a.contains(x) {
            let k = choose|k: int| 0 <= k < a.len() && a[k] == x;
            assert(perm.contains(k as usize));
            let i = choose|i: int| 0 <= i < perm.len() && perm[i] == k as usize;
            assert(b[i] == x);
        }
    }
    lemma_planned_by_base(a);
    lemma_planned_by_base(b);
    let x = planned_entries(a);
    let y = planned_entries(b);
    assert forall|v: EntryView| x.contains(v) <==> y.contains(v) by {
        assert(x.contains(v) <==> a.contains(v));
        assert(y.contains(v) <==> b.contains(v));
    }
    if x.len() > 0 {
        lemma_by_base_agree_upto(x, y, x.len() - 1);
    }
    assert(x =~= y);
}

} // verus!
