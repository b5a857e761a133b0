//! One snapshot entry per directory entry. Overlapping walk arguments (`a a`,
//! or `a` and `a/b` under `-r`) reach some entries twice, and a second copy
//! would read to the planner as an occupant of the first one's name. The key
//! is the containing directory's identity plus the name, not the directory's
//! spelling: `.`, `` and `./x` are three spellings of one directory. Two
//! hardlinks in two directories stay two entries.

use vstd::prelude::*;
use crate::order::{
    is_sorted_perm, key_views, lemma_lex_asym, lemma_sorted_perm_unique, lex_lt, sort_indices,
    sorted_by,
};
use crate::plan::{Entry, EntryView, entry_views, enc_bytes, push_enc_bytes};
use crate::plan_laws::{all_pos, lemma_enc_bytes_inj, lemma_lex_sep_pos};

verus! {

/// Do two entries name one directory entry?
pub open spec fn same_place(a: EntryView, b: EntryView) -> bool {
    a.dir_ident == b.dir_ident && a.name == b.name
}

/// Is entry `x` the first in `es` to name its directory entry?
pub open spec fn first_of_its_place(es: Seq<EntryView>, x: int) -> bool {
    forall|j: int| 0 <= j < x ==> !same_place(#[trigger] es[j], es[x])
}

/// The place of an entry as a key: directory identity, then the name.
pub open spec fn place_key(e: EntryView) -> Seq<u64> {
    seq![e.dir_ident.0, e.dir_ident.1] + enc_bytes(e.name)
}

/// The sort key of entry `i`: its place, then its position.
pub open spec fn dedupe_key(e: EntryView, i: int) -> Seq<u64> {
    place_key(e) + seq![0u64, i as u64]
}

pub open spec fn dedupe_keys(es: Seq<EntryView>) -> Seq<Seq<u64>> {
    Seq::new(es.len(), |i: int| dedupe_key(es[i], i))
}

proof fn lemma_enc_pos(b: Seq<u8>)
    ensures
        all_pos(enc_bytes(b)),
        enc_bytes(b).len() == b.len() + 1,
{
    assert forall|k: int| 0 <= k < enc_bytes(b).len() implies enc_bytes(b)[k] >= 1 by {
        if k < b.len() {
            assert(enc_bytes(b)[k] == (b[k] + 2) as u64);
        }
    }
}

/// Two entries have one place key exactly when they share a place.
proof fn lemma_place_key(a: EntryView, b: EntryView)
    ensures
        place_key(a) == place_key(b) <==> same_place(a, b),
{
    if place_key(a) == place_key(b) {
        let ka = place_key(a);
        let kb = place_key(b);
        assert(ka[0] == a.dir_ident.0 && kb[0] == b.dir_ident.0);
        assert(ka[1] == a.dir_ident.1 && kb[1] == b.dir_ident.1);
        assert(enc_bytes(a.name) =~= ka.skip(2));
        assert(enc_bytes(b.name) =~= kb.skip(2));
        lemma_enc_bytes_inj(a.name, b.name);
    }
}

/// Between two places that differ, the positions never decide the order.
proof fn lemma_sep(a: EntryView, b: EntryView, i: u64, j: u64)
    requires
        place_key(a) != place_key(b),
    ensures
        lex_lt(place_key(a) + seq![0u64, i], place_key(b) + seq![0u64, j]) == lex_lt(
            place_key(a),
            place_key(b),
        ),
{
    let x = place_key(a);
    let y = place_key(b);
    let l = x + seq![0u64, i];
    let r = y + seq![0u64, j];
    lemma_enc_pos(a.name);
    lemma_enc_pos(b.name);
    let xs = enc_bytes(a.name);
    let ys = enc_bytes(b.name);
    assert(x.drop_first().drop_first() =~= xs);
    assert(y.drop_first().drop_first() =~= ys);
    assert(l.drop_first().drop_first() =~= xs + seq![0u64, i]);
    assert(r.drop_first().drop_first() =~= ys + seq![0u64, j]);
    if x[0] == y[0] && x[1] == y[1] {
        if xs == ys {
            assert(x =~= seq![x[0], x[1]] + xs);
            assert(y =~= seq![y[0], y[1]] + ys);
        }
        lemma_lex_sep_pos(xs, ys, i, j);
        assert(lex_lt(l.drop_first(), r.drop_first()) == lex_lt(l.drop_first().drop_first(), r.drop_first().drop_first()));
        assert(lex_lt(x.drop_first(), y.drop_first()) == lex_lt(x.drop_first().drop_first(), y.drop_first().drop_first()));
    } else if x[0] == y[0] {
        assert(lex_lt(l.drop_first(), r.drop_first()) == (x[1] < y[1]));
        assert(lex_lt(x.drop_first(), y.drop_first()) == (x[1] < y[1]));
    }
}

/// Within one place, the positions decide the order.
proof fn lemma_same(p: Seq<u64>, i: u64, j: u64)
    ensures
        lex_lt(p + seq![0u64, i], p + seq![0u64, j]) == (i < j),
    decreases p.len(),
{
    let l = p + seq![0u64, i];
    let r = p + seq![0u64, j];
    reveal_with_fuel(lex_lt, 3);
    if p.len() == 0 {
        assert(l =~= seq![0u64, i]);
        assert(r =~= seq![0u64, j]);
        assert(l.drop_first() =~= seq![i]);
        assert(r.drop_first() =~= seq![j]);
        assert(seq![i].drop_first() =~= Seq::<u64>::empty());
        assert(seq![j].drop_first() =~= Seq::<u64>::empty());
    } else {
        assert(l.drop_first() =~= p.drop_first() + seq![0u64, i]);
        assert(r.drop_first() =~= p.drop_first() + seq![0u64, j]);
        lemma_same(p.drop_first(), i, j);
    }
}

/// Keys with distinct positions are distinct.
proof fn lemma_keys_distinct(es: Seq<EntryView>)
    requires
        es.len() <= u64::MAX,
    ensures
        forall|a: int, b: int|
            0 <= a < es.len() && 0 <= b < es.len() && a != b ==> dedupe_keys(es)[a] != dedupe_keys(es)[b],
{
    assert forall|a: int, b: int|
        0 <= a < es.len() && 0 <= b < es.len() && a != b implies dedupe_keys(es)[a] != dedupe_keys(es)[b] by {
        let ka = dedupe_keys(es)[a];
        let kb = dedupe_keys(es)[b];
        if ka == kb {
            assert(ka.last() == a as u64);
            assert(kb.last() == b as u64);
        }
    }
}

/// In increasing key order, an entry is the first of its place exactly when
/// the entry just before it is of another place.
proof fn lemma_first_iff(es: Seq<EntryView>, o: Seq<usize>, t: int)
    requires
        es.len() <= u64::MAX,
        is_sorted_perm(o, dedupe_keys(es)),
        0 <= t < o.len(),
    ensures
        first_of_its_place(es, o[t] as int) <==> (t == 0 || !same_place(
            es[o[t - 1] as int],
            es[o[t] as int],
        )),
{
    let ks = dedupe_keys(es);
    let x = o[t] as int;
    assert(o.contains(o[t]));
    assert(x < es.len());
    if t > 0 && same_place(es[o[t - 1] as int], es[x]) {
        let m = o[t - 1] as int;
        assert(o.contains(o[t - 1]));
        assert(lex_lt(ks[m], ks[x]));
        lemma_place_key(es[m], es[x]);
        lemma_same(place_key(es[x]), m as u64, x as u64);
        assert(m < x);
        assert(!first_of_its_place(es, x));
    }
    if t == 0 || !same_place(es[o[t - 1] as int], es[x]) {
        assert forall|j: int| 0 <= j < x implies !same_place(#[trigger] es[j], es[x]) by {
            if same_place(es[j], es[x]) {
                lemma_place_key(es[j], es[x]);
                let ju = j as usize;
                assert(o.contains(ju));
                let u = choose|u: int| 0 <= u < o.len() && o[u] == ju;
                lemma_same(place_key(es[x]), j as u64, x as u64);
                assert(lex_lt(ks[j], ks[x]));
                if u > t {
                    assert(lex_lt(ks[x], ks[j]));
                    lemma_lex_asym(ks[j], ks[x]);
                }
                assert(u != t);
                assert(u < t);
                let m = o[t - 1] as int;
                assert(o.contains(o[t - 1]));
                if u == t - 1 {
                    assert(m == j);
                } else {
                    assert(lex_lt(ks[j], ks[m]));
                    assert(lex_lt(ks[m], ks[x]));
                    lemma_place_key(es[m], es[x]);
                    lemma_place_key(es[m], es[j]);
                    lemma_sep(es[j], es[m], j as u64, m as u64);
                    lemma_sep(es[m], es[x], m as u64, x as u64);
                    assert(lex_lt(place_key(es[j]), place_key(es[m])));
                    assert(lex_lt(place_key(es[m]), place_key(es[j])));
                    lemma_lex_asym(place_key(es[j]), place_key(es[m]));
                }
            }
        }
    }
}

fn place_key_of(e: &Entry, i: usize) -> (k: Vec<u64>)
    ensures
        k@ == dedupe_key(e@, i as int),
{
    let mut k: Vec<u64> = Vec::new();
    k.push(e.dir_ident.0);
    k.push(e.dir_ident.1);
    push_enc_bytes(&mut k, &e.name);
    k.push(0);
    k.push(i as u64);
    assert(k@ =~= dedupe_key(e@, i as int));
    k
}

fn same_place_exec(a: &Entry, b: &Entry) -> (r: bool)
    ensures
        r == same_place(a@, b@),
{
    if a.dir_ident.0 != b.dir_ident.0 || a.dir_ident.1 != b.dir_ident.1 || a.name.len() != b.name.len() {
        return false;
    }
    let mut i: usize = 0;
    while i < a.name.len()
        invariant
            0 <= i <= a.name@.len() == b.name@.len(),
            forall|j: int| 0 <= j < i ==> a.name@[j] == b.name@[j],
        decreases a.name@.len() - i,
    {
        if a.name[i] != b.name[i] {
            return false;
        }
        i += 1;
    }
    assert(a.name@ =~= b.name@);
    true
}

/// The positions of the entries to keep, in order: each directory entry's
/// first appearance in the walk, and no other.
pub fn first_entries(entries: &[Entry]) -> (r: Vec<usize>)
    requires
        entries@.len() <= u64::MAX,
    ensures
        forall|k: int| 0 <= k < r@.len() ==> #[trigger] r@[k] < entries@.len(),
        forall|k: int| 0 <= k < r@.len() ==> first_of_its_place(entry_views(entries@), #[trigger] r@[k] as int),
        forall|a: int, b: int| 0 <= a < b < r@.len() ==> r@[a] < r@[b],
        forall|x: int|
            0 <= x < entries@.len() && first_of_its_place(entry_views(entries@), x) ==> r@.contains(x as usize),
{
    let ghost es = entry_views(entries@);
    let n = entries.len();
    let mut keys: Vec<Vec<u64>> = Vec::new();
    let mut i: usize = 0;
    while i < n
        invariant
            0 <= i <= n == entries@.len() == es.len(),
            es == entry_views(entries@),
            keys@.len() == i,
            forall|k: int| 0 <= k < i ==> #[trigger] keys@[k]@ == dedupe_keys(es)[k],
        decreases n - i,
    {
        keys.push(place_key_of(&entries[i], i));
        i += 1;
    }
    assert(key_views(keys@) =~= dedupe_keys(es));
    proof {
        lemma_keys_distinct(es);
    }
    let order = sort_indices(&keys);
    assert(is_sorted_perm(order@, dedupe_keys(es)));
    let mut first: Vec<bool> = Vec::new();
    let mut k: usize = 0;
    while k < n
        invariant
            0 <= k <= n == entries@.len() == es.len(),
            first@.len() == k,
            forall|y: int| 0 <= y < k ==> !first@[y],
        decreases n - k,
    {
        first.push(false);
        k += 1;
    }
    let mut t: usize = 0;
    while t < n
        invariant
            0 <= t <= n == entries@.len() == es.len() == order@.len(),
            es == entry_views(entries@),
            is_sorted_perm(order@, dedupe_keys(es)),
            first@.len() == n,
            forall|s: int| 0 <= s < t ==> first@[#[trigger] order@[s] as int] == first_of_its_place(es, order@[s] as int),
            forall|x: int| 0 <= x < n && !(exists|s: int| 0 <= s < t && order@[s] == x) ==> !first@[x],
        decreases n - t,
    {
        assert(order@.contains(order@[t as int]));
        let x = order[t];
        if t > 0 {
            assert(order@.contains(order@[t - 1]));
        }
        let f = t == 0 || !same_place_exec(&entries[order[t - 1]], &entries[x]);
        proof {
            if t > 0 {
                assert(order@.contains(order@[t - 1]));
            }
            lemma_first_iff(es, order@, t as int);
        }
        let ghost before = first@;
        first.set(x, f);
        proof {
            assert forall|s: int| 0 <= s < t + 1 implies first@[#[trigger] order@[s] as int]
                == first_of_its_place(es, order@[s] as int) by {
                assert(order@.contains(order@[s]));
                if s < t {
                    assert(order@[s] != order@[t as int]);
                    assert(first@[order@[s] as int] == before[order@[s] as int]);
                }
            }
            assert forall|y: int| 0 <= y < n && !(exists|s: int| 0 <= s < t + 1 && order@[s] == y) implies !first@[y] by {
                assert(order@[t as int] != y);
                assert(!(exists|s: int| 0 <= s < t && order@[s] == y));
            }
        }
        t += 1;
    }
    let mut out: Vec<usize> = Vec::new();
    let mut x: usize = 0;
    while x < n
        invariant
            0 <= x <= n == entries@.len() == es.len() == order@.len(),
            es == entry_views(entries@),
            first@.len() == n,
            is_sorted_perm(order@, dedupe_keys(es)),
            forall|s: int| 0 <= s < n ==> first@[#[trigger] order@[s] as int] == first_of_its_place(es, order@[s] as int),
            forall|k: int| 0 <= k < out@.len() ==> #[trigger] out@[k] < x,
            forall|k: int| 0 <= k < out@.len() ==> first_of_its_place(es, #[trigger] out@[k] as int),
            forall|a: int, b: int| 0 <= a < b < out@.len() ==> out@[a] < out@[b],
            forall|y: int| 0 <= y < x && first_of_its_place(es, y) ==> out@.contains(y as usize),
        decreases n - x,
    {
        let ghost xu = x;
        assert(order@.contains(xu));
        let ghost s = choose|s: int| 0 <= s < order@.len() && order@[s] == xu;
        assert(first@[order@[s] as int] == first_of_its_place(es, x as int));
        if first[x] {
            let ghost old_out = out@;
            out.push(x);
            proof {
                assert forall|y: int| 0 <= y < x + 1 && first_of_its_place(es, y) implies out@.contains(y as usize) by {
                    if y < x {
                        let k = choose|k: int| 0 <= k < old_out.len() && old_out[k] == y as usize;
                        assert(out@[k] == y as usize);
                    } else {
                        assert(out@[old_out.len() as int] == x);
                    }
                }
            }
        } else {
            proof {
                assert forall|y: int| 0 <= y < x + 1 && first_of_its_place(es, y) implies out@.contains(y as usize) by {
                    if y == x {
                        assert(false);
                    }
                }
            }
        }
        x += 1;
    }
    out
}

} // verus!
