//! Sorting by lexicographically ordered keys.
//!
//! A sort key is flattened into one sequence of `u64`s whose lexicographic
//! order is the key's order; [`sort_indices`] is a merge sort of positions by
//! those sequences.

use vstd::prelude::*;

verus! {

/// Lexicographic "less than" on sequences: a proper prefix is less.
pub open spec fn lex_lt(a: Seq<u64>, b: Seq<u64>) -> bool
    decreases a.len(),
{
    if a.len() == 0 {
        b.len() > 0
    } else if b.len() == 0 {
        false
    } else if a[0] < b[0] {
        true
    } else if a[0] > b[0] {
        false
    } else {
        lex_lt(a.drop_first(), b.drop_first())
    }
}

pub proof fn lemma_lex_irrefl(a: Seq<u64>)
    ensures
        !lex_lt(a, a),
    decreases a.len(),
{
    if a.len() > 0 {
        lemma_lex_irrefl(a.drop_first());
    }
}

pub proof fn lemma_lex_trans(a: Seq<u64>, b: Seq<u64>, c: Seq<u64>)
    requires
        lex_lt(a, b),
        lex_lt(b, c),
    ensures
        lex_lt(a, c),
    decreases a.len(),
{
    if a.len() > 0 && b.len() > 0 && c.len() > 0 {
        if a[0] == b[0] && b[0] == c[0] {
            lemma_lex_trans(a.drop_first(), b.drop_first(), c.drop_first());
        }
    }
}

pub proof fn lemma_lex_total(a: Seq<u64>, b: Seq<u64>)
    requires
        a != b,
    ensures
        lex_lt(a, b) || lex_lt(b, a),
    decreases a.len(),
{
    if a.len() == 0 && b.len() == 0 {
        assert(a =~= b);
    } else if a.len() > 0 && b.len() > 0 && a[0] == b[0] {
        if a.drop_first() == b.drop_first() {
            assert(a.drop_first().len() == b.drop_first().len());
            assert(a.len() == b.len());
            assert forall|k: int| 0 <= k < a.len() implies a[k] == b[k] by {
                if k > 0 {
                    assert(a[k] == a.drop_first()[k - 1]);
                    assert(b[k] == b.drop_first()[k - 1]);
                }
            }
            assert(a =~= b);
        } else {
            lemma_lex_total(a.drop_first(), b.drop_first());
        }
    }
}

pub proof fn lemma_lex_asym(a: Seq<u64>, b: Seq<u64>)
    requires
        lex_lt(a, b),
    ensures
        !lex_lt(b, a),
{
    if lex_lt(b, a) {
        lemma_lex_trans(a, b, a);
        lemma_lex_irrefl(a);
    }
}

/// Lexicographic comparison of two key sequences.
pub fn lex_less(a: &[u64], b: &[u64]) -> (r: bool)
    ensures
        r == lex_lt(a@, b@),
{
    let mut i: usize = 0;
    assert(a@.skip(0) =~= a@ && b@.skip(0) =~= b@);
    while i < a.len() && i < b.len() && a[i] == b[i]
        invariant
            0 <= i <= a@.len(),
            i <= b@.len(),
            lex_lt(a@, b@) == lex_lt(a@.skip(i as int), b@.skip(i as int)),
        decreases a@.len() - i,
    {
        assert(a@.skip(i as int).drop_first() =~= a@.skip(i + 1));
        assert(b@.skip(i as int).drop_first() =~= b@.skip(i + 1));
        i += 1;
    }
    if i == a.len() {
        assert(a@.skip(i as int).len() == 0);
        i < b.len()
    } else if i == b.len() {
        false
    } else {
        assert(a@.skip(i as int)[0] == a@[i as int]);
        assert(b@.skip(i as int)[0] == b@[i as int]);
        a[i] < b[i]
    }
}

pub proof fn lemma_push_contains(s: Seq<usize>, x: usize, y: usize)
    ensures
        s.push(x).contains(y) <==> (s.contains(y) || y == x),
{
    if s.contains(y) {
        let k = choose|k: int| 0 <= k < s.len() && s[k] == y;
        assert(s.push(x)[k] == y);
    }
    if y == x {
        assert(s.push(x)[s.len() as int] == x);
    }
    if s.push(x).contains(y) {
        let k = choose|k: int| 0 <= k < s.push(x).len() && s.push(x)[k] == y;
        if k < s.len() {
            assert(s[k] == y);
        }
    }
}

pub proof fn lemma_push_no_dups(s: Seq<usize>, x: usize)
    requires
        s.no_duplicates(),
        !s.contains(x),
    ensures
        s.push(x).no_duplicates(),
{
    assert forall|i: int, j: int| 0 <= i < s.push(x).len() && 0 <= j < s.push(x).len() && i != j
        implies s.push(x)[i] != s.push(x)[j] by {
        if i == s.len() {
            assert(s[j] == s.push(x)[j]);
        } else if j == s.len() {
            assert(s[i] == s.push(x)[i]);
        }
    }
}

/// Facts about the next element of a duplicate-free sequence.
pub proof fn lemma_take_step(s: Seq<usize>, i: int)
    requires
        s.no_duplicates(),
        0 <= i < s.len(),
    ensures
        s.take(i + 1) == s.take(i).push(s[i]),
        !s.take(i).contains(s[i]),
{
    assert(s.take(i + 1) =~= s.take(i).push(s[i]));
    if s.take(i).contains(s[i]) {
        let k = choose|k: int| 0 <= k < i && s.take(i)[k] == s[i];
        assert(s[k] == s[i]);
    }
}

/// No two keys are equal.
pub open spec fn distinct_keys(keys: Seq<Seq<u64>>) -> bool {
    forall|i: int, j: int| 0 <= i < keys.len() && 0 <= j < keys.len() && i != j ==> keys[i] != keys[j]
}

/// `order`'s keys strictly increase.
pub open spec fn sorted_by(order: Seq<usize>, keys: Seq<Seq<u64>>) -> bool {
    forall|i: int, j: int|
        0 <= i < j < order.len() ==> lex_lt(#[trigger] keys[order[i] as int], #[trigger] keys[order[j] as int])
}

pub open spec fn key_views(keys: Seq<Vec<u64>>) -> Seq<Seq<u64>> {
    keys.map_values(|k: Vec<u64>| k@)
}

/// `o` lists the positions `0..keys.len()`, each once, in increasing key order.
pub open spec fn is_sorted_perm(o: Seq<usize>, keys: Seq<Seq<u64>>) -> bool {
    &&& o.len() == keys.len()
    &&& o.no_duplicates()
    &&& forall|x: usize| o.contains(x) <==> x < keys.len()
    &&& sorted_by(o, keys)
}

proof fn lemma_sorted_perms_agree_upto(o1: Seq<usize>, o2: Seq<usize>, keys: Seq<Seq<u64>>, i: int)
    requires
        is_sorted_perm(o1, keys),
        is_sorted_perm(o2, keys),
        0 <= i < o1.len(),
    ensures
        forall|k: int| 0 <= k <= i ==> o1[k] == o2[k],
    decreases i,
{
    if i > 0 {
        lemma_sorted_perms_agree_upto(o1, o2, keys, i - 1);
    }
    let a = o1[i];
    let b = o2[i];
    if a != b {
        assert(o2.contains(b));
        assert(o1.contains(b));
        let j = choose|j: int| 0 <= j < o1.len() && o1[j] == b;
        assert(o1.contains(a));
        assert(o2.contains(a));
        let k = choose|k: int| 0 <= k < o2.len() && o2[k] == a;
        if j < i {
            assert(o2[j] == o1[j]);
        }
        if k < i {
            assert(o1[k] == o2[k]);
        }
        assert(j > i);
        assert(k > i);
        assert(lex_lt(keys[o1[i] as int], keys[o1[j] as int]));
        assert(lex_lt(keys[o2[i] as int], keys[o2[k] as int]));
        lemma_lex_asym(keys[a as int], keys[b as int]);
    }
}

/// There is only one way to list the positions in increasing key order.
pub proof fn lemma_sorted_perm_unique(o1: Seq<usize>, o2: Seq<usize>, keys: Seq<Seq<u64>>)
    requires
        is_sorted_perm(o1, keys),
        is_sorted_perm(o2, keys),
    ensures
        o1 == o2,
{
    if o1.len() > 0 {
        lemma_sorted_perms_agree_upto(o1, o2, keys, o1.len() - 1);
    }
    assert(o1 =~= o2);
}

/// The first position of `o` from `i` on whose key is not below `k`.
proof fn insert_point(o: Seq<usize>, keys: Seq<Seq<u64>>, k: Seq<u64>, i: int) -> (j: int)
    requires
        0 <= i <= o.len(),
        forall|t: int| 0 <= t < i ==> lex_lt(#[trigger] keys[o[t] as int], k),
    ensures
        i <= j <= o.len(),
        forall|t: int| 0 <= t < j ==> lex_lt(#[trigger] keys[o[t] as int], k),
        j < o.len() ==> !lex_lt(keys[o[j] as int], k),
    decreases o.len() - i,
{
    if i == o.len() {
        i
    } else if lex_lt(keys[o[i] as int], k) {
        insert_point(o, keys, k, i + 1)
    } else {
        i
    }
}

proof fn sorted_prefix(keys: Seq<Seq<u64>>, m: nat) -> (o: Seq<usize>)
    requires
        distinct_keys(keys),
        m <= keys.len() <= usize::MAX,
    ensures
        o.len() == m,
        o.no_duplicates(),
        forall|x: usize| o.contains(x) <==> x < m,
        sorted_by(o, keys),
    decreases m,
{
    if m == 0 {
        Seq::empty()
    } else {
        let o = sorted_prefix(keys, (m - 1) as nat);
        let x = (m - 1) as usize;
        let k = keys[x as int];
        assert forall|t: int| 0 <= t < o.len() implies o[t] < x by {
            assert(o.contains(o[t]));
        }
        let j = insert_point(o, keys, k, 0);
        let r = o.take(j).push(x) + o.skip(j);
        assert(r.len() == m);
        assert forall|t: int| 0 <= t < r.len() implies #[trigger] r[t] == (if t < j {
            o[t]
        } else if t == j {
            x
        } else {
            o[t - 1]
        }) by {}
        if j < o.len() {
            assert(keys[o[j] as int] != k);
            lemma_lex_total(keys[o[j] as int], k);
        }
        assert forall|t: int| j <= t < o.len() implies lex_lt(k, #[trigger] keys[o[t] as int]) by {
            if t > j {
                lemma_lex_trans(k, keys[o[j] as int], keys[o[t] as int]);
            }
        }
        assert forall|s: int, t: int| 0 <= s < t < r.len() implies lex_lt(
            #[trigger] keys[r[s] as int],
            #[trigger] keys[r[t] as int],
        ) by {
            if t < j {
            } else if t == j {
                assert(r[s] == o[s]);
            } else if s < j {
                assert(r[s] == o[s]);
                assert(r[t] == o[t - 1]);
                assert(lex_lt(keys[o[s] as int], k));
                lemma_lex_trans(keys[o[s] as int], k, keys[o[t - 1] as int]);
            } else if s == j {
                assert(r[t] == o[t - 1]);
            } else {
                assert(r[s] == o[s - 1]);
                assert(r[t] == o[t - 1]);
            }
        }
        assert forall|y: usize| r.contains(y) <==> y < m by {
            if r.contains(y) {
                let t = choose|t: int| 0 <= t < r.len() && r[t] == y;
                if t < j {
                    assert(o.contains(o[t]));
                } else if t > j {
                    assert(o.contains(o[t - 1]));
                }
            }
            if y < m {
                if y == x {
                    assert(r[j] == x);
                } else {
                    assert(o.contains(y));
                    let t = choose|t: int| 0 <= t < o.len() && o[t] == y;
                    if t < j {
                        assert(r[t] == y);
                    } else {
                        assert(r[t + 1] == y);
                    }
                }
            }
        }
        assert forall|s: int, t: int| 0 <= s < r.len() && 0 <= t < r.len() && s != t implies r[s]
            != r[t] by {
            if s != j && t != j {
                let os = if s < j { s } else { s - 1 };
                let ot = if t < j { t } else { t - 1 };
                assert(r[s] == o[os]);
                assert(r[t] == o[ot]);
            } else if s == j {
                let ot = if t < j { t } else { t - 1 };
                assert(r[t] == o[ot]);
            } else {
                let os = if s < j { s } else { s - 1 };
                assert(r[s] == o[os]);
            }
        }
        r
    }
}

/// Distinct keys can always be listed in increasing order.
pub proof fn lemma_sorted_perm_exists(keys: Seq<Seq<u64>>)
    requires
        distinct_keys(keys),
        keys.len() <= usize::MAX,
    ensures
        exists|o: Seq<usize>| is_sorted_perm(o, keys),
{
    let o = sorted_prefix(keys, keys.len());
    assert(is_sorted_perm(o, keys));
}

fn merge(keys: &Vec<Vec<u64>>, a: Vec<usize>, b: Vec<usize>) -> (r: Vec<usize>)
    requires
        distinct_keys(key_views(keys@)),
        forall|t: int| 0 <= t < a@.len() ==> a@[t] < keys@.len(),
        forall|t: int| 0 <= t < b@.len() ==> b@[t] < keys@.len(),
        sorted_by(a@, key_views(keys@)),
        sorted_by(b@, key_views(keys@)),
        a@.no_duplicates(),
        b@.no_duplicates(),
        forall|s: int, t: int| 0 <= s < a@.len() && 0 <= t < b@.len() ==> a@[s] != b@[t],
    ensures
        r@.len() == a@.len() + b@.len(),
        sorted_by(r@, key_views(keys@)),
        r@.no_duplicates(),
        forall|x: usize| r@.contains(x) <==> (a@.contains(x) || b@.contains(x)),
{
    let ghost kv = key_views(keys@);
    let mut r: Vec<usize> = Vec::new();
    let mut i: usize = 0;
    let mut j: usize = 0;
    while i < a.len() || j < b.len()
        invariant
            kv == key_views(keys@),
            distinct_keys(kv),
            forall|t: int| 0 <= t < a@.len() ==> a@[t] < keys@.len(),
            forall|t: int| 0 <= t < b@.len() ==> b@[t] < keys@.len(),
            sorted_by(a@, kv),
            sorted_by(b@, kv),
            a@.no_duplicates(),
            b@.no_duplicates(),
            forall|s: int, t: int| 0 <= s < a@.len() && 0 <= t < b@.len() ==> a@[s] != b@[t],
            0 <= i <= a@.len(),
            0 <= j <= b@.len(),
            r@.len() == i + j,
            sorted_by(r@, kv),
            r@.no_duplicates(),
            forall|x: usize| r@.contains(x) <==> (a@.take(i as int).contains(x) || b@.take(
                j as int,
            ).contains(x)),
            forall|k: int, t: int|
                0 <= k < r@.len() && i <= t < a@.len() ==> lex_lt(
                    #[trigger] kv[r@[k] as int],
                    #[trigger] kv[a@[t] as int],
                ),
            forall|k: int, t: int|
                0 <= k < r@.len() && j <= t < b@.len() ==> lex_lt(
                    #[trigger] kv[r@[k] as int],
                    #[trigger] kv[b@[t] as int],
                ),
        decreases a@.len() + b@.len() - i - j,
    {
        let take_a = if i < a.len() && j < b.len() {
            lex_less(&keys[a[i]], &keys[b[j]])
        } else {
            i < a.len()
        };
        let ghost old_r = r@;
        if take_a {
            let x = a[i];
            proof {
                assert(kv[x as int] == keys@[x as int]@);
                if j < b@.len() {
                    assert(kv[b@[j as int] as int] == keys@[b@[j as int] as int]@);
                    assert forall|t: int| j <= t < b@.len() implies lex_lt(
                        kv[x as int],
                        #[trigger] kv[b@[t] as int],
                    ) by {
                        if t > j {
                            lemma_lex_trans(kv[x as int], kv[b@[j as int] as int], kv[b@[t] as int]);
                        }
                    }
                }
                lemma_take_step(a@, i as int);
                if b@.take(j as int).contains(x) {
                    let k = choose|k: int| 0 <= k < j && b@.take(j as int)[k] == x;
                    assert(b@[k] == x);
                }
                lemma_push_no_dups(old_r, x);
                assert forall|y: usize| old_r.push(x).contains(y) <==> (a@.take(i + 1).contains(y)
                    || b@.take(j as int).contains(y)) by {
                    lemma_push_contains(old_r, x, y);
                    lemma_push_contains(a@.take(i as int), x, y);
                }
            }
            r.push(x);
            i += 1;
        } else {
            let x = b[j];
            proof {
                assert(kv[x as int] == keys@[x as int]@);
                if i < a@.len() {
                    assert(kv[a@[i as int] as int] == keys@[a@[i as int] as int]@);
                    assert(a@[i as int] != x);
                    lemma_lex_total(kv[a@[i as int] as int], kv[x as int]);
                    assert forall|t: int| i <= t < a@.len() implies lex_lt(
                        kv[x as int],
                        #[trigger] kv[a@[t] as int],
                    ) by {
                        if t > i {
                            lemma_lex_trans(kv[x as int], kv[a@[i as int] as int], kv[a@[t] as int]);
                        }
                    }
                }
                lemma_take_step(b@, j as int);
                if a@.take(i as int).contains(x) {
                    let k = choose|k: int| 0 <= k < i && a@.take(i as int)[k] == x;
                    assert(a@[k] == x);
                }
                lemma_push_no_dups(old_r, x);
                assert forall|y: usize| old_r.push(x).contains(y) <==> (a@.take(i as int).contains(y)
                    || b@.take(j + 1).contains(y)) by {
                    lemma_push_contains(old_r, x, y);
                    lemma_push_contains(b@.take(j as int), x, y);
                }
            }
            r.push(x);
            j += 1;
        }
    }
    assert(a@.take(a@.len() as int) =~= a@);
    assert(b@.take(b@.len() as int) =~= b@);
    r
}

/// The positions `lo..hi`, ordered by their keys.
pub fn sort_range(keys: &Vec<Vec<u64>>, lo: usize, hi: usize) -> (r: Vec<usize>)
    requires
        lo <= hi <= keys@.len(),
        distinct_keys(key_views(keys@)),
    ensures
        r@.len() == hi - lo,
        sorted_by(r@, key_views(keys@)),
        r@.no_duplicates(),
        forall|x: usize| r@.contains(x) <==> lo <= x < hi,
    decreases hi - lo,
{
    if hi - lo == 0 {
        let r: Vec<usize> = Vec::new();
        assert(forall|x: usize| !r@.contains(x));
        return r;
    }
    if hi - lo == 1 {
        let mut r: Vec<usize> = Vec::new();
        r.push(lo);
        assert(forall|x: usize| r@.contains(x) <==> x == lo) by {
            assert(r@[0] == lo);
        }
        return r;
    }
    let mid = lo + (hi - lo) / 2;
    let a = sort_range(keys, lo, mid);
    let b = sort_range(keys, mid, hi);
    proof {
        assert forall|t: int| 0 <= t < a@.len() implies a@[t] < keys@.len() by {
            assert(a@.contains(a@[t]));
        }
        assert forall|t: int| 0 <= t < b@.len() implies b@[t] < keys@.len() by {
            assert(b@.contains(b@[t]));
        }
        assert forall|s: int, t: int| 0 <= s < a@.len() && 0 <= t < b@.len() implies a@[s] != b@[t] by {
            assert(a@.contains(a@[s]));
            assert(b@.contains(b@[t]));
        }
    }
    merge(keys, a, b)
}

/// Positions `0..keys.len()`, in increasing order of their keys.
pub fn sort_indices(keys: &Vec<Vec<u64>>) -> (r: Vec<usize>)
    requires
        distinct_keys(key_views(keys@)),
    ensures
        r@.len() == keys@.len(),
        sorted_by(r@, key_views(keys@)),
        r@.no_duplicates(),
        forall|x: usize| r@.contains(x) <==> x < keys@.len(),
{
    sort_range(keys, 0, keys.len())
}

} // verus!
