//! Stable ordering by integer keys, and the median keys that drive the
//! crossing reduction.
use vstd::prelude::*;

verus! {

/// Number of leading entries whose key is at most `key`.
pub open spec fn upper_bound(s: Seq<(usize, usize)>, key: usize) -> nat
    decreases s.len(),
{
    if s.len() == 0 {
        0
    } else if s[0].0 > key {
        0
    } else {
        1 + upper_bound(s.drop_first(), key)
    }
}

/// `x` inserted after the leading entries whose key is at most its own.
pub open spec fn insert_by_key(s: Seq<(usize, usize)>, x: (usize, usize)) -> Seq<(usize, usize)> {
    let p = upper_bound(s, x.0) as int;
    s.take(p) + seq![x] + s.skip(p)
}

/// The entries ordered by key, entries with equal keys keeping their order.
pub open spec fn sort_by_key(s: Seq<(usize, usize)>) -> Seq<(usize, usize)>
    decreases s.len(),
{
    if s.len() == 0 {
        s
    } else {
        insert_by_key(sort_by_key(s.drop_last()), s.last())
    }
}

/// The keys are in ascending order.
pub open spec fn keys_sorted(s: Seq<(usize, usize)>) -> bool {
    forall|i: int, j: int| 0 <= i <= j < s.len() ==> #[trigger] s[i].0 <= #[trigger] s[j].0
}

proof fn lemma_upper_bound(s: Seq<(usize, usize)>, key: usize, p: int)
    requires
        0 <= p <= s.len(),
        forall|q: int| 0 <= q < p ==> #[trigger] s[q].0 <= key,
        p == s.len() || s[p].0 > key,
    ensures
        upper_bound(s, key) == p,
    decreases p,
{
    if p > 0 {
        let t = s.drop_first();
        assert forall|q: int| 0 <= q < p - 1 implies #[trigger] t[q].0 <= key by {
            assert(t[q] == s[q + 1]);
        }
        if p < s.len() {
            assert(t[p - 1] == s[p]);
        }
        lemma_upper_bound(t, key, p - 1);
    }
}

proof fn lemma_upper_bound_range(s: Seq<(usize, usize)>, key: usize)
    ensures
        upper_bound(s, key) <= s.len(),
        forall|q: int| 0 <= q < upper_bound(s, key) ==> #[trigger] s[q].0 <= key,
    decreases s.len(),
{
    if s.len() > 0 && s[0].0 <= key {
        let t = s.drop_first();
        lemma_upper_bound_range(t, key);
        assert forall|q: int| 0 <= q < upper_bound(s, key) implies #[trigger] s[q].0 <= key by {
            if q > 0 {
                assert(s[q] == t[q - 1]);
            }
        }
    }
}

/// Sorting keeps the entries and orders them by key.
pub proof fn lemma_sort_by_key(s: Seq<(usize, usize)>)
    ensures
        sort_by_key(s).len() == s.len(),
        keys_sorted(sort_by_key(s)),
        sort_by_key(s).to_multiset() == s.to_multiset(),
    decreases s.len(),
{
    if s.len() > 0 {
        let d = s.drop_last();
        lemma_sort_by_key(d);
        let t = sort_by_key(d);
        let x = s.last();
        let p = upper_bound(t, x.0) as int;
        lemma_upper_bound_range(t, x.0);
        let r = insert_by_key(t, x);
        assert forall|i: int, j: int| 0 <= i <= j < r.len() implies #[trigger] r[i].0 <= #[trigger] r[j].0 by {
            if p < t.len() && j > p {
                assert(upper_bound(t, x.0) == p);
                if t[p].0 <= x.0 {
                    lemma_upper_bound_next(t, x.0);
                }
            }
            if i < p && j > p {
                assert(r[i] == t[i] && r[j] == t[j - 1]);
            } else if i < p && j == p {
                assert(r[i] == t[i]);
            } else if i == p && j > p {
                assert(r[j] == t[j - 1]);
            } else if i > p {
                assert(r[i] == t[i - 1] && r[j] == t[j - 1]);
            } else if j < p {
                assert(r[i] == t[i] && r[j] == t[j]);
            }
        }
        assert(r =~= t.insert(p, x));
        vstd::seq_lib::to_multiset_insert(t, p, x);
        assert(s =~= d.push(x));
        vstd::seq_lib::to_multiset_build(d, x);
    }
}

/// Every entry of the sorted list is an entry of the list.
pub proof fn lemma_sort_by_key_member(s: Seq<(usize, usize)>, j: int)
    requires
        0 <= j < s.len(),
    ensures
        sort_by_key(s).len() == s.len(),
        s.contains(sort_by_key(s)[j]),
{
    broadcast use vstd::seq_lib::group_to_multiset_ensures;

    lemma_sort_by_key(s);
    let t = sort_by_key(s);
    assert(t.contains(t[j]));
    assert(t.to_multiset().count(t[j]) > 0);
}

/// The payloads (second components) of a list of pairs.
pub open spec fn payloads(s: Seq<(usize, usize)>) -> Seq<usize> {
    s.map_values(|p: (usize, usize)| p.1)
}

/// Sorting keeps distinct payloads distinct, and the same payloads.
pub proof fn lemma_sort_payloads(s: Seq<(usize, usize)>)
    requires
        payloads(s).no_duplicates(),
    ensures
        payloads(sort_by_key(s)).no_duplicates(),
        payloads(sort_by_key(s)).len() == s.len(),
        forall|v: usize| #[trigger] payloads(sort_by_key(s)).contains(v) <==> payloads(s).contains(v),
    decreases s.len(),
{
    lemma_sort_by_key(s);
    let t = sort_by_key(s);
    assert forall|v: usize| #[trigger] payloads(t).contains(v) <==> payloads(s).contains(v) by {
        if payloads(t).contains(v) {
            let p = payloads(t).index_of(v);
            lemma_sort_by_key_member(s, p);
            let i = s.index_of(t[p]);
            assert(payloads(s)[i] == v);
        }
        if payloads(s).contains(v) {
            let i = payloads(s).index_of(v);
            assert(s.contains(s[i]));
            broadcast use vstd::seq_lib::group_to_multiset_ensures;
            assert(s.to_multiset().count(s[i]) > 0);
            assert(t.to_multiset().count(s[i]) > 0);
            assert(t.contains(s[i]));
            let p = t.index_of(s[i]);
            assert(payloads(t)[p] == v);
        }
    }
    assert forall|p: int, q: int| 0 <= p < t.len() && 0 <= q < t.len() && p != q implies payloads(t)[p] != payloads(t)[q] by {
        if payloads(t)[p] == payloads(t)[q] {
            lemma_sort_by_key_member(s, p);
            lemma_sort_by_key_member(s, q);
            let i = s.index_of(t[p]);
            let j = s.index_of(t[q]);
            assert(payloads(s)[i] == payloads(s)[j]);
            assert(i == j);
            assert(t[p] == t[q]);
            broadcast use vstd::seq_lib::group_to_multiset_ensures;
            lemma_two_positions_count(t, p, q);
            lemma_distinct_count(s, i);
        }
    }
}

proof fn lemma_two_positions_count(t: Seq<(usize, usize)>, p: int, q: int)
    requires
        0 <= p < t.len(),
        0 <= q < t.len(),
        p != q,
        t[p] == t[q],
    ensures
        t.to_multiset().count(t[p]) >= 2,
    decreases t.len(),
{
    broadcast use vstd::seq_lib::group_to_multiset_ensures;
    let d = t.drop_last();
    assert(t =~= d.push(t.last()));
    vstd::seq_lib::to_multiset_build(d, t.last());
    if p < t.len() - 1 && q < t.len() - 1 {
        lemma_two_positions_count(d, p, q);
    } else if p < t.len() - 1 {
        assert(d.contains(t[p]));
    } else {
        assert(d[q] == t[q]);
        assert(d.contains(t[q]));
    }
}

proof fn lemma_distinct_count(s: Seq<(usize, usize)>, i: int)
    requires
        0 <= i < s.len(),
        payloads(s).no_duplicates(),
    ensures
        s.to_multiset().count(s[i]) == 1,
    decreases s.len(),
{
    broadcast use vstd::seq_lib::group_to_multiset_ensures;
    let d = s.drop_last();
    assert(s =~= d.push(s.last()));
    vstd::seq_lib::to_multiset_build(d, s.last());
    assert(payloads(d).no_duplicates()) by {
        assert forall|a: int, b: int| 0 <= a < d.len() && 0 <= b < d.len() && a != b implies payloads(d)[a] != payloads(d)[b] by {
            assert(payloads(d)[a] == payloads(s)[a] && payloads(d)[b] == payloads(s)[b]);
        }
    }
    if i < s.len() - 1 {
        lemma_distinct_count(d, i);
        assert(s.last() != s[i]) by {
            assert(payloads(s)[s.len() - 1] != payloads(s)[i]);
        }
    } else {
        if d.contains(s[i]) {
            let j = d.index_of(s[i]);
            assert(payloads(s)[j] == payloads(s)[i]);
        }
        assert(d.to_multiset().count(s[i]) == 0);
    }
}

proof fn lemma_upper_bound_next(s: Seq<(usize, usize)>, key: usize)
    requires
        upper_bound(s, key) < s.len(),
    ensures
        s[upper_bound(s, key) as int].0 > key,
    decreases s.len(),
{
    if s[0].0 <= key {
        let t = s.drop_first();
        lemma_upper_bound_next(t, key);
        assert(s[upper_bound(s, key) as int] == t[upper_bound(t, key) as int]);
    }
}

/// `s` with `x` inserted by key.
pub fn insert_sorted(s: &Vec<(usize, usize)>, x: (usize, usize)) -> (r: Vec<(usize, usize)>)
    ensures
        r@ == insert_by_key(s@, x),
{
    let mut p: usize = 0;
    while p < s.len() && s[p].0 <= x.0
        invariant
            p <= s@.len(),
            forall|q: int| 0 <= q < p ==> #[trigger] s@[q].0 <= x.0,
        decreases s@.len() - p,
    {
        p = p + 1;
    }
    proof {
        lemma_upper_bound(s@, x.0, p as int);
    }
    let mut r: Vec<(usize, usize)> = Vec::new();
    let mut i: usize = 0;
    while i < p
        invariant
            p <= s@.len(),
            i <= p,
            r@ == s@.take(i as int),
        decreases p - i,
    {
        r.push(s[i]);
        i = i + 1;
        assert(r@ =~= s@.take(i as int));
    }
    r.push(x);
    let mut j: usize = p;
    while j < s.len()
        invariant
            p <= j <= s@.len(),
            r@ == s@.take(p as int) + seq![x] + s@.subrange(p as int, j as int),
        decreases s@.len() - j,
    {
        r.push(s[j]);
        j = j + 1;
        assert(r@ =~= s@.take(p as int) + seq![x] + s@.subrange(p as int, j as int));
    }
    assert(s@.subrange(p as int, s@.len() as int) =~= s@.skip(p as int));
    r
}

/// The entries ordered by key; entries with equal keys keep their order.
pub fn stable_sort_by_key(v: &Vec<(usize, usize)>) -> (r: Vec<(usize, usize)>)
    ensures
        r@ == sort_by_key(v@),
{
    let mut r: Vec<(usize, usize)> = Vec::new();
    let mut i: usize = 0;
    while i < v.len()
        invariant
            i <= v@.len(),
            r@ == sort_by_key(v@.take(i as int)),
        decreases v@.len() - i,
    {
        r = insert_sorted(&r, v[i]);
        proof {
            assert(v@.take(i as int + 1).drop_last() =~= v@.take(i as int));
        }
        i = i + 1;
    }
    assert(v@.take(v@.len() as int) =~= v@);
    r
}

/// Index of the first occurrence of `x` in `s`, or -1.
pub open spec fn first_index(s: Seq<usize>, x: usize) -> int
    decreases s.len(),
{
    if s.len() == 0 {
        -1
    } else if s[0] == x {
        0
    } else {
        let r = first_index(s.drop_first(), x);
        if r < 0 {
            -1
        } else {
            r + 1
        }
    }
}

pub proof fn lemma_first_index(s: Seq<usize>, x: usize, p: int)
    requires
        0 <= p <= s.len(),
        forall|q: int| 0 <= q < p ==> #[trigger] s[q] != x,
        p == s.len() || s[p] == x,
    ensures
        first_index(s, x) == (if p == s.len() {
            -1
        } else {
            p
        }),
    decreases p,
{
    if p > 0 {
        let t = s.drop_first();
        assert forall|q: int| 0 <= q < p - 1 implies #[trigger] t[q] != x by {
            assert(t[q] == s[q + 1]);
        }
        if p < s.len() {
            assert(t[p - 1] == s[p]);
        }
        lemma_first_index(t, x, p - 1);
    }
}

/// Index of the first occurrence of `x` in `s`, if any.
pub fn position_of(s: &Vec<usize>, x: usize) -> (r: Option<usize>)
    ensures
        r == (if first_index(s@, x) < 0 {
            None::<usize>
        } else {
            Some(first_index(s@, x) as usize)
        }),
{
    let mut p: usize = 0;
    while p < s.len() && s[p] != x
        invariant
            p <= s@.len(),
            forall|q: int| 0 <= q < p ==> #[trigger] s@[q] != x,
        decreases s@.len() - p,
    {
        p = p + 1;
    }
    proof {
        lemma_first_index(s@, x, p as int);
    }
    if p < s.len() {
        Some(p)
    } else {
        None
    }
}

/// Positions in `level` of the nodes of `ns` that occur there, in the order of `ns`.
pub open spec fn positions_in(ns: Seq<usize>, level: Seq<usize>) -> Seq<usize>
    decreases ns.len(),
{
    if ns.len() == 0 {
        seq![]
    } else {
        let prev = positions_in(ns.drop_last(), level);
        let f = first_index(level, ns.last());
        if f >= 0 {
            prev.push(f as usize)
        } else {
            prev
        }
    }
}

/// Each value paired with itself, so that it sorts by its own value.
pub open spec fn self_keyed(s: Seq<usize>) -> Seq<(usize, usize)> {
    s.map_values(|p: usize| (p, p))
}

/// Twice the median key of a non-empty sorted list: twice the middle key for
/// an odd length, the sum of the two middle keys for an even one.
pub open spec fn twice_median(s: Seq<(usize, usize)>) -> int {
    if s.len() % 2 == 1 {
        2 * s[(s.len() / 2) as int].0
    } else {
        s[s.len() / 2 - 1].0 + s[(s.len() / 2) as int].0
    }
}

/// Twice the sort key of the node at position `pos` whose neighbours are
/// `ns`, against the ordered neighbouring level `level`: twice the median of
/// the neighbours' positions there, or twice `pos` when none is there.
pub open spec fn median_key(ns: Seq<usize>, level: Seq<usize>, pos: int) -> int {
    let ps = sort_by_key(self_keyed(positions_in(ns, level)));
    if ps.len() == 0 {
        2 * pos
    } else {
        twice_median(ps)
    }
}

/// Positions in `level` of the nodes of `ns` that occur there.
pub fn positions_of(ns: &Vec<usize>, level: &Vec<usize>) -> (r: Vec<(usize, usize)>)
    ensures
        r@ == self_keyed(positions_in(ns@, level@)),
        forall|k: int| 0 <= k < r@.len() ==> #[trigger] r@[k].0 < level@.len(),
{
    let mut r: Vec<(usize, usize)> = Vec::new();
    let mut i: usize = 0;
    while i < ns.len()
        invariant
            i <= ns@.len(),
            r@ == self_keyed(positions_in(ns@.take(i as int), level@)),
            forall|k: int| 0 <= k < r@.len() ==> #[trigger] r@[k].0 < level@.len(),
        decreases ns@.len() - i,
    {
        let ghost t = ns@.take(i as int + 1);
        proof {
            assert(t.drop_last() =~= ns@.take(i as int));
            assert(t.last() == ns@[i as int]);
            lemma_first_index_range(level@, ns@[i as int]);
        }
        match position_of(level, ns[i]) {
            Some(p) => {
                r.push((p, p));
                assert(r@ =~= self_keyed(positions_in(t, level@)));
            },
            None => {},
        }
        i = i + 1;
    }
    assert(ns@.take(ns@.len() as int) =~= ns@);
    r
}

proof fn lemma_first_index_range(s: Seq<usize>, x: usize)
    ensures
        -1 <= first_index(s, x) < s.len(),
    decreases s.len(),
{
    if s.len() > 0 {
        lemma_first_index_range(s.drop_first(), x);
    }
}

/// Twice the median key of a non-empty list already sorted by key.
pub fn twice_median_of(s: &Vec<(usize, usize)>) -> (r: usize)
    requires
        s@.len() > 0,
        forall|k: int| 0 <= k < s@.len() ==> 2 * #[trigger] s@[k].0 <= usize::MAX,
    ensures
        r == twice_median(s@),
{
    let n = s.len();
    if n % 2 == 1 {
        2 * s[n / 2].0
    } else {
        let a = s[n / 2 - 1].0;
        let b = s[n / 2].0;
        if a <= b {
            a + b
        } else {
            b + a
        }
    }
}

} // verus!
