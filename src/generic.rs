//! Graph utilities over caller-supplied ids: the caller lists the items and
//! gives a function from an item to the items it depends on. Each utility
//! first reads the dependencies into a table of item positions and then
//! works on that table.
use crate::connect::holds;
use crate::cycles::{first_trail, has_closed_walk, is_cycle_trail, is_edge};
use crate::order::stable_sort_by_key;
use crate::graph::{empty_model, GraphModel, RenderMode, DAG};
use core::hash::Hash;
use vstd::pervasive::cloned;
use vstd::prelude::*;
use vstd::std_specs::cmp::PartialEqSpec;

verus! {

/// The rows of a table, as views.
pub open spec fn rows(t: Seq<Vec<usize>>) -> Seq<Seq<usize>> {
    t.map_values(|x: Vec<usize>| x@)
}

/// Position of the last of the first `k` items equal to `d`, or
/// `items.len()` when none is.
pub open spec fn last_eq<Id: PartialEq>(items: Seq<Id>, d: Id, k: int) -> nat
    decreases k,
{
    if k <= 0 {
        items.len()
    } else if items[k - 1].eq_spec(&d) {
        (k - 1) as nat
    } else {
        last_eq(items, d, k - 1)
    }
}

/// Position of the last item equal to `d`, or `items.len()` when none is.
pub open spec fn lookup<Id: PartialEq>(items: Seq<Id>, d: Id) -> nat {
    last_eq(items, d, items.len() as int)
}

/// `dss` are results that `f` may give for each item, in item order.
pub open spec fn read_by<Id, F: Fn(&Id) -> Vec<Id>>(items: Seq<Id>, f: F, dss: Seq<Vec<Id>>) -> bool {
    &&& dss.len() == items.len()
    &&& forall|i: int| 0 <= i < items.len() ==> call_ensures(f, (&items[i],), #[trigger] dss[i])
}

/// Row `i` of `t` lists, for each dependency in `dss[i]`, the position of
/// the last equal item (or `items.len()` for one that is not an item).
pub open spec fn table_of<Id: PartialEq>(items: Seq<Id>, dss: Seq<Vec<Id>>, t: Seq<Seq<usize>>) -> bool {
    &&& t.len() == dss.len()
    &&& forall|i: int| 0 <= i < t.len() ==> #[trigger] t[i] == dss[i]@.map_values(|d: Id| lookup(items, d) as usize)
}

/// `t` is a dependency table of `items` read through `f`.
pub open spec fn is_table<Id: PartialEq, F: Fn(&Id) -> Vec<Id>>(items: Seq<Id>, f: F, t: Seq<Seq<usize>>) -> bool {
    exists|dss: Seq<Vec<Id>>| #[trigger] read_by(items, f, dss) && table_of(items, dss, t)
}

/// Item positions whose dependency row is empty, in order.
pub open spec fn roots_of(t: Seq<Seq<usize>>) -> Seq<usize>
    decreases t.len(),
{
    if t.len() == 0 {
        seq![]
    } else {
        let r = roots_of(t.drop_last());
        if t.last().len() == 0 {
            r.push((t.len() - 1) as usize)
        } else {
            r
        }
    }
}

/// Item positions whose key occurs in no dependency row, in order.
pub open spec fn leaves_of(t: Seq<Seq<usize>>, keys: Seq<usize>, k: int) -> Seq<usize>
    decreases k,
{
    if k <= 0 {
        seq![]
    } else {
        let r = leaves_of(t, keys, k - 1);
        if forall|j: int| 0 <= j < t.len() ==> !(#[trigger] t[j]).contains(keys[k - 1]) {
            r.push((k - 1) as usize)
        } else {
            r
        }
    }
}

/// Finds the position of the last item equal to `d`.
fn lookup_exec<Id: PartialEq>(items: &[Id], d: &Id) -> (r: usize)
    requires
        Id::obeys_eq_spec(),
    ensures
        r == lookup(items@, *d),
{
    let n = items.len();
    let mut k: usize = n;
    while k > 0
        invariant
            k <= n,
            n == items@.len(),
            Id::obeys_eq_spec(),
            lookup(items@, *d) == last_eq(items@, *d, k as int),
        decreases k,
    {
        if items[k - 1] == *d {
            return k - 1;
        }
        k = k - 1;
    }
    n
}

/// Reads the dependency table of `items` through `f`.
pub fn dependency_table<Id: PartialEq, F: Fn(&Id) -> Vec<Id>>(items: &[Id], f: &F) -> (t: Vec<Vec<usize>>)
    requires
        Id::obeys_eq_spec(),
        forall|x: &Id| #[trigger] f.requires((x,)),
    ensures
        is_table(items@, *f, rows(t@)),
        t@.len() == items@.len(),
        forall|i: int, k: int| 0 <= i < t@.len() && 0 <= k < t@[i]@.len() ==> #[trigger] t@[i]@[k] <= items@.len(),
{
    let mut t: Vec<Vec<usize>> = Vec::new();
    let ghost mut dss: Seq<Vec<Id>> = seq![];
    let mut i: usize = 0;
    while i < items.len()
        invariant
            Id::obeys_eq_spec(),
            forall|x: &Id| #[trigger] f.requires((x,)),
            i <= items@.len(),
            t@.len() == i,
            dss.len() == i,
            forall|j: int| 0 <= j < i ==> call_ensures(*f, (&items@[j],), #[trigger] dss[j]),
            table_of(items@, dss, rows(t@)),
            forall|j: int, k: int| 0 <= j < t@.len() && 0 <= k < t@[j]@.len() ==> #[trigger] t@[j]@[k] <= items@.len(),
        decreases items@.len() - i,
    {
        let ds = f(&items[i]);
        let row = positions_in_items(items, &ds);
        let ghost t0 = t@;
        t.push(row);
        proof {
            dss = dss.push(ds);
            assert forall|j: int| 0 <= j < i + 1 implies #[trigger] rows(t@)[j] == dss[j]@.map_values(|d: Id| lookup(items@, d) as usize) by {
                if j < i {
                    assert(t@[j] == t0[j]);
                    assert(rows(t0)[j] == t0[j]@);
                }
            }
        }
        i = i + 1;
    }
    assert(read_by(items@, *f, dss));
    t
}

/// The position of the last item equal to each of `ds`.
fn positions_in_items<Id: PartialEq>(items: &[Id], ds: &Vec<Id>) -> (row: Vec<usize>)
    requires
        Id::obeys_eq_spec(),
    ensures
        row@ == ds@.map_values(|d: Id| lookup(items@, d) as usize),
        forall|q: int| 0 <= q < row@.len() ==> #[trigger] row@[q] <= items@.len(),
{
    let mut row: Vec<usize> = Vec::new();
    let mut k: usize = 0;
    while k < ds.len()
        invariant
            Id::obeys_eq_spec(),
            k <= ds@.len(),
            row@ == ds@.take(k as int).map_values(|d: Id| lookup(items@, d) as usize),
            forall|q: int| 0 <= q < row@.len() ==> #[trigger] row@[q] <= items@.len(),
        decreases ds@.len() - k,
    {
        let p = lookup_exec(items, &ds[k]);
        proof {
            lemma_lookup_bound(items@, ds@[k as int]);
        }
        row.push(p);
        k = k + 1;
        assert(row@ =~= ds@.take(k as int).map_values(|d: Id| lookup(items@, d) as usize));
    }
    assert(ds@.take(ds@.len() as int) =~= ds@);
    row
}

proof fn lemma_lookup_bound<Id: PartialEq>(items: Seq<Id>, d: Id)
    ensures
        lookup(items, d) <= items.len(),
{
    lemma_last_eq_bound(items, d, items.len() as int);
}

proof fn lemma_last_eq_bound<Id: PartialEq>(items: Seq<Id>, d: Id, k: int)
    requires
        k <= items.len(),
    ensures
        last_eq(items, d, k) <= items.len(),
    decreases k,
{
    if k > 0 {
        lemma_last_eq_bound(items, d, k - 1);
    }
}

/// Positions of the rows that are empty, in order.
pub fn roots_indexed(t: &Vec<Vec<usize>>) -> (r: Vec<usize>)
    ensures
        r@ == roots_of(rows(t@)),
{
    let ghost tv = rows(t@);
    let mut r: Vec<usize> = Vec::new();
    let mut i: usize = 0;
    while i < t.len()
        invariant
            i <= t@.len(),
            tv == rows(t@),
            r@ == roots_of(tv.take(i as int)),
        decreases t@.len() - i,
    {
        proof {
            assert(tv.take(i as int + 1).drop_last() =~= tv.take(i as int));
            assert(tv.take(i as int + 1).last() == t@[i as int]@);
        }
        if t[i].len() == 0 {
            r.push(i);
        }
        i = i + 1;
    }
    assert(tv.take(t@.len() as int) =~= tv);
    r
}

/// Whether some row holds `key`.
fn some_row_holds(t: &Vec<Vec<usize>>, key: usize) -> (r: bool)
    ensures
        r == exists|j: int| 0 <= j < t@.len() && #[trigger] rows(t@)[j].contains(key),
{
    let ghost tv = rows(t@);
    let mut j: usize = 0;
    while j < t.len()
        invariant
            j <= t@.len(),
            tv == rows(t@),
            forall|q: int| 0 <= q < j ==> !(#[trigger] tv[q]).contains(key),
        decreases t@.len() - j,
    {
        let row = &t[j];
        assert(tv[j as int] == row@);
        if holds(row, key) {
            return true;
        }
        j = j + 1;
    }
    false
}

/// Positions whose key occurs in no row, in order.
pub fn leaves_indexed(t: &Vec<Vec<usize>>, keys: &Vec<usize>) -> (r: Vec<usize>)
    requires
        keys@.len() == t@.len(),
    ensures
        r@ == leaves_of(rows(t@), keys@, keys@.len() as int),
{
    let ghost tv = rows(t@);
    let mut r: Vec<usize> = Vec::new();
    let mut i: usize = 0;
    while i < keys.len()
        invariant
            i <= keys@.len(),
            tv == rows(t@),
            r@ == leaves_of(tv, keys@, i as int),
        decreases keys@.len() - i,
    {
        if !some_row_holds(t, keys[i]) {
            r.push(i);
        }
        i = i + 1;
    }
    r
}

/// The key of each item: the position of the last item equal to it.
pub fn item_keys<Id: PartialEq>(items: &[Id]) -> (r: Vec<usize>)
    requires
        Id::obeys_eq_spec(),
    ensures
        r@ == items@.map_values(|d: Id| lookup(items@, d) as usize),
{
    let mut r: Vec<usize> = Vec::new();
    let mut i: usize = 0;
    while i < items.len()
        invariant
            Id::obeys_eq_spec(),
            i <= items@.len(),
            r@ == items@.take(i as int).map_values(|d: Id| lookup(items@, d) as usize),
        decreases items@.len() - i,
    {
        let p = lookup_exec(items, &items[i]);
        r.push(p);
        i = i + 1;
        assert(r@ =~= items@.take(i as int).map_values(|d: Id| lookup(items@, d) as usize));
    }
    assert(items@.take(items@.len() as int) =~= items@);
    r
}

/// `w` is a chain of items, each depending on the next (through its row
/// holding the next one's key), ending at an item among `first`.
pub open spec fn chain_to(t: Seq<Seq<usize>>, keys: Seq<usize>, first: Seq<usize>, w: Seq<usize>) -> bool {
    &&& w.len() >= 1
    &&& first.contains(w.last())
    &&& forall|a: int| 0 <= a < w.len() ==> #[trigger] w[a] < t.len()
    &&& forall|a: int| 0 <= a < w.len() - 1 ==> t[#[trigger] w[a] as int].contains(keys[w[a + 1] as int])
}

/// Item `x` reaches an item among `first` through a chain.
pub open spec fn reaches(t: Seq<Seq<usize>>, keys: Seq<usize>, first: Seq<usize>, x: usize) -> bool {
    exists|w: Seq<usize>| #[trigger] chain_to(t, keys, first, w) && w[0] == x
}

/// Clones of the items at the given positions.
pub fn pick<Id: Clone>(items: &[Id], idxs: &Vec<usize>) -> (r: Vec<Id>)
    requires
        forall|k: int| 0 <= k < idxs@.len() ==> #[trigger] idxs@[k] < items@.len(),
    ensures
        r@.len() == idxs@.len(),
        forall|k: int| 0 <= k < idxs@.len() ==> cloned(items@[#[trigger] idxs@[k] as int], r@[k]),
{
    let mut r: Vec<Id> = Vec::new();
    let mut k: usize = 0;
    while k < idxs.len()
        invariant
            forall|j: int| 0 <= j < idxs@.len() ==> #[trigger] idxs@[j] < items@.len(),
            k <= idxs@.len(),
            r@.len() == k,
            forall|j: int| 0 <= j < k ==> cloned(items@[#[trigger] idxs@[j] as int], r@[j]),
        decreases idxs@.len() - k,
    {
        let c = items[idxs[k]].clone();
        r.push(c);
        k = k + 1;
    }
    r
}

proof fn lemma_roots_in_range(t: Seq<Seq<usize>>)
    requires
        t.len() <= usize::MAX,
    ensures
        forall|k: int| 0 <= k < roots_of(t).len() ==> #[trigger] roots_of(t)[k] < t.len(),
    decreases t.len(),
{
    if t.len() > 0 {
        let d = t.drop_last();
        lemma_roots_in_range(d);
        let r = roots_of(d);
        assert forall|k: int| 0 <= k < roots_of(t).len() implies #[trigger] roots_of(t)[k] < t.len() by {
            if k < r.len() {
                assert(roots_of(t)[k] == r[k]);
            }
        }
    }
}

proof fn lemma_leaves_in_range(t: Seq<Seq<usize>>, keys: Seq<usize>, k: int)
    requires
        k <= keys.len() <= usize::MAX,
    ensures
        forall|j: int| 0 <= j < leaves_of(t, keys, k).len() ==> #[trigger] leaves_of(t, keys, k)[j] < keys.len(),
    decreases k,
{
    if k > 0 {
        lemma_leaves_in_range(t, keys, k - 1);
        let r = leaves_of(t, keys, k - 1);
        assert forall|j: int| 0 <= j < leaves_of(t, keys, k).len() implies #[trigger] leaves_of(t, keys, k)[j] < keys.len() by {
            if j < r.len() {
                assert(leaves_of(t, keys, k)[j] == r[j]);
            }
        }
    }
}

/// The items with no dependencies, in order.
pub fn find_roots_fn<Id, F>(items: &[Id], get_dependencies: F) -> (r: Vec<Id>)
    where
        Id: Clone + Eq + Hash,
        F: Fn(&Id) -> Vec<Id>,
    requires
        Id::obeys_eq_spec(),
        forall|x: &Id| #[trigger] get_dependencies.requires((x,)),
    ensures
        exists|t: Seq<Seq<usize>>|
            #[trigger] is_table(items@, get_dependencies, t) && r@.len() == roots_of(t).len() && forall|k: int|
                0 <= k < r@.len() ==> cloned(items@[#[trigger] roots_of(t)[k] as int], r@[k]),
{
    let t = dependency_table(items, &get_dependencies);
    let idxs = roots_indexed(&t);
    assert(t.len() == t@.len());
    proof {
        lemma_roots_in_range(rows(t@));
    }
    let r = pick(items, &idxs);
    assert(is_table(items@, get_dependencies, rows(t@)));
    r
}

/// The items that no item depends on, in order.
pub fn find_leaves_fn<Id, F>(items: &[Id], get_dependencies: F) -> (r: Vec<Id>)
    where
        Id: Clone + Eq + Hash,
        F: Fn(&Id) -> Vec<Id>,
    requires
        Id::obeys_eq_spec(),
        forall|x: &Id| #[trigger] get_dependencies.requires((x,)),
    ensures
        exists|t: Seq<Seq<usize>>|
            #[trigger] is_table(items@, get_dependencies, t) && {
                let keys = items@.map_values(|d: Id| lookup(items@, d) as usize);
                let l = leaves_of(t, keys, keys.len() as int);
                r@.len() == l.len() && forall|k: int| 0 <= k < r@.len() ==> cloned(items@[#[trigger] l[k] as int], r@[k])
            },
{
    let keys = item_keys(items);
    let t = dependency_table(items, &get_dependencies);
    let idxs = leaves_indexed(&t, &keys);
    assert(keys.len() == keys@.len());
    proof {
        lemma_leaves_in_range(rows(t@), keys@, keys@.len() as int);
    }
    let r = pick(items, &idxs);
    assert(is_table(items@, get_dependencies, rows(t@)));
    r
}

/// The edges `(i, j)` of rows `0..i` of a table whose entry `j` is an item position.
pub open spec fn table_edges(t: Seq<Seq<usize>>, i: int) -> Seq<(usize, usize)>
    decreases i,
{
    if i <= 0 {
        seq![]
    } else {
        table_edges(t, i - 1) + row_edges(t, i - 1, t[i - 1].len() as int)
    }
}

/// The edges `(i, j)` of the first `k` entries `j` of row `i` that are item positions.
pub open spec fn row_edges(t: Seq<Seq<usize>>, i: int, k: int) -> Seq<(usize, usize)>
    decreases k,
{
    if k <= 0 {
        seq![]
    } else {
        let r = row_edges(t, i, k - 1);
        if t[i][k - 1] < t.len() {
            r.push((i as usize, t[i][k - 1]))
        } else {
            r
        }
    }
}

/// The graph of a table: one unlabelled node per item, with its position as
/// id, and an edge from each item to each item it depends on.
pub open spec fn table_graph(t: Seq<Seq<usize>>) -> GraphModel {
    empty_model(RenderMode::Auto).add_nodes(Seq::new(t.len(), |i: int| (i as usize, ""@))).add_edges(
        table_edges(t, t.len() as int),
    )
}

/// Builds the graph of a table, when its size fits.
fn table_dag(t: &Vec<Vec<usize>>) -> (r: Option<DAG>)
    ensures
        r matches Some(d) ==> d.wf() && d@ == table_graph(rows(t@)) && t@.len() + 2 * table_edges(
            rows(t@),
            t@.len() as int,
        ).len() < usize::MAX,
        r is None ==> t@.len() + 2 * table_edges(rows(t@), t@.len() as int).len() >= usize::MAX,
{
    let ghost tv = rows(t@);
    let n = t.len();
    let mut nodes: Vec<(usize, &str)> = Vec::new();
    let mut i: usize = 0;
    while i < n
        invariant
            n == t@.len(),
            i <= n,
            nodes@.len() == i,
            forall|j: int| 0 <= j < i ==> #[trigger] nodes@[j] == (j as usize, ""),
        decreases n - i,
    {
        nodes.push((i, ""));
        i = i + 1;
    }
    let mut edges: Vec<(usize, usize)> = Vec::new();
    let mut i: usize = 0;
    while i < n
        invariant
            n == t@.len(),
            tv == rows(t@),
            i <= n,
            edges@ == table_edges(tv, i as int),
        decreases n - i,
    {
        let row = &t[i];
        let ghost base = edges@;
        let mut k: usize = 0;
        while k < row.len()
            invariant
                n == t@.len(),
                tv == rows(t@),
                i < n,
                row@ == tv[i as int],
                k <= row@.len(),
                edges@ == base + row_edges(tv, i as int, k as int),
            decreases row@.len() - k,
        {
            if row[k] < n {
                edges.push((i, row[k]));
            }
            k = k + 1;
            assert(edges@ =~= base + row_edges(tv, i as int, k as int));
        }
        i = i + 1;
    }
    if n >= usize::MAX || edges.len() > (usize::MAX - 1 - n) / 2 {
        return None;
    }
    proof {
        reveal_strlit("");
        assert forall|k: int| 0 <= k < nodes@.len() implies #[trigger] nodes@[k].1@.len() + 2 <= usize::MAX by {
            assert(nodes@[k] == (k as usize, ""));
        }
        assert(nodes@.map_values(|p: (usize, &str)| (p.0, p.1@)) =~= Seq::new(tv.len(), |i: int| (i as usize, ""@)));
    }
    Some(DAG::from_edges(nodes.as_slice(), edges.as_slice()))
}

/// Whether the dependency table has a cycle, with one when it has.
pub fn detect_cycle_indexed(t: &Vec<Vec<usize>>) -> (r: Option<Vec<usize>>)
    ensures
        t@.len() + 2 * table_edges(rows(t@), t@.len() as int).len() < usize::MAX ==> (r is Some <==> has_closed_walk(
            table_graph(rows(t@)),
        )),
        r matches Some(c) ==> is_cycle_trail(table_graph(rows(t@)), c@) && table_graph(rows(t@)).len() == t@.len()
            && first_trail(table_graph(rows(t@))) == Some(c@),
{
    match table_dag(t) {
        Some(d) => {
            proof {
                lemma_table_graph_len(rows(t@));
            }
            d.cycle_trail()
        },
        None => None,
    }
}

/// A cycle among the items, if there is one, as the depth-first search
/// meets it: the item whose dependency closes the loop, then the search path
/// back to where it started, each item depending on the one before it; the
/// first item occurs again later.
pub fn detect_cycle_fn<Id, F>(all_ids: &[Id], get_dependencies: F) -> (r: Option<Vec<Id>>)
    where
        Id: Eq + Hash + Clone,
        F: Fn(&Id) -> Vec<Id>,
    requires
        Id::obeys_eq_spec(),
        forall|x: &Id| #[trigger] get_dependencies.requires((x,)),
    ensures
        exists|t: Seq<Seq<usize>>|
            #[trigger] is_table(all_ids@, get_dependencies, t) && (all_ids@.len() + 2 * table_edges(t, t.len() as int).len()
                < usize::MAX ==> (r is Some <==> has_closed_walk(table_graph(t)))) && (r matches Some(out) ==> exists|c: Seq<usize>|
                first_trail(table_graph(t)) == Some(c) && is_cycle_trail(table_graph(t), c) && table_graph(t).len()
                    == all_ids@.len() && out@.len() == c.len()
                    && forall|k: int| 0 <= k < c.len() ==> cloned(all_ids@[#[trigger] c[k] as int], out@[k])),
{
    let t = dependency_table(all_ids, &get_dependencies);
    assert(is_table(all_ids@, get_dependencies, rows(t@)));
    match detect_cycle_indexed(&t) {
        Some(c) => {
            proof {
                assert forall|k: int| 0 <= k < c@.len() implies #[trigger] c@[k] < all_ids@.len() by {
                    assert(c@[k] < table_graph(rows(t@)).len());
                }
            }
            let out = pick(all_ids, &c);
            assert(is_cycle_trail(table_graph(rows(t@)), c@) && first_trail(table_graph(rows(t@))) == Some(c@));
            Some(out)
        },
        None => None,
    }
}

/// Whether the items have a cycle.
pub fn has_cycle_fn<Id, F>(all_ids: &[Id], get_dependencies: F) -> (r: bool)
    where
        Id: Eq + Hash + Clone,
        F: Fn(&Id) -> Vec<Id>,
    requires
        Id::obeys_eq_spec(),
        forall|x: &Id| #[trigger] get_dependencies.requires((x,)),
    ensures
        exists|t: Seq<Seq<usize>>|
            #[trigger] is_table(all_ids@, get_dependencies, t) && (all_ids@.len() + 2 * table_edges(t, t.len() as int).len()
                < usize::MAX ==> (r <==> has_closed_walk(table_graph(t)))),
{
    detect_cycle_fn(all_ids, get_dependencies).is_some()
}

/// Items given as values with an id and the ids they depend on.
pub trait CycleDetectable {
    /// The type of the ids.
    type Id: Eq + Hash + Clone;

    /// The id of this item.
    fn id(&self) -> Self::Id;

    /// The ids this item depends on.
    fn dependencies(&self) -> Vec<Self::Id>;
}

/// The dependencies of the last item whose id equals `id` (none when no item has it).
pub fn dependencies_of_id<T: CycleDetectable>(items: &[T], id: &T::Id) -> Vec<T::Id> {
    let mut k: usize = items.len();
    while k > 0
        invariant
            k <= items@.len(),
        decreases k,
    {
        if items[k - 1].id() == *id {
            return items[k - 1].dependencies();
        }
        k = k - 1;
    }
    Vec::new()
}

/// A cycle among the items, if there is one, by their ids.
pub fn detect_cycle<T: CycleDetectable>(items: &[T]) -> (r: Option<Vec<T::Id>>)
    requires
        T::Id::obeys_eq_spec(),
    ensures
        exists|ids: Seq<T::Id>, t: Seq<Seq<usize>>|
            #![trigger ids_of_items(items@, ids), table_of_ids(ids, t)]
            ids_of_items(items@, ids) && table_of_ids(ids, t) && (ids.len() + 2 * table_edges(t, t.len() as int).len()
                < usize::MAX ==> (r is Some <==> has_closed_walk(table_graph(t)))),
{
    let mut all_ids: Vec<T::Id> = Vec::new();
    let mut k: usize = 0;
    while k < items.len()
        invariant
            k <= items@.len(),
            all_ids@.len() == k,
            forall|j: int| 0 <= j < k ==> call_ensures(T::id, (&items@[j],), #[trigger] all_ids@[j]),
        decreases items@.len() - k,
    {
        let id = items[k].id();
        all_ids.push(id);
        k = k + 1;
    }
    let deps = |id: &T::Id| -> (r: Vec<T::Id>) { dependencies_of_id(items, id) };
    let r = detect_cycle_fn(all_ids.as_slice(), deps);
    proof {
        let t = choose|t: Seq<Seq<usize>>|
            #[trigger] is_table(all_ids@, deps, t) && (all_ids@.len() + 2 * table_edges(t, t.len() as int).len()
                < usize::MAX ==> (r is Some <==> has_closed_walk(table_graph(t))));
        assert(ids_of_items(items@, all_ids@));
        assert(table_of_ids(all_ids@, t));
    }
    r
}

/// `ids` are the ids of the items, in order.
pub open spec fn ids_of_items<T: CycleDetectable>(items: Seq<T>, ids: Seq<T::Id>) -> bool {
    &&& ids.len() == items.len()
    &&& forall|j: int| 0 <= j < items.len() ==> call_ensures(T::id, (&items[j],), #[trigger] ids[j])
}

/// `t` has one row per id.
pub open spec fn table_of_ids<Id>(ids: Seq<Id>, t: Seq<Seq<usize>>) -> bool {
    t.len() == ids.len()
}

/// Items that can list their ids and each one's dependencies.
pub trait RootFindable {
    /// The type of the ids.
    type Id: Clone + Eq + Hash;

    /// All ids of the graph.
    fn get_all_ids(&self) -> Vec<Self::Id>;

    /// The ids `id` depends on.
    fn get_dependencies(&self, id: &Self::Id) -> Vec<Self::Id>;

    /// The ids with no dependencies.
    fn find_roots(&self) -> Vec<Self::Id>
        requires
            Self::Id::obeys_eq_spec(),
    {
        let ids = self.get_all_ids();
        find_roots_fn(ids.as_slice(), |id: &Self::Id| self.get_dependencies(id))
    }

    /// The ids that no id depends on.
    fn find_leaves(&self) -> Vec<Self::Id>
        requires
            Self::Id::obeys_eq_spec(),
    {
        let ids = self.get_all_ids();
        find_leaves_fn(ids.as_slice(), |id: &Self::Id| self.get_dependencies(id))
    }

    /// Number of roots.
    fn root_count(&self) -> usize
        requires
            Self::Id::obeys_eq_spec(),
    {
        self.find_roots().len()
    }

    /// Number of leaves.
    fn leaf_count(&self) -> usize
        requires
            Self::Id::obeys_eq_spec(),
    {
        self.find_leaves().len()
    }

    /// Whether there is exactly one root.
    fn is_single_rooted(&self) -> bool
        requires
            Self::Id::obeys_eq_spec(),
    {
        self.root_count() == 1
    }

    /// Whether the graph is tree-like: a single root.
    fn is_tree_like(&self) -> bool
        requires
            Self::Id::obeys_eq_spec(),
    {
        self.is_single_rooted()
    }
}

/// Visits, breadth first from the positions in `first`, the items whose
/// row holds the key of an item already visited; returns the visiting order.
pub fn dependents_from(t: &Vec<Vec<usize>>, keys: &Vec<usize>, first: &Vec<usize>) -> (r: Vec<usize>)
    requires
        keys@.len() == t@.len(),
        forall|k: int| 0 <= k < first@.len() ==> #[trigger] first@[k] < t@.len(),
    ensures
        r@.no_duplicates(),
        forall|k: int| 0 <= k < r@.len() ==> #[trigger] r@[k] < t@.len(),
        forall|k: int| 0 <= k < first@.len() ==> r@.contains(#[trigger] first@[k]),
        forall|p: int, j: int|
            #![trigger r@[p], rows(t@)[j]]
            0 <= p < r@.len() && 0 <= j < t@.len() && rows(t@)[j].contains(keys@[r@[p] as int]) ==> r@.contains(
                j as usize,
            ),
        forall|k: int| 0 <= k < r@.len() ==> reaches(rows(t@), keys@, first@, #[trigger] r@[k]),
{
    let n = t.len();
    let ghost tv = rows(t@);
    let ghost mut wit: Seq<Seq<usize>> = Seq::new(n as nat, |v: int| Seq::<usize>::empty());
    let mut visited: Vec<bool> = Vec::new();
    let mut i: usize = 0;
    while i < n
        invariant
            n == t@.len(),
            i <= n,
            visited@ == Seq::new(i as nat, |j: int| false),
        decreases n - i,
    {
        visited.push(false);
        i = i + 1;
        assert(visited@ =~= Seq::new(i as nat, |j: int| false));
    }
    let mut queue: Vec<usize> = Vec::new();
    let mut k: usize = 0;
    while k < first.len()
        invariant
            n == t@.len(),
            k <= first@.len(),
            visited@.len() == n,
            forall|q: int| 0 <= q < first@.len() ==> #[trigger] first@[q] < n,
            queue@.no_duplicates(),
            forall|q: int| 0 <= q < queue@.len() ==> #[trigger] queue@[q] < n,
            forall|v: int| 0 <= v < n ==> (#[trigger] visited@[v] <==> queue@.contains(v as usize)),
            forall|q: int| 0 <= q < k ==> queue@.contains(#[trigger] first@[q]),
            tv == rows(t@),
            wit.len() == n,
            forall|q: int| 0 <= q < queue@.len() ==> chain_to(tv, keys@, first@, #[trigger] wit[queue@[q] as int])
                && wit[queue@[q] as int][0] == queue@[q],
        decreases first@.len() - k,
    {
        let f = first[k];
        if !visited[f] {
            let ghost q0 = queue@;
            let ghost w0 = wit;
            visited.set(f, true);
            queue.push(f);
            proof {
                lemma_push_fresh(q0, f, n as nat);
                wit = w0.update(f as int, seq![f]);
                assert(first@[k as int] == f);
                assert(chain_to(tv, keys@, first@, seq![f]));
                assert forall|q: int| 0 <= q < queue@.len() implies chain_to(tv, keys@, first@, #[trigger] wit[queue@[q] as int])
                    && wit[queue@[q] as int][0] == queue@[q] by {
                    if q < q0.len() {
                        assert(queue@[q] == q0[q]);
                        assert(q0[q] != f);
                    }
                }
            }
        }
        k = k + 1;
    }
    let mut head: usize = 0;
    while head < queue.len()
        invariant
            n == t@.len(),
            keys@.len() == n,
            head <= queue@.len(),
            visited@.len() == n,
            queue@.no_duplicates(),
            forall|q: int| 0 <= q < queue@.len() ==> #[trigger] queue@[q] < n,
            forall|v: int| 0 <= v < n ==> (#[trigger] visited@[v] <==> queue@.contains(v as usize)),
            forall|q: int| 0 <= q < first@.len() ==> queue@.contains(#[trigger] first@[q]),
            forall|p: int, j: int|
                #![trigger queue@[p], rows(t@)[j]]
                0 <= p < head && 0 <= j < n && rows(t@)[j].contains(keys@[queue@[p] as int]) ==> queue@.contains(
                    j as usize,
                ),
            tv == rows(t@),
            wit.len() == n,
            forall|q: int| 0 <= q < queue@.len() ==> chain_to(tv, keys@, first@, #[trigger] wit[queue@[q] as int])
                && wit[queue@[q] as int][0] == queue@[q],
        decreases n - head,
    {
        proof {
            crate::render::lemma_distinct_bound(queue@, n as nat);
        }
        let cur = queue[head];
        let key = keys[cur];
        let mut j: usize = 0;
        while j < n
            invariant
                n == t@.len(),
                keys@.len() == n,
                head < queue@.len(),
                cur == queue@[head as int],
                key == keys@[cur as int],
                j <= n,
                visited@.len() == n,
                queue@.no_duplicates(),
                forall|q: int| 0 <= q < queue@.len() ==> #[trigger] queue@[q] < n,
                forall|v: int| 0 <= v < n ==> (#[trigger] visited@[v] <==> queue@.contains(v as usize)),
                forall|q: int| 0 <= q < first@.len() ==> queue@.contains(#[trigger] first@[q]),
                forall|p: int, i: int|
                    #![trigger queue@[p], rows(t@)[i]]
                    0 <= p < head && 0 <= i < n && rows(t@)[i].contains(keys@[queue@[p] as int]) ==> queue@.contains(
                        i as usize,
                    ),
                forall|i: int| 0 <= i < j && #[trigger] rows(t@)[i].contains(key) ==> queue@.contains(i as usize),
                tv == rows(t@),
                wit.len() == n,
                forall|q: int| 0 <= q < queue@.len() ==> chain_to(tv, keys@, first@, #[trigger] wit[queue@[q] as int])
                    && wit[queue@[q] as int][0] == queue@[q],
            decreases n - j,
        {
            let ghost q0 = queue@;
            let ghost w0 = wit;
            assert(rows(t@)[j as int] == t@[j as int]@);
            if holds(&t[j], key) && !visited[j] {
                visited.set(j, true);
                queue.push(j);
                proof {
                    lemma_push_fresh(q0, j, n as nat);
                    let wc = w0[cur as int];
                    assert(queue@[head as int] == cur);
                    assert(chain_to(tv, keys@, first@, wc) && wc[0] == cur);
                    let wj = seq![j] + wc;
                    assert(chain_to(tv, keys@, first@, wj)) by {
                        assert(wj.last() == wc.last());
                        assert forall|a: int| 0 <= a < wj.len() implies #[trigger] wj[a] < tv.len() by {
                            if a > 0 {
                                assert(wj[a] == wc[a - 1]);
                            }
                        }
                        assert forall|a: int| 0 <= a < wj.len() - 1 implies tv[#[trigger] wj[a] as int].contains(keys@[wj[a + 1] as int]) by {
                            if a > 0 {
                                assert(wj[a] == wc[a - 1] && wj[a + 1] == wc[a]);
                            } else {
                                assert(wj[1] == cur);
                            }
                        }
                    }
                    wit = w0.update(j as int, wj);
                    assert forall|q: int| 0 <= q < queue@.len() implies chain_to(tv, keys@, first@, #[trigger] wit[queue@[q] as int])
                        && wit[queue@[q] as int][0] == queue@[q] by {
                        if q < q0.len() {
                            assert(queue@[q] == q0[q]);
                            assert(q0[q] != j);
                        }
                    }
                }
            }
            proof {
                assert forall|q: int| 0 <= q < queue@.len() && q < q0.len() implies queue@[q] == q0[q] by {}
                assert forall|x: usize| q0.contains(x) implies queue@.contains(x) by {
                    let q = q0.index_of(x);
                    assert(queue@[q] == x);
                }
            }
            j = j + 1;
        }
        head = head + 1;
    }
    proof {
        assert forall|k: int| 0 <= k < queue@.len() implies reaches(tv, keys@, first@, #[trigger] queue@[k]) by {
            assert(chain_to(tv, keys@, first@, wit[queue@[k] as int]));
        }
    }
    queue
}

proof fn lemma_push_fresh(q0: Seq<usize>, f: usize, n: nat)
    requires
        q0.no_duplicates(),
        !q0.contains(f),
    ensures
        q0.push(f).no_duplicates(),
        q0.push(f).contains(f),
        forall|x: usize| #[trigger] q0.push(f).contains(x) <==> (q0.contains(x) || x == f),
{
    let q = q0.push(f);
    assert(q[q0.len() as int] == f);
    assert forall|x: usize| #[trigger] q.contains(x) <==> (q0.contains(x) || x == f) by {
        if q0.contains(x) {
            let i = q0.index_of(x);
            assert(q[i] == x);
        }
        if q.contains(x) {
            let i = q.index_of(x);
            if i < q0.len() {
                assert(q0[i] == x);
            }
        }
    }
}

/// Positions of the items whose row holds `key`, in order.
fn rows_holding(t: &Vec<Vec<usize>>, key: usize) -> (r: Vec<usize>)
    ensures
        forall|k: int| 0 <= k < r@.len() ==> #[trigger] r@[k] < t@.len(),
        forall|k: int| 0 <= k < r@.len() ==> rows(t@)[#[trigger] r@[k] as int].contains(key),
        forall|j: int| 0 <= j < t@.len() && #[trigger] rows(t@)[j].contains(key) ==> r@.contains(j as usize),
{
    let mut r: Vec<usize> = Vec::new();
    let mut j: usize = 0;
    while j < t.len()
        invariant
            j <= t@.len(),
            forall|k: int| 0 <= k < r@.len() ==> #[trigger] r@[k] < t@.len(),
            forall|k: int| 0 <= k < r@.len() ==> rows(t@)[#[trigger] r@[k] as int].contains(key),
            forall|i: int| 0 <= i < j && #[trigger] rows(t@)[i].contains(key) ==> r@.contains(i as usize),
        decreases t@.len() - j,
    {
        assert(rows(t@)[j as int] == t@[j as int]@);
        if holds(&t[j], key) {
            let ghost r0 = r@;
            r.push(j);
            proof {
                assert(r@[r0.len() as int] == j);
                assert forall|x: usize| r0.contains(x) implies r@.contains(x) by {
                    let q = r0.index_of(x);
                    assert(r@[q] == x);
                }
            }
        }
        j = j + 1;
    }
    r
}

/// The key of each item: the position of the last item equal to it.
pub open spec fn keys_of<Id: PartialEq>(items: Seq<Id>) -> Seq<usize> {
    items.map_values(|d: Id| lookup(items, d) as usize)
}

/// The item positions that depend on the item at key `s` in table `t`
/// (with item keys `keys`): `idxs` lists distinct positions, holds every
/// item whose row holds `s`, and with each listed item every item whose row
/// holds its key.
pub open spec fn dependents_closed(t: Seq<Seq<usize>>, keys: Seq<usize>, s: usize, idxs: Seq<usize>) -> bool {
    &&& idxs.no_duplicates()
    &&& forall|k: int| 0 <= k < idxs.len() ==> #[trigger] idxs[k] < t.len()
    &&& forall|j: int| 0 <= j < t.len() && #[trigger] t[j].contains(s) ==> idxs.contains(j as usize)
    &&& forall|p: int, j: int|
        #![trigger idxs[p], t[j]]
        0 <= p < idxs.len() && 0 <= j < t.len() && t[j].contains(keys[idxs[p] as int]) ==> idxs.contains(j as usize)
    &&& forall|k: int| 0 <= k < idxs.len() ==> depends_on(t, keys, s, #[trigger] idxs[k])
}

/// `w` is a chain of items, each depending on the next, the last one on the
/// item with key `s`.
pub open spec fn chain_to_key(t: Seq<Seq<usize>>, keys: Seq<usize>, s: usize, w: Seq<usize>) -> bool {
    &&& w.len() >= 1
    &&& forall|a: int| 0 <= a < w.len() ==> #[trigger] w[a] < t.len()
    &&& forall|a: int| 0 <= a < w.len() - 1 ==> t[#[trigger] w[a] as int].contains(keys[w[a + 1] as int])
    &&& t[w.last() as int].contains(s)
}

/// Item `x` depends, directly or through others, on the item with key `s`.
pub open spec fn depends_on(t: Seq<Seq<usize>>, keys: Seq<usize>, s: usize, x: usize) -> bool {
    exists|w: Seq<usize>| #[trigger] chain_to_key(t, keys, s, w) && w[0] == x
}

/// All items that depend, directly or through others, on `start`, in
/// breadth-first order.
pub fn compute_descendants_fn<Id, F>(items: &[Id], start: &Id, get_dependencies: F) -> (r: Vec<Id>)
    where
        Id: Clone + Eq + Hash,
        F: Fn(&Id) -> Vec<Id>,
    requires
        Id::obeys_eq_spec(),
        forall|x: &Id| #[trigger] get_dependencies.requires((x,)),
    ensures
        r@.len() <= items@.len(),
        exists|t: Seq<Seq<usize>>, idxs: Seq<usize>|
            #![trigger is_table(items@, get_dependencies, t), dependents_closed(t, keys_of(items@), lookup(items@, *start) as usize, idxs)]
            is_table(items@, get_dependencies, t) && dependents_closed(t, keys_of(items@), lookup(items@, *start) as usize, idxs)
                && r@.len() == idxs.len() && forall|k: int| 0 <= k < idxs.len() ==> cloned(items@[#[trigger] idxs[k] as int], r@[k]),
{
    descendants_by(items, start, &get_dependencies)
}

/// The items that depend on `start`, reading dependencies through `f`.
pub fn descendants_by<Id, F>(items: &[Id], start: &Id, f: &F) -> (r: Vec<Id>)
    where
        Id: Clone + Eq + Hash,
        F: Fn(&Id) -> Vec<Id>,
    requires
        Id::obeys_eq_spec(),
        forall|x: &Id| #[trigger] f.requires((x,)),
    ensures
        r@.len() <= items@.len(),
        exists|t: Seq<Seq<usize>>, idxs: Seq<usize>|
            #![trigger is_table(items@, *f, t), dependents_closed(t, keys_of(items@), lookup(items@, *start) as usize, idxs)]
            is_table(items@, *f, t) && dependents_closed(t, keys_of(items@), lookup(items@, *start) as usize, idxs)
                && r@.len() == idxs.len() && forall|k: int| 0 <= k < idxs.len() ==> cloned(items@[#[trigger] idxs[k] as int], r@[k]),
{
    let keys = item_keys(items);
    let t = dependency_table(items, f);
    let s = lookup_exec(items, start);
    let first = rows_holding(&t, s);
    let idxs = dependents_from(&t, &keys, &first);
    proof {
        crate::render::lemma_distinct_bound(idxs@, t@.len() as nat);
        let tv = rows(t@);
        assert forall|j: int| 0 <= j < tv.len() && #[trigger] tv[j].contains(s) implies idxs@.contains(j as usize) by {
            assert(first@.contains(j as usize));
            let q = first@.index_of(j as usize);
            assert(idxs@.contains(first@[q]));
        }
        assert(keys@ == keys_of(items@));
        assert forall|k: int| 0 <= k < idxs@.len() implies depends_on(tv, keys@, s, #[trigger] idxs@[k]) by {
            assert(reaches(tv, keys@, first@, idxs@[k]));
            let w = choose|w: Seq<usize>| #[trigger] chain_to(tv, keys@, first@, w) && w[0] == idxs@[k];
            let q = first@.index_of(w.last());
            assert(tv[first@[q] as int].contains(s));
            assert(chain_to_key(tv, keys@, s, w));
        }
        assert(dependents_closed(tv, keys_of(items@), s, idxs@));
        assert(is_table(items@, *f, tv));
        lemma_lookup_bound(items@, *start);
    }
    let r = pick(items, &idxs);
    assert(lookup(items@, *start) as usize == s);
    assert(is_table(items@, *f, rows(t@)) && dependents_closed(rows(t@), keys_of(items@), lookup(items@, *start) as usize, idxs@)
        && r@.len() == idxs@.len());
    r
}

/// All items that `start` depends on, directly or through others, in
/// breadth-first order (dependencies that are not items are left out).
pub fn compute_ancestors_fn<Id, F>(items: &[Id], start: &Id, get_dependencies: F) -> (r: Vec<Id>)
    where
        Id: Clone + Eq + Hash,
        F: Fn(&Id) -> Vec<Id>,
    requires
        Id::obeys_eq_spec(),
        forall|x: &Id| #[trigger] get_dependencies.requires((x,)),
    ensures
        r@.len() <= items@.len(),
        exists|t: Seq<Seq<usize>>, ds: Vec<Id>, idxs: Seq<usize>|
            #![trigger is_table(items@, get_dependencies, t), call_ensures(get_dependencies, (start,), ds), ancestors_closed(t, positions_of_ids(items@, ds@), idxs)]
            is_table(items@, get_dependencies, t) && call_ensures(get_dependencies, (start,), ds) && ancestors_closed(
                t,
                positions_of_ids(items@, ds@),
                idxs,
            ) && r@.len() == idxs.len() && forall|k: int| 0 <= k < idxs.len() ==> cloned(items@[#[trigger] idxs[k] as int], r@[k]),
{
    ancestors_by(items, start, &get_dependencies)
}

/// The items `start` depends on, reading dependencies through `f`.
#[verifier::spinoff_prover]
pub fn ancestors_by<Id, F>(items: &[Id], start: &Id, f: &F) -> (r: Vec<Id>)
    where
        Id: Clone + Eq + Hash,
        F: Fn(&Id) -> Vec<Id>,
    requires
        Id::obeys_eq_spec(),
        forall|x: &Id| #[trigger] f.requires((x,)),
    ensures
        r@.len() <= items@.len(),
        exists|t: Seq<Seq<usize>>, ds: Vec<Id>, idxs: Seq<usize>|
            #![trigger is_table(items@, *f, t), call_ensures(*f, (start,), ds), ancestors_closed(t, positions_of_ids(items@, ds@), idxs)]
            is_table(items@, *f, t) && call_ensures(*f, (start,), ds) && ancestors_closed(t, positions_of_ids(items@, ds@), idxs)
                && r@.len() == idxs.len() && forall|k: int| 0 <= k < idxs.len() ==> cloned(items@[#[trigger] idxs[k] as int], r@[k]),
{
    let ds = f(start);
    let first_all = positions_in_items(items, &ds);
    let t = dependency_table(items, f);
    let n = t.len();
    let mut first: Vec<usize> = Vec::new();
    let mut k: usize = 0;
    while k < first_all.len()
        invariant
            n == t@.len(),
            k <= first_all@.len(),
            forall|q: int| 0 <= q < first@.len() ==> #[trigger] first@[q] < n,
            forall|q: int| 0 <= q < k && first_all@[q] < n ==> first@.contains(#[trigger] first_all@[q]),
            forall|q: int| 0 <= q < first@.len() ==> first_all@.contains(#[trigger] first@[q]),
        decreases first_all@.len() - k,
    {
        let ghost f0 = first@;
        if first_all[k] < n {
            first.push(first_all[k]);
            proof {
                assert(first@[f0.len() as int] == first_all@[k as int]);
                assert forall|q: int| 0 <= q < first@.len() implies first_all@.contains(#[trigger] first@[q]) by {
                    if q < f0.len() {
                        assert(first@[q] == f0[q]);
                    } else {
                        assert(first_all@[k as int] == first@[q]);
                    }
                }
                assert forall|x: usize| f0.contains(x) implies first@.contains(x) by {
                    let q = f0.index_of(x);
                    assert(first@[q] == x);
                }
            }
        }
        k = k + 1;
    }
    let rev = reverse_table(&t);
    let mut ident: Vec<usize> = Vec::new();
    let mut i: usize = 0;
    while i < n
        invariant
            i <= n,
            ident@.len() == i,
            forall|q: int| 0 <= q < i ==> #[trigger] ident@[q] == q,
        decreases n - i,
    {
        ident.push(i);
        i = i + 1;
    }
    let idxs = dependents_from(&rev, &ident, &first);
    proof {
        crate::render::lemma_distinct_bound(idxs@, n as nat);
        let tv = rows(t@);
        let fa = positions_of_ids(items@, ds@);
        assert(fa == first_all@);
        assert forall|k: int| 0 <= k < fa.len() && #[trigger] fa[k] < tv.len() implies idxs@.contains(fa[k]) by {
            assert(first@.contains(first_all@[k]));
            let q = first@.index_of(first_all@[k]);
            assert(idxs@.contains(first@[q]));
        }
        assert forall|p: int, j: int|
            0 <= p < idxs@.len() && 0 <= j < tv.len() && #[trigger] tv[idxs@[p] as int].contains(j as usize) implies idxs@.contains(
            j as usize) by {
            let x = idxs@[p] as int;
            assert(ident@[x] == x);
            assert(rows(rev@)[j].contains(x as usize));
        }
        lemma_needed(tv, rows(rev@), ident@, first@, fa, idxs@);
        assert(ancestors_closed(tv, fa, idxs@));
        assert(is_table(items@, *f, tv));
    }
    let r = pick(items, &idxs);
    assert(call_ensures(*f, (start,), ds));
    r
}

/// The positions of the last items equal to each of `ds`.
pub open spec fn positions_of_ids<Id: PartialEq>(items: Seq<Id>, ds: Seq<Id>) -> Seq<usize> {
    ds.map_values(|d: Id| lookup(items, d) as usize)
}

/// `idxs` lists distinct item positions, holds every item among `first`, and
/// with each listed item every item it depends on.
pub open spec fn ancestors_closed(t: Seq<Seq<usize>>, first: Seq<usize>, idxs: Seq<usize>) -> bool {
    &&& idxs.no_duplicates()
    &&& forall|k: int| 0 <= k < idxs.len() ==> #[trigger] idxs[k] < t.len()
    &&& forall|k: int| 0 <= k < first.len() && #[trigger] first[k] < t.len() ==> idxs.contains(first[k])
    &&& forall|p: int, j: int|
        0 <= p < idxs.len() && 0 <= j < t.len() && #[trigger] t[idxs[p] as int].contains(j as usize) ==> idxs.contains(j as usize)
    &&& forall|k: int| 0 <= k < idxs.len() ==> needed_by(t, first, #[trigger] idxs[k])
}

proof fn lemma_needed(tv: Seq<Seq<usize>>, rv: Seq<Seq<usize>>, ident: Seq<usize>, first: Seq<usize>, fa: Seq<usize>, idxs: Seq<usize>)
    requires
        rv.len() == tv.len(),
        ident.len() == tv.len(),
        forall|q: int| 0 <= q < ident.len() ==> #[trigger] ident[q] == q,
        forall|j: int, x: int|
            0 <= j < tv.len() && 0 <= x < tv.len() ==> (#[trigger] rv[j].contains(x as usize) <==> tv[x].contains(j as usize)),
        forall|q: int| 0 <= q < first.len() ==> fa.contains(#[trigger] first[q]),
        forall|k: int| 0 <= k < idxs.len() ==> reaches(rv, ident, first, #[trigger] idxs[k]),
    ensures
        forall|k: int| 0 <= k < idxs.len() ==> needed_by(tv, fa, #[trigger] idxs[k]),
{
    assert forall|k: int| 0 <= k < idxs.len() implies needed_by(tv, fa, #[trigger] idxs[k]) by {
        assert(reaches(rv, ident, first, idxs[k]));
        let w = choose|w: Seq<usize>| #[trigger] chain_to(rv, ident, first, w) && w[0] == idxs[k];
        assert forall|a: int| 0 <= a < w.len() - 1 implies tv[#[trigger] w[a + 1] as int].contains(w[a]) by {
            assert(rv[w[a] as int].contains(ident[w[a + 1] as int]));
            assert(ident[w[a + 1] as int] == w[a + 1]);
            assert(w[a] < tv.len() && w[a + 1] < tv.len());
            assert(rv[w[a] as int].contains((w[a + 1] as int) as usize) <==> tv[w[a + 1] as int].contains((w[a] as int) as usize));
        }
        let q = first.index_of(w.last());
        assert(fa.contains(first[q]));
        assert(chain_from(tv, fa, w));
    }
}

/// `w` is a chain of items, each a dependency of the next, the last one
/// among `first`.
pub open spec fn chain_from(t: Seq<Seq<usize>>, first: Seq<usize>, w: Seq<usize>) -> bool {
    &&& w.len() >= 1
    &&& first.contains(w.last())
    &&& forall|a: int| 0 <= a < w.len() ==> #[trigger] w[a] < t.len()
    &&& forall|a: int| 0 <= a < w.len() - 1 ==> t[#[trigger] w[a + 1] as int].contains(w[a])
}

/// Item `x` is among `first` or a dependency, directly or through others, of one of them.
pub open spec fn needed_by(t: Seq<Seq<usize>>, first: Seq<usize>, x: usize) -> bool {
    exists|w: Seq<usize>| #[trigger] chain_from(t, first, w) && w[0] == x
}

/// The table turned around: row `j` lists, in order, the items whose row
/// holds `j`.
fn reverse_table(t: &Vec<Vec<usize>>) -> (r: Vec<Vec<usize>>)
    ensures
        r@.len() == t@.len(),
        forall|j: int, x: int|
            0 <= j < t@.len() && 0 <= x < t@.len() ==> (#[trigger] rows(r@)[j].contains(x as usize) <==> rows(t@)[x].contains(
                j as usize,
            )),
{
    let n = t.len();
    let mut r: Vec<Vec<usize>> = Vec::new();
    let mut j: usize = 0;
    while j < n
        invariant
            n == t@.len(),
            j <= n,
            r@.len() == j,
            forall|a: int, x: int|
                0 <= a < j && 0 <= x < n ==> (#[trigger] rows(r@)[a].contains(x as usize) <==> rows(t@)[x].contains(a as usize)),
        decreases n - j,
    {
        let mut row: Vec<usize> = Vec::new();
        let mut i: usize = 0;
        while i < n
            invariant
                n == t@.len(),
                i <= n,
                forall|q: int| 0 <= q < row@.len() ==> #[trigger] row@[q] < i,
                forall|x: int| 0 <= x < i ==> (#[trigger] row@.contains(x as usize) <==> rows(t@)[x].contains(j)),
            decreases n - i,
        {
            let ghost r0 = row@;
            assert(rows(t@)[i as int] == t@[i as int]@);
            if holds(&t[i], j) {
                row.push(i);
                proof {
                    assert(row@[r0.len() as int] == i);
                    assert forall|x: usize| r0.contains(x) implies row@.contains(x) by {
                        let q = r0.index_of(x);
                        assert(row@[q] == x);
                    }
                    assert forall|x: usize| row@.contains(x) && x != i implies r0.contains(x) by {
                        let q = row@.index_of(x);
                        if q < r0.len() {
                            assert(r0[q] == x);
                        }
                    }
                }
            }
            proof {
                assert forall|x: int| 0 <= x < i + 1 implies (#[trigger] row@.contains(x as usize) <==> rows(t@)[x].contains(j)) by {
                    if x < i {
                        assert(r0.contains(x as usize) <==> rows(t@)[x].contains(j));
                        if r0.contains(x as usize) {
                            let q = r0.index_of(x as usize);
                            assert(row@[q] == x as usize);
                        }
                        if row@.contains(x as usize) {
                            let q = row@.index_of(x as usize);
                            if q < r0.len() {
                                assert(r0[q] == x as usize);
                            }
                        }
                    } else {
                        if row@.contains(x as usize) && !rows(t@)[x].contains(j) {
                            let q = row@.index_of(x as usize);
                            assert(q < r0.len());
                            assert(r0[q] < i);
                        }
                    }
                }
            }
            i = i + 1;
        }
        let ghost rr = r@;
        r.push(row);
        proof {
            assert forall|a: int, x: int|
                0 <= a < j + 1 && 0 <= x < n implies (#[trigger] rows(r@)[a].contains(x as usize) <==> rows(t@)[x].contains(a as usize)) by {
                if a < j {
                    assert(rows(r@)[a] == rows(rr)[a]);
                } else {
                    assert(rows(r@)[a] == row@);
                }
            }
        }
        j = j + 1;
    }
    r
}

/// The items `start` depends on, and the items that depend on it.
pub fn compute_blast_radius_fn<Id, F>(items: &[Id], start: &Id, get_dependencies: F) -> (r: (Vec<Id>, Vec<Id>))
    where
        Id: Clone + Eq + Hash,
        F: Fn(&Id) -> Vec<Id> + Clone,
    requires
        Id::obeys_eq_spec(),
        forall|x: &Id| #[trigger] get_dependencies.requires((x,)),
    ensures
        r.0@.len() <= items@.len(),
        r.1@.len() <= items@.len(),
{
    let ancestors = ancestors_by(items, start, &get_dependencies);
    let descendants = descendants_by(items, start, &get_dependencies);
    (ancestors, descendants)
}

/// Items that can list their ids and each one's dependencies, for impact analysis.
pub trait ImpactAnalyzable {
    /// The type of the ids.
    type Id: Clone + Eq + Hash;

    /// All ids of the graph.
    fn get_all_ids(&self) -> Vec<Self::Id>;

    /// The ids `id` depends on.
    fn get_dependencies(&self, id: &Self::Id) -> Vec<Self::Id>;

    /// The ids that depend on `start`.
    fn compute_descendants(&self, start: &Self::Id) -> Vec<Self::Id>
        requires
            Self::Id::obeys_eq_spec(),
    {
        let ids = self.get_all_ids();
        compute_descendants_fn(ids.as_slice(), start, |id: &Self::Id| self.get_dependencies(id))
    }

    /// The ids `start` depends on.
    fn compute_ancestors(&self, start: &Self::Id) -> Vec<Self::Id>
        requires
            Self::Id::obeys_eq_spec(),
    {
        let ids = self.get_all_ids();
        compute_ancestors_fn(ids.as_slice(), start, |id: &Self::Id| self.get_dependencies(id))
    }

    /// The ids `start` depends on, and those that depend on it.
    fn compute_blast_radius(&self, start: &Self::Id) -> (Vec<Self::Id>, Vec<Self::Id>)
        requires
            Self::Id::obeys_eq_spec(),
    {
        (self.compute_ancestors(start), self.compute_descendants(start))
    }

    /// Number of ids that depend on `start`.
    fn impact_count(&self, start: &Self::Id) -> usize
        requires
            Self::Id::obeys_eq_spec(),
    {
        self.compute_descendants(start).len()
    }

    /// Number of ids `start` depends on.
    fn dependency_count(&self, start: &Self::Id) -> usize
        requires
            Self::Id::obeys_eq_spec(),
    {
        self.compute_ancestors(start).len()
    }
}

/// `o` lists the nodes of `m` once each, every node after all the nodes it
/// has an edge to.
pub open spec fn is_dependency_order(m: GraphModel, o: Seq<usize>) -> bool {
    &&& o.len() == m.len()
    &&& o.no_duplicates()
    &&& forall|k: int| 0 <= k < o.len() ==> #[trigger] o[k] < m.len()
    &&& forall|p: int, q: int|
        0 <= p < o.len() && 0 <= q < o.len() && #[trigger] is_edge(m, o[q] as int, o[p] as int) ==> p < q
}

/// The nodes of a graph without cycles, ordered by decreasing level (ties in
/// index order): every node comes after the nodes it has an edge to.
pub fn dependency_order(d: &DAG) -> (o: Vec<usize>)
    requires
        d.wf(),
        !has_closed_walk(d@),
    ensures
        is_dependency_order(d@, o@),
{
    let ghost m = d@;
    let n = d.node_count();
    let lv = d.calculate_levels();
    let ghost full = Seq::new(m.len(), |i: int| true);
    let mut keyed: Vec<(usize, usize)> = Vec::new();
    let mut i: usize = 0;
    while i < n
        invariant
            n == m.len(),
            i <= n,
            lv@.len() == n,
            forall|j: int| 0 <= j < lv@.len() ==> #[trigger] lv@[j].1 <= n,
            keyed@ == Seq::new(i as nat, |j: int| ((n - lv@[j].1) as usize, j as usize)),
        decreases n - i,
    {
        keyed.push((n - lv[i].1, i));
        i = i + 1;
        assert(keyed@ =~= Seq::new(i as nat, |j: int| ((n - lv@[j].1) as usize, j as usize)));
    }
    let sorted = stable_sort_by_key(&keyed);
    let mut o: Vec<usize> = Vec::new();
    let mut k: usize = 0;
    while k < sorted.len()
        invariant
            k <= sorted@.len(),
            o@ == crate::order::payloads(sorted@.take(k as int)),
        decreases sorted@.len() - k,
    {
        o.push(sorted[k].1);
        k = k + 1;
        assert(o@ =~= crate::order::payloads(sorted@.take(k as int)));
    }
    proof {
        assert(sorted@.take(sorted@.len() as int) =~= sorted@);
        let ks = keyed@;
        assert(crate::order::payloads(ks) =~= Seq::new(n as nat, |j: int| j as usize));
        assert(crate::order::payloads(ks).no_duplicates()) by {
            assert forall|a: int, b: int| 0 <= a < ks.len() && 0 <= b < ks.len() && a != b implies crate::order::payloads(ks)[a]
                != crate::order::payloads(ks)[b] by {
                assert(crate::order::payloads(ks)[a] == a as usize);
                assert(crate::order::payloads(ks)[b] == b as usize);
            }
        }
        crate::order::lemma_sort_payloads(ks);
        crate::order::lemma_sort_by_key(ks);
        let lvs = lv@.map_values(|p: (usize, usize)| p.1);
        assert forall|q: int| 0 <= q < o@.len() implies #[trigger] o@[q] < m.len()
            && sorted@[q] == ((n - lv@[o@[q] as int].1) as usize, o@[q]) by {
            crate::order::lemma_sort_by_key_member(ks, q);
            let j = ks.index_of(sorted@[q]);
            assert(ks[j] == ((n - lv@[j].1) as usize, j as usize));
        }
        assert forall|p: int, q: int|
            0 <= p < o@.len() && 0 <= q < o@.len() && #[trigger] is_edge(m, o@[q] as int, o@[p] as int) implies p < q by {
            let u = o@[q] as int;
            let v = o@[p] as int;
            let c = choose|c: int| 0 <= c < m.children[u].len() && m.children[u][c] == v;
            assert(crate::layout::scoped_edge(m, full, u, c));
            assert(lvs[v] >= lvs[u] + 1);
            assert(lvs[v] == lv@[v].1 && lvs[u] == lv@[u].1);
            if q < p {
                assert(sorted@[q].0 <= sorted@[p].0);
            }
            if p == q {
                let w = seq![u, u];
                assert(crate::cycles::is_closed_walk(m, w));
            }
        }
    }
    o
}

/// A graph built from node ids `0..n` in order has `n` nodes, and exactly
/// the ids below `n`.
proof fn lemma_numbered_nodes(n: nat)
    requires
        n <= usize::MAX,
    ensures
        ({
            let g = empty_model(RenderMode::Auto).add_nodes(Seq::new(n, |i: int| (i as usize, ""@)));
            &&& g.well_formed()
            &&& g.len() == n
            &&& forall|x: usize| #[trigger] g.has_id(x) <==> x < n
        }),
    decreases n,
{
    let ns = Seq::new(n, |i: int| (i as usize, ""@));
    let g = empty_model(RenderMode::Auto).add_nodes(ns);
    if n == 0 {
        assert(g == empty_model(RenderMode::Auto));
        assert(g.index =~= Map::empty());
        assert(g.well_formed());
    } else {
        lemma_numbered_nodes((n - 1) as nat);
        assert(ns.drop_last() =~= Seq::new((n - 1) as nat, |i: int| (i as usize, ""@)));
        let g0 = empty_model(RenderMode::Auto).add_nodes(ns.drop_last());
        assert(!g0.has_id((n - 1) as usize));
        crate::graph::lemma_add_node_wf(g0, (n - 1) as usize, ""@);
        assert(ns.last() == ((n - 1) as usize, ""@));
        assert(g == g0.add_node((n - 1) as usize, ""@));
        assert(g == g0.append((n - 1) as usize, ""@, false));
        assert forall|x: usize| #[trigger] g.has_id(x) <==> x < n by {
            assert(g.index == g0.index.insert((n - 1) as usize, g0.ids.len() as usize));
            assert(g0.has_id(x) <==> x < n - 1);
        }
    }
}

/// Edges between known nodes keep the nodes.
proof fn lemma_edges_keep_nodes(m: GraphModel, es: Seq<(usize, usize)>)
    requires
        m.well_formed(),
        es.len() > 0 ==> m.len() + 2 <= usize::MAX,
        forall|e: int| 0 <= e < es.len() ==> m.has_id(#[trigger] es[e].0) && m.has_id(es[e].1),
    ensures
        m.add_edges(es).len() == m.len(),
        m.add_edges(es).well_formed(),
        forall|x: usize| #[trigger] m.add_edges(es).has_id(x) <==> m.has_id(x),
    decreases es.len(),
{
    if es.len() > 0 {
        let d = es.drop_last();
        assert forall|e: int| 0 <= e < d.len() implies m.has_id(#[trigger] d[e].0) && m.has_id(d[e].1) by {
            assert(d[e] == es[e]);
        }
        lemma_edges_keep_nodes(m, d);
        let g = m.add_edges(d);
        let x = es.last();
        assert(m.has_id(es[es.len() - 1].0) && m.has_id(es[es.len() - 1].1));
        crate::graph::lemma_add_edge_wf(g, x.0, x.1);
        assert(g.ensure_node(x.0) == g);
        assert(g.ensure_node(x.0).ensure_node(x.1) == g);
        assert(m.add_edges(es) == g.add_edge(x.0, x.1));
        assert(m.add_edges(es).index == g.index);
        assert forall|y: usize| #[trigger] m.add_edges(es).has_id(y) <==> m.has_id(y) by {
            assert(m.add_edges(d).has_id(y) <==> m.has_id(y));
        }
    }
}

proof fn lemma_table_edges_range(t: Seq<Seq<usize>>, i: int)
    requires
        0 <= i <= t.len(),
        t.len() <= usize::MAX,
    ensures
        forall|e: int| 0 <= e < table_edges(t, i).len() ==> #[trigger] table_edges(t, i)[e].0 < t.len()
            && table_edges(t, i)[e].1 < t.len(),
    decreases i,
{
    if i > 0 {
        lemma_table_edges_range(t, i - 1);
        lemma_row_edges_range(t, i - 1, t[i - 1].len() as int);
        let a = table_edges(t, i - 1);
        let b = row_edges(t, i - 1, t[i - 1].len() as int);
        assert forall|e: int| 0 <= e < table_edges(t, i).len() implies #[trigger] table_edges(t, i)[e].0 < t.len()
            && table_edges(t, i)[e].1 < t.len() by {
            if e < a.len() {
                assert(table_edges(t, i)[e] == a[e]);
            } else {
                assert(table_edges(t, i)[e] == b[e - a.len()]);
            }
        }
    }
}

proof fn lemma_row_edges_range(t: Seq<Seq<usize>>, i: int, k: int)
    requires
        0 <= i < t.len(),
        t.len() <= usize::MAX,
        k <= t[i].len(),
    ensures
        forall|e: int| 0 <= e < row_edges(t, i, k).len() ==> #[trigger] row_edges(t, i, k)[e].0 < t.len()
            && row_edges(t, i, k)[e].1 < t.len(),
    decreases k,
{
    if k > 0 {
        lemma_row_edges_range(t, i, k - 1);
        let r = row_edges(t, i, k - 1);
        assert forall|e: int| 0 <= e < row_edges(t, i, k).len() implies #[trigger] row_edges(t, i, k)[e].0 < t.len()
            && row_edges(t, i, k)[e].1 < t.len() by {
            if e < r.len() {
                assert(row_edges(t, i, k)[e] == r[e]);
            }
        }
    }
}

/// The graph of a table has one node per item.
proof fn lemma_table_graph_len(t: Seq<Seq<usize>>)
    requires
        t.len() + 2 * table_edges(t, t.len() as int).len() < usize::MAX,
    ensures
        table_graph(t).len() == t.len(),
        forall|x: usize| #[trigger] table_graph(t).has_id(x) <==> x < t.len(),
{
    let n = t.len();
    lemma_numbered_nodes(n);
    let g = empty_model(RenderMode::Auto).add_nodes(Seq::new(n, |i: int| (i as usize, ""@)));
    let es = table_edges(t, n as int);
    lemma_table_edges_range(t, n as int);
    assert forall|e: int| 0 <= e < es.len() implies g.has_id(#[trigger] es[e].0) && g.has_id(es[e].1) by {
        assert(es[e].0 < n && es[e].1 < n);
    }
    lemma_edges_keep_nodes(g, es);
}

/// The items in an order where each comes after the items it depends on;
/// `Err` with a cycle when the items have one.
pub fn topological_sort_fn<Id, F>(items: &[Id], get_dependencies: F) -> (r: Result<Vec<Id>, Vec<Id>>)
    where
        Id: Clone + Eq + Hash + Ord,
        F: Fn(&Id) -> Vec<Id>,
    requires
        Id::obeys_eq_spec(),
        forall|x: &Id| #[trigger] get_dependencies.requires((x,)),
    ensures
        exists|t: Seq<Seq<usize>>|
            #[trigger] is_table(items@, get_dependencies, t) && (items@.len() + 2 * table_edges(t, t.len() as int).len()
                < usize::MAX ==> {
                &&& table_graph(t).len() == items@.len()
                &&& (r is Err <==> has_closed_walk(table_graph(t)))
                &&& r matches Err(out) ==> exists|c: Seq<usize>|
                    first_trail(table_graph(t)) == Some(c) && is_cycle_trail(table_graph(t), c) && out@.len() == c.len()
                        && forall|k: int|
                        0 <= k < c.len() ==> cloned(items@[#[trigger] c[k] as int], out@[k])
                &&& r matches Ok(out) ==> exists|o: Seq<usize>|
                    is_dependency_order(table_graph(t), o) && out@.len() == o.len() && forall|k: int|
                        0 <= k < o.len() ==> cloned(items@[#[trigger] o[k] as int], out@[k])
            }),
{
    let t = dependency_table(items, &get_dependencies);
    let ghost tv = rows(t@);
    assert(is_table(items@, get_dependencies, tv));
    match table_dag(&t) {
        None => Err(Vec::new()),
        Some(d) => {
            proof {
                lemma_table_graph_len(tv);
            }
            if let Some(c) = d.cycle_trail() {
                proof {
                    assert forall|k: int| 0 <= k < c@.len() implies #[trigger] c@[k] < items@.len() by {
                        assert(c@[k] < d@.len());
                    }
                }
                let out = pick(items, &c);
                assert(is_cycle_trail(table_graph(tv), c@) && first_trail(table_graph(tv)) == Some(c@));
                Err(out)
            } else {
                let o = dependency_order(&d);
                let out = pick(items, &o);
                assert(is_dependency_order(table_graph(tv), o@));
                Ok(out)
            }
        },
    }
}

/// Items that can list their ids and each one's dependencies, for ordering.
pub trait TopologicallySortable {
    /// The type of the ids.
    type Id: Clone + Eq + Hash + Ord;

    /// All ids of the graph.
    fn get_all_ids(&self) -> Vec<Self::Id>;

    /// The ids `id` depends on.
    fn get_dependencies(&self, id: &Self::Id) -> Vec<Self::Id>;

    /// The ids in dependency order, or a cycle.
    fn topological_sort(&self) -> Result<Vec<Self::Id>, Vec<Self::Id>>
        requires
            Self::Id::obeys_eq_spec(),
    {
        let ids = self.get_all_ids();
        topological_sort_fn(ids.as_slice(), |id: &Self::Id| self.get_dependencies(id))
    }

    /// Whether a dependency order exists.
    fn has_valid_ordering(&self) -> bool
        requires
            Self::Id::obeys_eq_spec(),
    {
        self.topological_sort().is_ok()
    }
}

} // verus!
