//! Cycle detection over the adjacency lists of the graph store.
use crate::graph::{GraphModel, DAG};
use crate::order::{first_index, lemma_first_index};
use vstd::prelude::*;

verus! {

/// There is an edge from node index `u` to node index `v`.
pub open spec fn is_edge(m: GraphModel, u: int, v: int) -> bool {
    &&& 0 <= u < m.len()
    &&& exists|k: int| 0 <= k < m.children[u].len() && m.children[u][k] == v
}

/// `w` is a walk: node indices joined by edges.
pub open spec fn is_walk(m: GraphModel, w: Seq<int>) -> bool {
    &&& forall|i: int| 0 <= i < w.len() ==> 0 <= #[trigger] w[i] < m.len()
    &&& forall|i: int| 0 <= i < w.len() - 1 ==> is_edge(m, #[trigger] w[i], w[i + 1])
}

/// `w` is a closed walk: a walk of at least one edge that ends where it starts.
pub open spec fn is_closed_walk(m: GraphModel, w: Seq<int>) -> bool {
    &&& is_walk(m, w)
    &&& w.len() >= 2
    &&& w[0] == w.last()
}

/// The graph has a closed walk (a self-loop counts).
pub open spec fn has_closed_walk(m: GraphModel) -> bool {
    exists|w: Seq<int>| is_closed_walk(m, w)
}

/// `r` strictly decreases along every edge.
pub open spec fn is_ranking(m: GraphModel, r: Seq<nat>) -> bool {
    &&& r.len() == m.len()
    &&& forall|u: int, k: int|
        0 <= u < m.len() && 0 <= k < m.children[u].len() ==> r[#[trigger] m.children[u][k] as int]
            < r[u]
}

/// `c` is a cycle given by node ids: each id is known and has an edge to the
/// next one, the last one to the first.
pub open spec fn is_id_cycle(m: GraphModel, c: Seq<usize>) -> bool {
    &&& c.len() >= 1
    &&& forall|k: int| 0 <= k < c.len() ==> m.has_id(#[trigger] c[k])
    &&& forall|k: int|
        0 <= k < c.len() ==> is_edge(
            m,
            m.index[#[trigger] c[k]] as int,
            m.index[c[(k + 1) % (c.len() as int)]] as int,
        )
}

/// Number of `false` entries.
pub open spec fn count_false(s: Seq<bool>) -> nat
    decreases s.len(),
{
    if s.len() == 0 {
        0
    } else {
        count_false(s.drop_last()) + if s.last() {
            0nat
        } else {
            1nat
        }
    }
}

pub proof fn lemma_count_false_mono(a: Seq<bool>, b: Seq<bool>)
    requires
        a.len() == b.len(),
        forall|i: int| 0 <= i < a.len() && #[trigger] a[i] ==> b[i],
    ensures
        count_false(b) <= count_false(a),
    decreases a.len(),
{
    if a.len() > 0 {
        lemma_count_false_mono(a.drop_last(), b.drop_last());
    }
}

pub proof fn lemma_count_false_set(a: Seq<bool>, i: int)
    requires
        0 <= i < a.len(),
        !a[i],
    ensures
        count_false(a.update(i, true)) + 1 == count_false(a),
    decreases a.len(),
{
    if i < a.len() - 1 {
        assert(a.update(i, true).drop_last() =~= a.drop_last().update(i, true));
        lemma_count_false_set(a.drop_last(), i);
    } else {
        assert(a.update(i, true).drop_last() =~= a.drop_last());
    }
}

/// Along a walk, a ranking drops by at least the walk's number of edges.
proof fn lemma_ranking_walk(m: GraphModel, r: Seq<nat>, w: Seq<int>)
    requires
        is_ranking(m, r),
        is_walk(m, w),
        w.len() >= 1,
    ensures
        r[w.last()] + w.len() - 1 <= r[w[0]],
    decreases w.len(),
{
    if w.len() > 1 {
        let w2 = w.drop_last();
        assert(is_walk(m, w2)) by {
            assert forall|i: int| 0 <= i < w2.len() - 1 implies is_edge(m, #[trigger] w2[i], w2[i + 1]) by {
                assert(w2[i] == w[i] && w2[i + 1] == w[i + 1]);
                assert(is_edge(m, w[i], w[i + 1]));
            }
        }
        lemma_ranking_walk(m, r, w2);
        let a = w[w.len() - 2];
        assert(is_edge(m, a, w.last()));
        let k = choose|k: int| 0 <= k < m.children[a].len() && m.children[a][k] == w.last();
        assert(r[m.children[a][k] as int] < r[a]);
    }
}

/// A graph with a ranking has no closed walk.
pub proof fn lemma_ranking_acyclic(m: GraphModel, r: Seq<nat>)
    requires
        is_ranking(m, r),
    ensures
        !has_closed_walk(m),
{
    if has_closed_walk(m) {
        let w = choose|w: Seq<int>| is_closed_walk(m, w);
        lemma_ranking_walk(m, r, w);
    }
}

/// The part of a depth-first search state that stays fixed by a completed
/// visit: the sizes, the nodes on the stack, and the finished nodes with
/// their finishing ranks.
pub open spec fn dfs_ok(
    m: GraphModel,
    visited: Seq<bool>,
    on_stack: Seq<bool>,
    path: Seq<int>,
    finish: Seq<nat>,
    clock: nat,
) -> bool {
    let n = m.len();
    &&& visited.len() == n
    &&& on_stack.len() == n
    &&& finish.len() == n
    &&& is_walk(m, path)
    &&& forall|v: int| 0 <= v < n ==> (#[trigger] on_stack[v] <==> path.contains(v))
    &&& forall|v: int| 0 <= v < n && #[trigger] on_stack[v] ==> visited[v]
    &&& forall|v: int| 0 <= v < n && #[trigger] visited[v] && !on_stack[v] ==> finish[v] < clock
    &&& forall|u: int, k: int|
        0 <= u < n && visited[u] && !on_stack[u] && 0 <= k < m.children[u].len() ==> {
            let c = #[trigger] m.children[u][k] as int;
            visited[c] && !on_stack[c] && finish[c] < finish[u]
        }
}

/// A visit only finishes nodes: finished nodes stay finished with their rank.
pub open spec fn dfs_grows(
    visited0: Seq<bool>,
    on_stack0: Seq<bool>,
    finish0: Seq<nat>,
    clock0: nat,
    visited1: Seq<bool>,
    on_stack1: Seq<bool>,
    finish1: Seq<nat>,
    clock1: nat,
) -> bool {
    &&& clock0 <= clock1
    &&& on_stack1 == on_stack0
    &&& forall|v: int| 0 <= v < visited0.len() && #[trigger] visited0[v] ==> visited1[v]
    &&& forall|v: int|
        0 <= v < visited0.len() && #[trigger] visited0[v] && !on_stack0[v] ==> finish1[v]
            == finish0[v]
}

/// `p` is a walk given by node indices.
pub open spec fn is_index_walk(m: GraphModel, p: Seq<usize>) -> bool {
    &&& forall|i: int| 0 <= i < p.len() ==> #[trigger] p[i] < m.len()
    &&& forall|i: int| 0 <= i < p.len() - 1 ==> is_edge(m, #[trigger] p[i] as int, p[i + 1] as int)
}

/// A cycle given by ids yields a closed walk.
pub proof fn lemma_id_cycle_closed_walk(m: GraphModel, c: Seq<usize>)
    requires
        m.well_formed(),
        is_id_cycle(m, c),
    ensures
        has_closed_walk(m),
{
    let n = c.len() as int;
    let w = Seq::new((n + 1) as nat, |k: int| if k < n { m.index[c[k]] as int } else { m.index[c[0]] as int });
    assert forall|k: int| 0 <= k < w.len() - 1 implies is_edge(m, #[trigger] w[k], w[k + 1]) by {
        assert(is_edge(m, m.index[c[k]] as int, m.index[c[(k + 1) % n]] as int));
        if k + 1 < n {
            vstd::arithmetic::div_mod::lemma_small_mod((k + 1) as nat, n as nat);
        } else {
            vstd::arithmetic::div_mod::lemma_mod_self_0(n);
        }
    }
    assert forall|k: int| 0 <= k < w.len() implies 0 <= #[trigger] w[k] < m.len() by {
        if k < n {
            assert(m.has_id(c[k]));
        } else {
            assert(m.has_id(c[0]));
        }
    }
    assert(is_closed_walk(m, w));
}

/// The state of a depth-first search that keeps its path: the path is a
/// walk without repeats of visited nodes, and every visited node off the
/// path is finished, with all its children finished before it.
pub open spec fn search_ok(m: GraphModel, visited: Seq<bool>, path: Seq<usize>, finish: Seq<nat>, clock: nat) -> bool {
    let n = m.len();
    &&& visited.len() == n
    &&& finish.len() == n
    &&& is_index_walk(m, path)
    &&& path.no_duplicates()
    &&& forall|k: int| 0 <= k < path.len() ==> visited[#[trigger] path[k] as int]
    &&& forall|v: int| 0 <= v < n && #[trigger] visited[v] && !path.contains(v as usize) ==> finish[v] < clock
    &&& forall|u: int, k: int|
        0 <= u < n && visited[u] && !path.contains(u as usize) && 0 <= k < m.children[u].len() ==> {
            let c = #[trigger] m.children[u][k] as int;
            visited[c] && !path.contains(c as usize) && finish[c] < finish[u]
        }
}

/// A search step only finishes nodes: visited nodes stay visited, finished
/// ones keep their rank.
pub open spec fn search_grows(
    visited0: Seq<bool>,
    path: Seq<usize>,
    finish0: Seq<nat>,
    clock0: nat,
    visited1: Seq<bool>,
    finish1: Seq<nat>,
    clock1: nat,
) -> bool {
    &&& clock0 <= clock1
    &&& forall|v: int| 0 <= v < visited0.len() && #[trigger] visited0[v] ==> visited1[v]
    &&& forall|v: int|
        0 <= v < visited0.len() && #[trigger] visited0[v] && !path.contains(v as usize) ==> finish1[v] == finish0[v]
}

/// From a finished node, with nothing left on the path, every walk stays
/// among finished nodes and their ranks drop along it.
proof fn lemma_black_walk(m: GraphModel, visited: Seq<bool>, finish: Seq<nat>, clock: nat, w: Seq<int>)
    requires
        search_ok(m, visited, seq![], finish, clock),
        is_walk(m, w),
        w.len() >= 1,
        visited[w[0]],
    ensures
        visited[w.last()],
        finish[w.last()] + w.len() - 1 <= finish[w[0]],
    decreases w.len(),
{
    let e: Seq<usize> = seq![];
    if w.len() > 1 {
        let w2 = w.drop_last();
        assert(is_walk(m, w2)) by {
            assert forall|i: int| 0 <= i < w2.len() - 1 implies is_edge(m, #[trigger] w2[i], w2[i + 1]) by {
                assert(w2[i] == w[i] && w2[i + 1] == w[i + 1]);
                assert(is_edge(m, w[i], w[i + 1]));
            }
        }
        lemma_black_walk(m, visited, finish, clock, w2);
        let a = w[w.len() - 2];
        assert(w2.last() == a);
        assert(is_edge(m, a, w.last()));
        let k = choose|k: int| 0 <= k < m.children[a].len() && m.children[a][k] == w.last();
        assert(!e.contains(a as usize));
        assert(m.children[a][k] as int == w.last());
    }
}

/// The ids of the path from the first occurrence of `idx` on.
pub open spec fn path_cycle_ids(m: GraphModel, path: Seq<usize>, idx: usize) -> Seq<usize> {
    let j = first_index(path, idx);
    path.subrange(j, path.len() as int).map_values(|i: usize| m.ids[i as int])
}

/// The depth-first search from `idx` that keeps its path, as a function:
/// on reaching a node on the path, the ids of the path from that node on;
/// on reaching another visited node, nothing; otherwise the search of the
/// node's children in turn. Returns the result and the visited marks after it.
pub open spec fn search(m: GraphModel, idx: usize, visited: Seq<bool>, path: Seq<usize>, fuel: nat) -> (Option<Seq<usize>>, Seq<bool>)
    decreases fuel, 0nat, 0nat,
{
    if fuel == 0 {
        (None, visited)
    } else if visited[idx as int] {
        if path.contains(idx) {
            (Some(path_cycle_ids(m, path, idx)), visited)
        } else {
            (None, visited)
        }
    } else {
        search_children(m, idx, 0, visited.update(idx as int, true), path.push(idx), (fuel - 1) as nat)
    }
}

/// The search of the children of `u` from the `k`-th on, stopping at the
/// first cycle found.
pub open spec fn search_children(
    m: GraphModel,
    u: usize,
    k: nat,
    visited: Seq<bool>,
    path: Seq<usize>,
    fuel: nat,
) -> (Option<Seq<usize>>, Seq<bool>)
    decreases fuel, 1nat, (if k < m.children[u as int].len() { m.children[u as int].len() - k } else { 0 }),
{
    if k >= m.children[u as int].len() {
        (None, visited)
    } else {
        let r = search(m, m.children[u as int][k as int], visited, path, fuel);
        if r.0 is Some {
            r
        } else {
            search_children(m, u, k + 1, r.1, path, fuel)
        }
    }
}

/// The cycle that the searches from nodes `i`, `i + 1`, ... meet first, each
/// from scratch.
pub open spec fn first_cycle_from(m: GraphModel, i: nat) -> Option<Seq<usize>>
    decreases m.len() - i,
{
    if i >= m.len() {
        None
    } else {
        let r = search(m, i as usize, Seq::new(m.len(), |j: int| false), seq![], m.len() + 1).0;
        if r is Some {
            r
        } else {
            first_cycle_from(m, i + 1)
        }
    }
}

/// The cycle that a depth-first search from each node in turn, in insertion
/// order, meets first.
pub open spec fn first_cycle(m: GraphModel) -> Option<Seq<usize>> {
    first_cycle_from(m, 0)
}

/// The contents of an optional list.
pub open spec fn opt_view(o: Option<Vec<usize>>) -> Option<Seq<usize>> {
    match o {
        Some(c) => Some(c@),
        None => None,
    }
}

proof fn lemma_count_false_le2(s: Seq<bool>)
    ensures
        count_false(s) <= s.len(),
    decreases s.len(),
{
    if s.len() > 0 {
        lemma_count_false_le2(s.drop_last());
    }
}

proof fn lemma_count_false_all(n: nat)
    ensures
        count_false(Seq::new(n, |j: int| false)) == n,
    decreases n,
{
    if n > 0 {
        lemma_count_false_all((n - 1) as nat);
        assert(Seq::new(n, |j: int| false).drop_last() =~= Seq::new((n - 1) as nat, |j: int| false));
    }
}

/// The depth-first search that keeps a stack of the current path and marks
/// of the nodes on it, as a function: on reaching a node on the stack, that
/// node followed by the stack from its end back to its start; on reaching
/// another visited node, nothing; otherwise the search of its children in
/// turn. Returns the result and the visited marks after it.
pub open spec fn trail_search(
    m: GraphModel,
    idx: usize,
    visited: Seq<bool>,
    on_stack: Seq<bool>,
    stack: Seq<usize>,
    fuel: nat,
) -> (Option<Seq<usize>>, Seq<bool>)
    decreases fuel, 0nat, 0nat,
{
    if fuel == 0 {
        (None, visited)
    } else if on_stack[idx as int] {
        (Some(seq![idx] + stack.reverse()), visited)
    } else if visited[idx as int] {
        (None, visited)
    } else {
        trail_children(
            m,
            idx,
            0,
            visited.update(idx as int, true),
            on_stack.update(idx as int, true),
            stack.push(idx),
            (fuel - 1) as nat,
        )
    }
}

/// The search of the children of `u` from the `k`-th on, stopping at the
/// first trail found.
pub open spec fn trail_children(
    m: GraphModel,
    u: usize,
    k: nat,
    visited: Seq<bool>,
    on_stack: Seq<bool>,
    stack: Seq<usize>,
    fuel: nat,
) -> (Option<Seq<usize>>, Seq<bool>)
    decreases fuel, 1nat, (if k < m.children[u as int].len() { m.children[u as int].len() - k } else { 0 }),
{
    if k >= m.children[u as int].len() {
        (None, visited)
    } else {
        let r = trail_search(m, m.children[u as int][k as int], visited, on_stack, stack, fuel);
        if r.0 is Some {
            r
        } else {
            trail_children(m, u, k + 1, r.1, on_stack, stack, fuel)
        }
    }
}

/// The trail that the searches from nodes `i`, `i + 1`, ... meet first,
/// sharing their visited marks.
pub open spec fn first_trail_from(m: GraphModel, i: nat, visited: Seq<bool>) -> Option<Seq<usize>>
    decreases m.len() - i,
{
    if i >= m.len() {
        None
    } else {
        let r = trail_search(m, i as usize, visited, Seq::new(m.len(), |j: int| false), seq![], m.len() + 1);
        if r.0 is Some {
            r.0
        } else {
            first_trail_from(m, i + 1, r.1)
        }
    }
}

/// The trail that a depth-first search from each node in turn, in insertion
/// order, meets first.
pub open spec fn first_trail(m: GraphModel) -> Option<Seq<usize>> {
    first_trail_from(m, 0, Seq::new(m.len(), |j: int| false))
}

/// The stack of a search as node indices.
pub open spec fn sints(s: Seq<usize>) -> Seq<int> {
    s.map_values(|x: usize| x as int)
}

/// `c` starts with a node that occurs again later, and each entry after the
/// first has an edge to the entry before it.
pub open spec fn is_cycle_trail(m: GraphModel, c: Seq<usize>) -> bool {
    &&& c.len() >= 2
    &&& forall|k: int| 0 <= k < c.len() ==> #[trigger] c[k] < m.len()
    &&& forall|k: int| 0 <= k < c.len() - 1 ==> is_edge(m, #[trigger] c[k + 1] as int, c[k] as int)
    &&& exists|j: int| 1 <= j < c.len() && #[trigger] c[j] == c[0]
}

impl DAG {
    /// One cycle of the graph, as distinct node ids in walking order (the last
    /// one has an edge back to the first): the first one that a depth-first
    /// search from each node in turn runs into. `None` exactly when the graph
    /// has no cycle.
    pub fn find_cycle_path(&self) -> (r: Option<Vec<usize>>)
        requires
            self.wf(),
        ensures
            r matches Some(c) ==> is_id_cycle(self@, c@) && c@.no_duplicates(),
            r is Some <==> has_closed_walk(self@),
            opt_view(r) == first_cycle(self@),
    {
        let ghost m = self@;
        let n = self.node_count();
        let mut i: usize = 0;
        while i < n
            invariant
                self.wf(),
                m == self@,
                n == m.len(),
                i <= n,
                forall|w: Seq<int>| #[trigger] is_closed_walk(m, w) ==> w[0] >= i,
                first_cycle(m) == first_cycle_from(m, i as nat),
            decreases n - i,
        {
            let mut visited: Vec<bool> = Vec::new();
            let mut j: usize = 0;
            while j < n
                invariant
                    j <= n,
                    visited@ == Seq::new(j as nat, |q: int| false),
                decreases n - j,
            {
                visited.push(false);
                j = j + 1;
                assert(visited@ =~= Seq::new(j as nat, |q: int| false));
            }
            let mut path: Vec<usize> = Vec::new();
            let ghost finish0: Seq<nat> = Seq::new(n as nat, |q: int| 0nat);
            proof {
                assert(path@ =~= Seq::<usize>::empty());
                assert(is_index_walk(m, path@));
                assert(search_ok(m, visited@, path@, finish0, 0nat));
                lemma_count_false_all(n as nat);
                assert(visited@ =~= Seq::new(m.len(), |j: int| false));
                assert(path@ =~= seq![]);
            }
            let (found, Ghost(finish), Ghost(clock)) = self.find_cycle_from(
                i,
                &mut visited,
                &mut path,
                Ghost(finish0),
                Ghost(0nat),
                Ghost((n + 1) as nat),
            );
            match found {
                Some(c) => {
                    proof {
                        lemma_id_cycle_closed_walk(m, c@);
                    }
                    return Some(c);
                },
                None => {},
            }
            proof {
                assert(path@ =~= Seq::<usize>::empty());
                assert forall|w: Seq<int>| #[trigger] is_closed_walk(m, w) implies w[0] >= i + 1 by {
                    if w[0] == i {
                        lemma_black_walk(m, visited@, finish, clock, w);
                    }
                }
            }
            i = i + 1;
        }
        proof {
            if has_closed_walk(m) {
                let w = choose|w: Seq<int>| is_closed_walk(m, w);
                assert(0 <= w[0] < m.len());
            }
        }
        None
    }

    /// The ids of the path from position `pos` on, when the path ends with an
    /// edge back to the node at `pos`.
    #[verifier::spinoff_prover]
    fn cycle_ids(&self, path: &Vec<usize>, pos: usize) -> (c: Vec<usize>)
        requires
            self.wf(),
            pos < path@.len(),
            is_index_walk(self@, path@),
            path@.no_duplicates(),
            is_edge(self@, path@.last() as int, path@[pos as int] as int),
        ensures
            is_id_cycle(self@, c@),
            c@.no_duplicates(),
            c@ == path@.subrange(pos as int, path@.len() as int).map_values(|i: usize| self@.ids[i as int]),
    {
        let ghost m = self@;
        let ghost start_idx = path@[pos as int];
        let mut c: Vec<usize> = Vec::new();
        let mut q: usize = pos;
        while q < path.len()
            invariant
                self.wf(),
                m == self@,
                pos <= q <= path@.len(),
                is_index_walk(m, path@),
                c@.len() == q - pos,
                forall|a: int| 0 <= a < c@.len() ==> #[trigger] c@[a] == m.ids[path@[pos + a] as int],
            decreases path@.len() - q,
        {
            c.push(self.node_id(path[q]));
            q = q + 1;
        }
        proof {
            let len = c@.len() as int;
            assert(path@[pos as int] == start_idx);
            assert forall|k: int| 0 <= k < len implies m.has_id(#[trigger] c@[k]) && m.index[c@[k]] == path@[pos + k] by {
                let i = path@[pos + k] as int;
                assert(path@[pos + k] < m.len());
                assert(m.index.contains_key(m.ids[i]));
            }
            assert forall|k: int| 0 <= k < len implies is_edge(
                m,
                m.index[#[trigger] c@[k]] as int,
                m.index[c@[(k + 1) % len]] as int,
            ) by {
                assert(m.index[c@[k]] == path@[pos + k]);
                if k + 1 < len {
                vstd::arithmetic::div_mod::lemma_small_mod((k + 1) as nat, len as nat);
                assert(m.index[c@[k + 1]] == path@[pos + k + 1]);
                } else {
                vstd::arithmetic::div_mod::lemma_mod_self_0(len);
                assert(m.index[c@[0]] == path@[pos as int]);
                }
            }
            assert forall|a: int, b: int| 0 <= a < len && 0 <= b < len && a != b implies c@[a] != c@[b] by {
                if c@[a] == c@[b] {
                assert(m.index[c@[a]] == path@[pos + a]);
                assert(m.index[c@[b]] == path@[pos + b]);
                }
            }
        }
        assert(c@ =~= path@.subrange(pos as int, path@.len() as int).map_values(|i: usize| m.ids[i as int]));
        c
    }

    /// Depth-first search from `start_idx` that keeps the current path; on
    /// reaching a node already on the path, returns the ids of the path from
    /// that node on.
    #[verifier::spinoff_prover]
    fn find_cycle_from(
        &self,
        start_idx: usize,
        visited: &mut Vec<bool>,
        path: &mut Vec<usize>,
        Ghost(finish0): Ghost<Seq<nat>>,
        Ghost(clock0): Ghost<nat>,
        Ghost(fuel): Ghost<nat>,
    ) -> (res: (Option<Vec<usize>>, Ghost<Seq<nat>>, Ghost<nat>))
        requires
            self.wf(),
            start_idx < self@.len(),
            fuel >= count_false(old(visited)@) + 1,
            search_ok(self@, old(visited)@, old(path)@, finish0, clock0),
            old(path)@.len() > 0 ==> is_edge(self@, old(path)@.last() as int, start_idx as int),
        ensures
            final(visited)@.len() == self@.len(),
            forall|v: int| 0 <= v < self@.len() && #[trigger] old(visited)@[v] ==> final(visited)@[v],
            res.0 matches Some(c) ==> is_id_cycle(self@, c@) && c@.no_duplicates(),
            opt_view(res.0) == search(self@, start_idx, old(visited)@, old(path)@, fuel).0,
            final(visited)@ == search(self@, start_idx, old(visited)@, old(path)@, fuel).1,
            res.0 is None ==> final(path)@ == old(path)@ && search_ok(self@, final(visited)@, old(path)@, res.1@, res.2@)
                && search_grows(old(visited)@, old(path)@, finish0, clock0, final(visited)@, res.1@, res.2@)
                && final(visited)@[start_idx as int] && !old(path)@.contains(start_idx),
        decreases count_false(old(visited)@),
    {
        let ghost m = self@;
        let ghost p0 = path@;
        if visited[start_idx] {
            let mut pos: usize = 0;
            while pos < path.len() && path[pos] != start_idx
                invariant
                    pos <= path@.len(),
                    forall|q: int| 0 <= q < pos ==> path@[q] != start_idx,
                decreases path@.len() - pos,
            {
                pos = pos + 1;
            }
            if pos == path.len() {
                proof {
                    if p0.contains(start_idx) {
                        let q = p0.index_of(start_idx);
                        assert(p0[q] == start_idx);
                    }
                    assert forall|v: int| 0 <= v < m.len() && #[trigger] old(visited)@[v] implies visited@[v] by {}
                }
                return (None, Ghost(finish0), Ghost(clock0));
            }
            assert(path@[pos as int] == start_idx);
            proof {
                lemma_first_index(path@, start_idx, pos as int);
                assert(path@.contains(start_idx));
            }
            let c = self.cycle_ids(path, pos);
            return (Some(c), Ghost(finish0), Ghost(clock0));
        }
        let ghost v_entry = visited@;
        visited.set(start_idx, true);
        path.push(start_idx);
        let ghost p2 = path@;
        proof {
            lemma_count_false_set(v_entry, start_idx as int);
            assert(!p0.contains(start_idx)) by {
                if p0.contains(start_idx) {
                    let q = p0.index_of(start_idx);
                    assert(v_entry[p0[q] as int]);
                }
            }
            assert(p2 == p0.push(start_idx));
            assert forall|x: usize| #[trigger] p2.contains(x) <==> (p0.contains(x) || x == start_idx) by {
                if p0.contains(x) {
                    let q = p0.index_of(x);
                    assert(p2[q] == x);
                }
                if p2.contains(x) {
                    let q = p2.index_of(x);
                    if q < p0.len() {
                        assert(p0[q] == x);
                    }
                }
                if x == start_idx {
                    assert(p2[p0.len() as int] == x);
                }
            }
            assert forall|i: int| 0 <= i < p2.len() - 1 implies is_edge(m, #[trigger] p2[i] as int, p2[i + 1] as int) by {
                if i < p2.len() - 2 {
                    assert(p2[i] == p0[i] && p2[i + 1] == p0[i + 1]);
                }
            }
            assert forall|i: int| 0 <= i < p2.len() implies #[trigger] p2[i] < m.len() by {
                if i < p0.len() {
                    assert(p2[i] == p0[i]);
                }
            }
            assert(p2.no_duplicates()) by {
                assert forall|a: int, b: int| 0 <= a < p2.len() && 0 <= b < p2.len() && a != b implies p2[a] != p2[b] by {
                    if a < p0.len() && b < p0.len() {
                        assert(p2[a] == p0[a] && p2[b] == p0[b]);
                    } else if a < p0.len() {
                        assert(p2[a] == p0[a]);
                        assert(p0.contains(p2[a]));
                    } else if b < p0.len() {
                        assert(p2[b] == p0[b]);
                        assert(p0.contains(p2[b]));
                    }
                }
            }
            assert forall|k: int| 0 <= k < p2.len() implies visited@[#[trigger] p2[k] as int] by {
                if k < p0.len() {
                    assert(p2[k] == p0[k]);
                }
            }
            assert forall|u: int, k: int|
                0 <= u < m.len() && visited@[u] && !p2.contains(u as usize) && 0 <= k < m.children[u].len() implies {
                    let c = #[trigger] m.children[u][k] as int;
                    visited@[c] && !p2.contains(c as usize) && finish0[c] < finish0[u]
                } by {
                let c = m.children[u][k] as int;
                assert(v_entry[u]);
                assert(c != start_idx);
            }
            assert forall|v: int| 0 <= v < m.len() && #[trigger] visited@[v] && !p2.contains(v as usize) implies finish0[v] < clock0 by {
                assert(v_entry[v]);
            }
            assert(search_ok(m, visited@, p2, finish0, clock0));
            assert(visited@ == v_entry.update(start_idx as int, true));
            assert(search(m, start_idx, v_entry, p0, fuel) == search_children(m, start_idx, 0, visited@, p2, (fuel - 1) as nat));
        }
        let ghost mut finish = finish0;
        let ghost mut clock = clock0;
        let children = self.get_children_indices(start_idx);
        let mut k: usize = 0;
        while k < children.len()
            invariant
                self.wf(),
                m == self@,
                start_idx < m.len(),
                children@ == m.children[start_idx as int],
                k <= children@.len(),
                path@ == p2,
                p2 == p0.push(start_idx),
                !p0.contains(start_idx),
                forall|x: usize| #[trigger] p2.contains(x) <==> (p0.contains(x) || x == start_idx),
                v_entry == old(visited)@,
                p0 == old(path)@,
                v_entry.len() == m.len(),
                !v_entry[start_idx as int],
                search_ok(m, visited@, p2, finish, clock),
                search_grows(v_entry.update(start_idx as int, true), p2, finish0, clock0, visited@, finish, clock),
                search_ok(m, v_entry, p0, finish0, clock0),
                count_false(v_entry.update(start_idx as int, true)) < count_false(v_entry),
                forall|j: int| 0 <= j < k ==> visited@[#[trigger] children@[j] as int] && !p2.contains(children@[j]),
                fuel >= count_false(v_entry) + 1,
                search(m, start_idx, v_entry, p0, fuel) == search_children(m, start_idx, k as nat, visited@, p2, (fuel - 1) as nat),
            decreases children@.len() - k,
        {
            let c = children[k];
            proof {
                assert(m.children[start_idx as int][k as int] == c);
                assert(c < m.len());
                assert(p2.last() == start_idx);
                assert(is_edge(m, p2.last() as int, c as int));
                lemma_count_false_mono(v_entry.update(start_idx as int, true), visited@);
            }
            let ghost v1 = visited@;
            let ghost f1 = finish;
            let ghost vk = visited@;
            let (found, Ghost(f2), Ghost(c2)) = self.find_cycle_from(
                c,
                visited,
                path,
                Ghost(finish),
                Ghost(clock),
                Ghost((fuel - 1) as nat),
            );
            proof {
                assert(search_children(m, start_idx, k as nat, vk, p2, (fuel - 1) as nat) == (if search(
                    m,
                    c,
                    vk,
                    p2,
                    (fuel - 1) as nat,
                ).0 is Some {
                    search(m, c, vk, p2, (fuel - 1) as nat)
                } else {
                    search_children(m, start_idx, (k + 1) as nat, search(m, c, vk, p2, (fuel - 1) as nat).1, p2, (fuel - 1) as nat)
                }));
            }
            match found {
                Some(cyc) => {
                    proof {
                        assert forall|v: int| 0 <= v < m.len() && #[trigger] v_entry[v] implies visited@[v] by {
                            assert(v_entry.update(start_idx as int, true)[v]);
                            assert(v1[v]);
                        }
                    }
                    return (Some(cyc), Ghost(f2), Ghost(c2));
                },
                None => {},
            }
            proof {
                assert forall|j: int| 0 <= j < k + 1 implies visited@[#[trigger] children@[j] as int] && !p2.contains(children@[j]) by {
                    if j < k {
                        assert(v1[children@[j] as int]);
                    }
                }
                assert forall|v: int| 0 <= v < v_entry.len() && #[trigger] v_entry.update(start_idx as int, true)[v] implies visited@[v] by {
                    assert(v1[v]);
                }
                assert forall|v: int|
                    0 <= v < v_entry.len() && #[trigger] v_entry.update(start_idx as int, true)[v] && !p2.contains(v as usize)
                    implies f2[v] == finish0[v] by {
                    assert(v1[v]);
                    assert(f1[v] == finish0[v]);
                }
                finish = f2;
                clock = c2;
            }
            k = k + 1;
        }
        path.pop();
        let ghost f_done = finish;
        let ghost c_done = clock;
        proof {
            assert(path@ =~= p0);
            finish = f_done.update(start_idx as int, c_done);
            clock = c_done + 1;
            assert forall|v: int| 0 <= v < m.len() && #[trigger] visited@[v] && !p0.contains(v as usize) implies finish[v] < clock by {
                if v != start_idx {
                    assert(!p2.contains(v as usize));
                }
            }
            assert forall|u: int, j: int|
                0 <= u < m.len() && visited@[u] && !p0.contains(u as usize) && 0 <= j < m.children[u].len() implies {
                    let c = #[trigger] m.children[u][j] as int;
                    visited@[c] && !p0.contains(c as usize) && finish[c] < finish[u]
                } by {
                let c = m.children[u][j] as int;
                if u == start_idx {
                    assert(children@[j] == c);
                    assert(!p2.contains(c as usize));
                    assert(c != start_idx);
                    assert(f_done[c] < c_done);
                } else {
                    assert(!p2.contains(u as usize));
                    assert(!p2.contains(c as usize));
                    assert(c != start_idx);
                }
            }
            assert forall|q: int| 0 <= q < p0.len() implies visited@[#[trigger] p0[q] as int] by {
                assert(p2[q] == p0[q]);
                assert(visited@[p2[q] as int]);
            }
            assert forall|v: int| 0 <= v < v_entry.len() && #[trigger] v_entry[v] implies visited@[v] by {
                assert(v_entry.update(start_idx as int, true)[v]);
            }
            assert forall|v: int| 0 <= v < v_entry.len() && #[trigger] v_entry[v] && !p0.contains(v as usize) implies finish[v] == finish0[v] by {
                assert(v_entry.update(start_idx as int, true)[v]);
                assert(v != start_idx);
                assert(!p2.contains(v as usize));
            }
            assert(search_ok(m, visited@, p0, finish, clock));
            assert(search_grows(v_entry, p0, finish0, clock0, visited@, finish, clock));
        }
        (None, Ghost(finish), Ghost(clock))
    }

    /// Whether the graph has a cycle: a closed walk, a self-loop included.
    pub fn has_cycle(&self) -> (r: bool)
        requires
            self.wf(),
        ensures
            r == has_closed_walk(self@),
    {
        self.cycle_trail().is_some()
    }

    /// The first edge back into the path that a depth-first search from each
    /// node in turn meets, as the node it reaches followed by the path back to
    /// where the search started; `None` exactly when the graph has no cycle.
    pub fn cycle_trail(&self) -> (r: Option<Vec<usize>>)
        requires
            self.wf(),
        ensures
            r is Some <==> has_closed_walk(self@),
            r matches Some(c) ==> is_cycle_trail(self@, c@),
            opt_view(r) == first_trail(self@),
    {
        let n = self.node_count();
        let mut visited: Vec<bool> = Vec::new();
        let mut rec_stack: Vec<bool> = Vec::new();
        let mut i: usize = 0;
        while i < n
            invariant
                n == self@.len(),
                i <= n,
                visited@ == Seq::new(i as nat, |j: int| false),
                rec_stack@ == Seq::new(i as nat, |j: int| false),
            decreases n - i,
        {
            visited.push(false);
            rec_stack.push(false);
            i = i + 1;
            assert(visited@ =~= Seq::new(i as nat, |j: int| false));
            assert(rec_stack@ =~= Seq::new(i as nat, |j: int| false));
        }
        let ghost mut finish: Seq<nat> = Seq::new(n as nat, |j: int| 0nat);
        let ghost mut clock: nat = 0;
        let ghost m = self@;
        proof {
            assert(is_walk(m, seq![]));
        }
        let mut i: usize = 0;
        while i < n
            invariant
                self.wf(),
                m == self@,
                n == m.len(),
                i <= n,
                dfs_ok(m, visited@, rec_stack@, seq![], finish, clock),
                forall|v: int| 0 <= v < n ==> !#[trigger] rec_stack@[v],
                forall|v: int| 0 <= v < i ==> #[trigger] visited@[v],
                first_trail(m) == first_trail_from(m, i as nat, visited@),
            decreases n - i,
        {
            let ghost v0 = visited@;
            let ghost s0 = rec_stack@;
            let ghost f0 = finish;
            let ghost c0 = clock;
            let mut stack: Vec<usize> = Vec::new();
            proof {
                assert(sints(stack@) =~= Seq::<int>::empty());
                assert(rec_stack@ =~= Seq::new(m.len(), |j: int| false));
                assert(stack@ =~= Seq::<usize>::empty());
                lemma_count_false_le2(visited@);
            }
            let (found, Ghost(f1), Ghost(c1)) = self.has_cycle_util(
                i,
                &mut visited,
                &mut rec_stack,
                &mut stack,
                Ghost(finish),
                Ghost(clock),
                Ghost((n + 1) as nat),
            );
            match found {
                Some(tr) => {
                    return Some(tr);
                },
                None => {},
            }
            proof {
                finish = f1;
                clock = c1;
            }
            assert forall|v: int| 0 <= v < i + 1 implies #[trigger] visited@[v] by {
                if v < i {
                    assert(v0[v]);
                }
            }
            i = i + 1;
        }
        proof {
            assert(is_ranking(m, finish)) by {
                assert forall|u: int, k: int|
                    0 <= u < m.len() && 0 <= k < m.children[u].len() implies finish[
                    #[trigger] m.children[u][k] as int] < finish[u] by {
                    assert(visited@[u] && !rec_stack@[u]);
                }
            }
            lemma_ranking_acyclic(m, finish);
        }
        None
    }

    /// Depth-first visit from `idx` with the current path in `stack`; on an
    /// edge back into the path, returns the node it reaches followed by the
    /// path from its end back to its start.
    #[verifier::spinoff_prover]
    fn has_cycle_util(
        &self,
        idx: usize,
        visited: &mut Vec<bool>,
        rec_stack: &mut Vec<bool>,
        stack: &mut Vec<usize>,
        Ghost(finish0): Ghost<Seq<nat>>,
        Ghost(clock0): Ghost<nat>,
        Ghost(fuel): Ghost<nat>,
    ) -> (res: (Option<Vec<usize>>, Ghost<Seq<nat>>, Ghost<nat>))
        requires
            self.wf(),
            idx < self@.len(),
            fuel >= count_false(old(visited)@) + 1,
            dfs_ok(self@, old(visited)@, old(rec_stack)@, sints(old(stack)@), finish0, clock0),
            old(stack)@.len() > 0 ==> is_edge(self@, old(stack)@.last() as int, idx as int),
        ensures
            res.0 is Some ==> has_closed_walk(self@),
            res.0 matches Some(c) ==> is_cycle_trail(self@, c@),
            opt_view(res.0) == trail_search(self@, idx, old(visited)@, old(rec_stack)@, old(stack)@, fuel).0,
            res.0 is None ==> final(visited)@ == trail_search(self@, idx, old(visited)@, old(rec_stack)@, old(stack)@, fuel).1,
            res.0 is None ==> final(stack)@ == old(stack)@,
            res.0 is None ==> final(rec_stack)@ == old(rec_stack)@,
            res.0 is None ==> dfs_ok(self@, final(visited)@, final(rec_stack)@, sints(old(stack)@), res.1@, res.2@),
            res.0 is None ==> dfs_grows(
                old(visited)@,
                old(rec_stack)@,
                finish0,
                clock0,
                final(visited)@,
                final(rec_stack)@,
                res.1@,
                res.2@,
            ),
            res.0 is None ==> final(visited)@[idx as int] && !final(rec_stack)@[idx as int],
        decreases count_false(old(visited)@),
    {
        let ghost m = self@;
        let ghost path = sints(stack@);
        if rec_stack[idx] {
            proof {
                let j = path.index_of(idx as int);
                let w = path.subrange(j, path.len() as int).push(idx as int);
                assert(is_closed_walk(m, w)) by {
                    assert forall|a: int| 0 <= a < w.len() - 1 implies is_edge(m, #[trigger] w[a], w[a + 1]) by {
                        if a < w.len() - 2 {
                            assert(w[a] == path[j + a] && w[a + 1] == path[j + a + 1]);
                        }
                    }
                }
            }
            let tr = self.trail_of(stack, idx);
            assert(tr@ =~= seq![idx] + stack@.reverse());
            return (Some(tr), Ghost(finish0), Ghost(clock0));
        }
        if visited[idx] {
            return (None, Ghost(finish0), Ghost(clock0));
        }
        let ghost v_entry = visited@;
        let ghost s_entry = rec_stack@;
        let ghost f_entry = finish0;
        let ghost c_entry = clock0;
        let ghost mut finish = finish0;
        let ghost mut clock = clock0;
        visited.set(idx, true);
        rec_stack.set(idx, true);
        let ghost stack0 = stack@;
        stack.push(idx);
        let ghost path2 = path.push(idx as int);
        proof {
            assert(trail_search(m, idx, v_entry, s_entry, stack0, fuel) == trail_children(
                m,
                idx,
                0,
                visited@,
                rec_stack@,
                stack@,
                (fuel - 1) as nat,
            ));
            assert(sints(stack@) =~= path2);
            lemma_count_false_set(v_entry, idx as int);
            assert(is_walk(m, path2)) by {
                assert forall|a: int| 0 <= a < path2.len() - 1 implies is_edge(m, #[trigger] path2[a], path2[a + 1]) by {
                    if a < path2.len() - 2 {
                        assert(path2[a] == path[a] && path2[a + 1] == path[a + 1]);
                    }
                }
            }
            assert forall|v: int| 0 <= v < m.len() implies (#[trigger] rec_stack@[v] <==> path2.contains(v)) by {
                if v != idx {
                    if path2.contains(v) {
                        let q = path2.index_of(v);
                        assert(path[q] == v);
                    }
                    if path.contains(v) {
                        let q = path.index_of(v);
                        assert(path2[q] == v);
                    }
                } else {
                    assert(path2[path.len() as int] == v);
                }
            }
        }
        let children = self.get_children_indices(idx);
        let mut k: usize = 0;
        while k < children.len()
            invariant
                self.wf(),
                m == self@,
                idx < m.len(),
                children@ == m.children[idx as int],
                k <= children@.len(),
                dfs_ok(m, visited@, rec_stack@, path2, finish, clock),
                dfs_grows(
                    v_entry.update(idx as int, true),
                    rec_stack@,
                    f_entry,
                    c_entry,
                    visited@,
                    rec_stack@,
                    finish,
                    clock,
                ),
                rec_stack@ == s_entry.update(idx as int, true),
                count_false(v_entry.update(idx as int, true)) < count_false(v_entry),
                forall|j: int| 0 <= j < k ==> visited@[#[trigger] children@[j] as int] && !rec_stack@[children@[j] as int],
                dfs_ok(m, v_entry, s_entry, path, f_entry, c_entry),
                visited@[idx as int],
                path2 == path.push(idx as int),
                v_entry == old(visited)@,
                path.len() > 0 ==> is_edge(m, path.last(), idx as int),
                stack0 == old(stack)@,
                s_entry == old(rec_stack)@,
                path == sints(stack0),
                stack@ == stack0.push(idx),
                sints(stack@) == path2,
                fuel >= count_false(v_entry) + 1,
                trail_search(m, idx, v_entry, s_entry, stack0, fuel) == trail_children(
                    m,
                    idx,
                    k as nat,
                    visited@,
                    rec_stack@,
                    stack@,
                    (fuel - 1) as nat,
                ),
            decreases children@.len() - k,
        {
            let c = children[k];
            proof {
                assert(m.children[idx as int][k as int] < m.len());
                assert(m.children[idx as int][k as int] == c);
                assert(path2.last() == idx);
                assert(stack@.last() == idx);
                assert(is_edge(m, path2.last(), c as int));
                lemma_count_false_mono(v_entry.update(idx as int, true), visited@);
            }
            let ghost v1 = visited@;
            let ghost vk = visited@;
            let ghost rk = rec_stack@;
            let ghost stk = stack@;
            let (found, Ghost(f2), Ghost(c2)) = self.has_cycle_util(
                c,
                visited,
                rec_stack,
                stack,
                Ghost(finish),
                Ghost(clock),
                Ghost((fuel - 1) as nat),
            );
            proof {
                let r = trail_search(m, c, vk, rk, stk, (fuel - 1) as nat);
                assert(trail_children(m, idx, k as nat, vk, rk, stk, (fuel - 1) as nat) == (if r.0 is Some {
                    r
                } else {
                    trail_children(m, idx, (k + 1) as nat, r.1, rk, stk, (fuel - 1) as nat)
                }));
            }
            match found {
                Some(tr) => {
                    proof {
                        let r = trail_search(m, c, vk, rk, stk, (fuel - 1) as nat);
                        assert(opt_view(Some(tr)) == r.0);
                        assert(r.0 is Some);
                        assert(trail_children(m, idx, k as nat, vk, rk, stk, (fuel - 1) as nat) == r);
                        assert(trail_search(m, idx, v_entry, s_entry, stack0, fuel).0 == r.0);
                    }
                    return (Some(tr), Ghost(f2), Ghost(c2));
                },
                None => {},
            }
            proof {
                finish = f2;
                clock = c2;
                assert forall|j: int| 0 <= j < k + 1 implies visited@[#[trigger] children@[j] as int]
                    && !rec_stack@[children@[j] as int] by {
                    if j < k {
                        assert(v1[children@[j] as int]);
                    }
                }
                assert forall|v: int|
                    0 <= v < v_entry.len() && #[trigger] v_entry.update(idx as int, true)[v] && !rec_stack@[v]
                    implies finish[v] == f_entry[v] by {
                    assert(v1[v]);
                }
            }
            k = k + 1;
        }
        let ghost v_done = visited@;
        let ghost f_done = finish;
        let ghost c_done = clock;
        rec_stack.set(idx, false);
        stack.pop();
        proof {
            assert(stack@ =~= stack0);
            finish = f_done.update(idx as int, c_done);
            clock = c_done + 1;
            assert(rec_stack@ =~= s_entry);
            assert forall|v: int| 0 <= v < m.len() implies (#[trigger] rec_stack@[v] <==> path.contains(v)) by {
                assert(s_entry[v] <==> path.contains(v));
            }
            assert forall|u: int, j: int|
                0 <= u < m.len() && visited@[u] && !rec_stack@[u] && 0 <= j < m.children[u].len() implies {
                    let c = #[trigger] m.children[u][j] as int;
                    visited@[c] && !rec_stack@[c] && finish[c] < finish[u]
                } by {
                let c = m.children[u][j] as int;
                if u == idx {
                    assert(children@[j] == c);
                    assert(v_done[c] && !s_entry.update(idx as int, true)[c]);
                    assert(c != idx);
                    assert(f_done[c] < c_done);
                } else {
                    assert(v_done[u] && !s_entry.update(idx as int, true)[u]);
                    assert(v_done[c] && !s_entry.update(idx as int, true)[c]);
                    assert(c != idx);
                }
            }
            assert forall|v: int| 0 <= v < v_entry.len() && #[trigger] v_entry[v] implies visited@[v] by {
                assert(v_entry.update(idx as int, true)[v]);
            }
            assert forall|v: int|
                0 <= v < v_entry.len() && #[trigger] v_entry[v] && !s_entry[v] implies finish[v] == f_entry[v] by {
                assert(v_entry.update(idx as int, true)[v]);
                assert(v != idx);
            }
        }
        (None, Ghost(finish), Ghost(clock))
    }

    /// The node `idx`, which the path in `stack` holds and its end has an edge
    /// to, followed by the path from its end back to its start.
    #[verifier::spinoff_prover]
    fn trail_of(&self, stack: &Vec<usize>, idx: usize) -> (c: Vec<usize>)
        requires
            self.wf(),
            is_walk(self@, sints(stack@)),
            sints(stack@).contains(idx as int),
            is_edge(self@, stack@.last() as int, idx as int),
        ensures
            is_cycle_trail(self@, c@),
            c@ == seq![idx] + stack@.reverse(),
    {
        let ghost m = self@;
        let ghost n = stack@.len() as int;
        let ghost target = Seq::new((n + 1) as nat, |k: int| if k == 0 { idx } else { stack@[n - k] });
        let mut c: Vec<usize> = Vec::new();
        c.push(idx);
        let mut q: usize = stack.len();
        while q > 0
            invariant
                q <= stack@.len(),
                n == stack@.len(),
                target == Seq::new((n + 1) as nat, |k: int| if k == 0 { idx } else { stack@[n - k] }),
                c@ == target.take(n - q + 1),
            decreases q,
        {
            q = q - 1;
            c.push(stack[q]);
            assert(c@ =~= target.take(n - q + 1));
        }
        proof {
            assert(target.take(n + 1int) =~= target);
            let p = sints(stack@);
            let j = p.index_of(idx as int);
            assert(target[n - j] == idx);
            assert forall|k: int| 0 <= k < target.len() implies #[trigger] target[k] < m.len() by {
                if k > 0 {
                    assert(p[n - k] == stack@[n - k] as int);
                }
            }
            assert forall|k: int| 0 <= k < target.len() - 1 implies is_edge(m, #[trigger] target[k + 1] as int, target[k] as int) by {
                if k == 0 {
                    assert(target[1] == stack@.last());
                } else {
                    assert(p[n - k - 1] == target[k + 1] as int && p[n - k] == target[k] as int);
                }
            }
            assert(target =~= seq![idx] + stack@.reverse());
        }
        c
    }
}

} // verus!
