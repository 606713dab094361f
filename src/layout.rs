//! Hierarchical layout: level assignment, crossing reduction, coordinate
//! assignment and canvas sizing.
use crate::cycles::{count_false, has_closed_walk, is_closed_walk, is_edge, is_walk, lemma_count_false_mono, lemma_count_false_set};
use crate::graph::{GraphModel, DAG};
use crate::order::{
    lemma_sort_by_key, lemma_sort_by_key_member, median_key, positions_of, self_keyed, sort_by_key,
    stable_sort_by_key, twice_median_of,
};
use vstd::prelude::*;

verus! {

/// An edge `u → children[u][k]` whose two endpoints are both in `scope`.
pub open spec fn scoped_edge(m: GraphModel, scope: Seq<bool>, u: int, k: int) -> bool {
    &&& 0 <= u < m.len()
    &&& 0 <= k < m.children[u].len()
    &&& scope[u]
    &&& scope[m.children[u][k] as int]
}

/// `lv` are the longest-path levels within `scope`: every scoped edge climbs
/// at least one level, and every node above level zero sits exactly one above
/// some scoped parent.
pub open spec fn is_level_assignment(m: GraphModel, scope: Seq<bool>, lv: Seq<usize>) -> bool {
    &&& lv.len() == m.len()
    &&& forall|u: int, k: int|
        #[trigger] scoped_edge(m, scope, u, k) ==> lv[m.children[u][k] as int] >= lv[u] + 1
    &&& forall|v: int|
        0 <= v < m.len() && #[trigger] lv[v] > 0 ==> exists|u: int, k: int|
            scoped_edge(m, scope, u, k) && m.children[u][k] == v && lv[v] == lv[u] + 1
}

/// The level assignment within `scope` (unique when it exists).
pub open spec fn levels_of(m: GraphModel, scope: Seq<bool>) -> Seq<usize> {
    choose|lv: Seq<usize>| is_level_assignment(m, scope, lv)
}

proof fn lemma_level_le(m: GraphModel, scope: Seq<bool>, a: Seq<usize>, b: Seq<usize>, v: int)
    requires
        is_level_assignment(m, scope, a),
        is_level_assignment(m, scope, b),
        0 <= v < m.len(),
    ensures
        a[v] <= b[v],
    decreases a[v],
{
    if a[v] > 0 {
        let (u, k) = choose|u: int, k: int| scoped_edge(m, scope, u, k) && m.children[u][k] == v && a[v] == a[u] + 1;
        lemma_level_le(m, scope, a, b, u);
        assert(b[m.children[u][k] as int] >= b[u] + 1);
    }
}

/// Two level assignments within the same scope are equal.
pub proof fn lemma_level_assignment_unique(m: GraphModel, scope: Seq<bool>, a: Seq<usize>, b: Seq<usize>)
    requires
        is_level_assignment(m, scope, a),
        is_level_assignment(m, scope, b),
    ensures
        a == b,
{
    assert forall|v: int| 0 <= v < a.len() implies a[v] == b[v] by {
        lemma_level_le(m, scope, a, b, v);
        lemma_level_le(m, scope, b, a, v);
    }
    assert(a =~= b);
}

/// Sum of `cap - s[i]` over the entries.
pub open spec fn gap_sum(s: Seq<usize>, cap: nat) -> int
    decreases s.len(),
{
    if s.len() == 0 {
        0
    } else {
        gap_sum(s.drop_last(), cap) + (cap - s.last())
    }
}

proof fn lemma_gap_sum_raise(s: Seq<usize>, cap: nat, i: int, x: usize)
    requires
        0 <= i < s.len(),
        s[i] < x,
    ensures
        gap_sum(s.update(i, x), cap) < gap_sum(s, cap),
    decreases s.len(),
{
    if i < s.len() - 1 {
        assert(s.update(i, x).drop_last() =~= s.drop_last().update(i, x));
        lemma_gap_sum_raise(s.drop_last(), cap, i, x);
    } else {
        assert(s.update(i, x).drop_last() =~= s.drop_last());
    }
}

proof fn lemma_gap_sum_nonneg(s: Seq<usize>, cap: nat)
    requires
        forall|i: int| 0 <= i < s.len() ==> #[trigger] s[i] <= cap,
    ensures
        gap_sum(s, cap) >= 0,
    decreases s.len(),
{
    if s.len() > 0 {
        lemma_gap_sum_nonneg(s.drop_last(), cap);
    }
}

/// A walk longer than the number of nodes repeats a node, so it holds a closed walk.
pub proof fn lemma_long_walk(m: GraphModel, w: Seq<int>)
    requires
        is_walk(m, w),
        w.len() > m.len(),
    ensures
        has_closed_walk(m),
{
    let r = vstd::set_lib::set_int_range(0, m.len() as int);
    vstd::set_lib::lemma_int_range(0, m.len() as int);
    if w.no_duplicates() {
        w.unique_seq_to_set();
        assert(w.to_set().subset_of(r)) by {
            assert forall|x: int| w.to_set().contains(x) implies r.contains(x) by {
                let i = w.index_of(x);
                assert(0 <= w[i] < m.len());
            }
        }
        vstd::set_lib::lemma_len_subset(w.to_set(), r);
    } else {
        let (i, j) = choose|i: int, j: int|
            0 <= i < w.len() && 0 <= j < w.len() && i != j && w[i] == w[j];
        let a = if i < j { i } else { j };
        let b = if i < j { j } else { i };
        let c = w.subrange(a, b + 1);
        assert forall|t: int| 0 <= t < c.len() - 1 implies is_edge(m, #[trigger] c[t], c[t + 1]) by {
            assert(c[t] == w[a + t] && c[t + 1] == w[a + t + 1]);
        }
        assert(is_closed_walk(m, c));
    }
}

/// A walk ending at `v` with one more node than `v`'s level: the witness
/// that a level is no more than a path's length.
pub open spec fn level_witness(m: GraphModel, w: Seq<int>, v: int, level: usize) -> bool {
    &&& is_walk(m, w)
    &&& w.len() == level + 1
    &&& w.last() == v
}

impl DAG {
    /// The connected pieces of the graph, each as a list of node indices in
    /// the order a search from its first node reaches them (edges followed
    /// both ways, in insertion order); pieces are ordered by their first node.
    pub fn find_subgraphs(&self) -> (r: Vec<Vec<usize>>)
        requires
            self.wf(),
        ensures
            is_partition(self@.len(), r@.map_values(|s: Vec<usize>| s@)),
            forall|a: int, b: int| 0 <= a < b < r@.len() ==> #[trigger] r@[a]@[0] < #[trigger] r@[b]@[0],
            pieces_connected(self@, r@.map_values(|s: Vec<usize>| s@)),
            r@.map_values(|s: Vec<usize>| s@) == search_pieces(self@),
    {
        let ghost m = self@;
        let n = self.node_count();
        let mut visited: Vec<bool> = Vec::new();
        let mut i: usize = 0;
        while i < n
            invariant
                i <= n,
                visited@ == Seq::new(i as nat, |j: int| false),
            decreases n - i,
        {
            visited.push(false);
            i = i + 1;
            assert(visited@ =~= Seq::new(i as nat, |j: int| false));
        }
        let mut subgraphs: Vec<Vec<usize>> = Vec::new();
        proof {
            assert(subgraphs@.map_values(|s: Vec<usize>| s@) =~= seq![]);
            assert(marks(visited@, flatten(seq![])));
        }
        let mut i: usize = 0;
        while i < n
            invariant
                self.wf(),
                n == self@.len(),
                i <= n,
                visited@.len() == n,
                marks(visited@, flatten(subgraphs@.map_values(|s: Vec<usize>| s@))),
                forall|v: int| 0 <= v < i ==> #[trigger] visited@[v],
                forall|a: int| 0 <= a < subgraphs@.len() ==> #[trigger] subgraphs@[a]@.len() > 0,
                forall|a: int| 0 <= a < subgraphs@.len() ==> #[trigger] subgraphs@[a]@[0] < i,
                forall|a: int, b: int| 0 <= a < b < subgraphs@.len() ==> #[trigger] subgraphs@[a]@[0] < #[trigger] subgraphs@[b]@[0],
                m == self@,
                pieces_connected(m, subgraphs@.map_values(|s: Vec<usize>| s@)),
                forall|x: int, y: int| 0 <= x < n && visited@[x] && 0 <= y < n && #[trigger] touches(m, x, y) ==> visited@[y],
                subgraphs@.map_values(|s: Vec<usize>| s@) + pieces_from(m, i as nat, visited@) == search_pieces(m),
            decreases n - i,
        {
            let ghost vi = visited@;
            let ghost si = subgraphs@.map_values(|s: Vec<usize>| s@);
            proof {
                lemma_count_false_le(visited@);
            }
            if !visited[i] {
                let mut sub: Vec<usize> = Vec::new();
                let ghost v0 = visited@;
                proof {
                    lemma_link_self(self@, i as int);
                }
                proof {
                    assert(sub@ =~= Seq::<usize>::empty());
                }
                self.collect_connected(i, &mut visited, &mut sub, Ghost(i as int), Ghost((n + 1) as nat));
                proof {
                    let subs0 = subgraphs@.map_values(|s: Vec<usize>| s@);
                    lemma_flatten_push(subs0, sub@);
                    assert(sub@.skip(0) =~= sub@);
                    lemma_marks_concat(v0, visited@, flatten(subs0), sub@);
                    assert(subgraphs@.push(sub).map_values(|s: Vec<usize>| s@) =~= subs0.push(sub@));
                    let sv = sub@;
                    assert(sv[0] == i);
                    assert forall|k: int| 0 <= k < sv.len() implies #[trigger] sv[k] < m.len() && !v0[sv[k] as int] by {
                        assert(sv.skip(0)[k] == sv[k]);
                    }
                    assert forall|x: usize| x < m.len() implies (#[trigger] visited@[x as int] <==> (v0[x as int] || sv.contains(x))) by {
                        assert(visited@[x as int] <==> (v0[x as int] || sv.skip(0).contains(x)));
                    }
                    assert forall|x: int, y: int| 0 <= x < n && visited@[x] && 0 <= y < n && #[trigger] touches(m, x, y) implies visited@[y] by {
                        let xu = x as usize;
                        assert(visited@[xu as int] <==> (v0[xu as int] || sv.contains(xu)));
                        if v0[x] {
                            assert(v0[y]);
                            assert(visited@[(y as usize) as int] <==> (v0[(y as usize) as int] || sv.contains(y as usize)));
                        } else {
                            let k = sv.index_of(xu);
                            assert(sv[k] as int == x);
                            assert(touches(m, sv[k] as int, y));
                        }
                    }
                    assert forall|k: int| 0 <= k < sv.len() implies linked(m, sv[0] as int, #[trigger] sv[k] as int) && sv[0] <= sv[k] by {
                        assert(!v0[sv[k] as int]);
                        assert(sv[k] < m.len());
                    }
                    assert forall|v: int| 0 <= v < m.len() && #[trigger] linked(m, sv[0] as int, v) implies sv.contains(v as usize) by {
                        let w = choose|w: Seq<int>| #[trigger] is_link_walk(m, w) && w[0] == sv[0] as int && w.last() == v;
                        assert(sv.contains(sv[0]));
                        lemma_walk_in_piece(m, w, v0, visited@, sv);
                    }
                    let subs1 = subs0.push(sv);
                    assert forall|a: int, k: int|
                        0 <= a < subs1.len() && 0 <= k < subs1[a].len() implies linked(m, subs1[a][0] as int, #[trigger] subs1[a][k] as int)
                            && subs1[a][0] <= subs1[a][k] by {
                        if a < subs0.len() {
                            assert(subs1[a] == subs0[a]);
                        }
                    }
                    assert forall|a: int, v: int|
                        0 <= a < subs1.len() && 0 <= v < m.len() && #[trigger] linked(m, subs1[a][0] as int, v) implies subs1[a].contains(v as usize) by {
                        if a < subs0.len() {
                            assert(subs1[a] == subs0[a]);
                        }
                    }
                }
                let ghost svg = sub@;
                subgraphs.push(sub);
                proof {
                    let s1 = subgraphs@.map_values(|s: Vec<usize>| s@);
                    assert(s1 =~= si.push(svg));
                    assert(pieces_from(m, i as nat, vi) == seq![svg] + pieces_from(m, (i + 1) as nat, visited@));
                    assert(si.push(svg) + pieces_from(m, (i + 1) as nat, visited@) =~= si + (seq![svg] + pieces_from(
                        m,
                        (i + 1) as nat,
                        visited@,
                    )));
                }
            }
            i = i + 1;
        }
        proof {
            let subs = subgraphs@.map_values(|s: Vec<usize>| s@);
            assert(subs + pieces_from(m, n as nat, visited@) =~= subs);
            assert(visited@ =~= Seq::new(n as nat, |v: int| true));
            assert forall|a: int| 0 <= a < subs.len() implies #[trigger] subs[a].len() > 0 by {
                assert(subgraphs@[a]@.len() > 0);
            }
        }
        subgraphs
    }

    /// Adds to `subgraph` every node reachable from `start_idx` (edges followed
    /// both ways) that is not yet visited, marking it visited.
    #[verifier::spinoff_prover]
    fn collect_connected(
        &self,
        start_idx: usize,
        visited: &mut Vec<bool>,
        subgraph: &mut Vec<usize>,
        Ghost(root): Ghost<int>,
        Ghost(fuel): Ghost<nat>,
    )
        requires
            self.wf(),
            start_idx < self@.len(),
            old(visited)@.len() == self@.len(),
            linked(self@, root, start_idx as int),
            fuel >= count_false(old(visited)@) + 1,
        ensures
            (final(visited)@, final(subgraph)@) == collect(self@, start_idx, old(visited)@, old(subgraph)@, fuel),
            collect_ok(old(visited)@, old(subgraph)@, final(visited)@, final(subgraph)@),
            piece_facts(self@, root, final(subgraph)@, old(subgraph)@.len() as int, final(visited)@),
            forall|v: int| 0 <= v < self@.len() && #[trigger] old(visited)@[v] ==> final(visited)@[v],
            final(visited)@[start_idx as int],
            !old(visited)@[start_idx as int] ==> final(subgraph)@.len() > old(subgraph)@.len()
                && final(subgraph)@[old(subgraph)@.len() as int] == start_idx,
        decreases count_false(old(visited)@),
    {
        if visited[start_idx] {
            proof {
                assert(subgraph@.skip(subgraph@.len() as int) =~= seq![]);
                assert(subgraph@.take(subgraph@.len() as int) =~= subgraph@);
            }
            return;
        }
        let ghost v_entry = visited@;
        let ghost s_entry = subgraph@;
        visited.set(start_idx, true);
        subgraph.push(start_idx);
        proof {
            lemma_count_false_set(v_entry, start_idx as int);
            assert(subgraph@.skip(s_entry.len() as int) =~= seq![start_idx]);
            assert(subgraph@.take(s_entry.len() as int) =~= s_entry);
            assert forall|v: usize| v < v_entry.len() implies (#[trigger] visited@[v as int] <==> (v_entry[v as int]
                || subgraph@.skip(s_entry.len() as int).contains(v))) by {
                if v == start_idx {
                    assert(subgraph@.skip(s_entry.len() as int)[0] == v);
                }
            }
        }
        let ghost m = self@;
        let node_id = self.node_id(start_idx);
        let ne = self.edge_count();
        let mut e: usize = 0;
        while e < ne
            invariant
                self.wf(),
                m == self@,
                node_id == m.ids[start_idx as int],
                linked(m, root, start_idx as int),
                piece_facts(m, root, subgraph@, s_entry.len() + 1int, visited@),
                forall|q: int| 0 <= q < e ==> #[trigger] edge_done(m, q, start_idx as int, visited@),
                forall|v: int| 0 <= v < m.len() && #[trigger] v_entry[v] ==> visited@[v],
                ne == self@.edges.len(),
                e <= ne,
                start_idx < self@.len(),
                v_entry == old(visited)@,
                s_entry == old(subgraph)@,
                v_entry.len() == self@.len(),
                !v_entry[start_idx as int],
                count_false(v_entry.update(start_idx as int, true)) < count_false(v_entry),
                visited@[start_idx as int],
                collect_ok(v_entry, s_entry, visited@, subgraph@),
                subgraph@.len() > s_entry.len(),
                subgraph@[s_entry.len() as int] == start_idx,
                fuel >= count_false(v_entry) + 1,
                collect(m, start_idx, v_entry, s_entry, fuel) == collect_edges(m, start_idx, e as nat, visited@, subgraph@, (fuel - 1) as nat),
            decreases ne - e,
        {
            let (from, to) = self.edge_at(e);
            let ghost vb = visited@;
            let ghost sb = subgraph@;
            let ghost ea = m.index[m.edges[e as int].0];
            let ghost eb = m.index[m.edges[e as int].1];
            proof {
                lemma_edge_ends(m, e as int, start_idx as int);
            }
            if from == node_id {
                match self.node_index(to) {
                    Some(c) => {
                        proof {
                            lemma_link_extend(m, root, start_idx as int, c as int, e as int);
                        }
                        self.visit_more(
                            c,
                            visited,
                            subgraph,
                            Ghost(v_entry),
                            Ghost(s_entry),
                            Ghost(start_idx),
                            Ghost(root),
                            Ghost((fuel - 1) as nat),
                        );
                    },
                    None => {},
                }
            }
            if to == node_id {
                match self.node_index(from) {
                    Some(c) => {
                        proof {
                            lemma_link_extend(m, root, start_idx as int, c as int, e as int);
                        }
                        self.visit_more(
                            c,
                            visited,
                            subgraph,
                            Ghost(v_entry),
                            Ghost(s_entry),
                            Ghost(start_idx),
                            Ghost(root),
                            Ghost((fuel - 1) as nat),
                        );
                    },
                    None => {},
                }
            }
            proof {
                let r1 = if ea == start_idx {
                    collect(m, eb, vb, sb, (fuel - 1) as nat)
                } else {
                    (vb, sb)
                };
                let r2 = if eb == start_idx {
                    collect(m, ea, r1.0, r1.1, (fuel - 1) as nat)
                } else {
                    r1
                };
                assert((visited@, subgraph@) == r2);
                assert(collect_edges(m, start_idx, e as nat, vb, sb, (fuel - 1) as nat) == collect_edges(
                    m,
                    start_idx,
                    (e + 1) as nat,
                    r2.0,
                    r2.1,
                    (fuel - 1) as nat,
                ));
                assert forall|q: int| 0 <= q < e + 1 implies #[trigger] edge_done(m, q, start_idx as int, visited@) by {
                    if q < e {
                        assert(edge_done(m, q, start_idx as int, vb));
                        let a = m.index[m.edges[q].0] as int;
                        let b = m.index[m.edges[q].1] as int;
                        if a == start_idx {
                            assert(vb[b]);
                        }
                        if b == start_idx {
                            assert(vb[a]);
                        }
                    }
                }
            }
            e = e + 1;
        }
        proof {
            let b = s_entry.len() as int;
            assert forall|k: int, v: int|
                b <= k < subgraph@.len() && 0 <= v < m.len() && #[trigger] touches(m, subgraph@[k] as int, v) implies visited@[v] by {
                if k == b {
                    let q = choose|q: int| 0 <= q < m.edges.len() && #[trigger] edge_joins(m, q, subgraph@[k] as int, v);
                    assert(edge_done(m, q, start_idx as int, visited@));
                }
            }
            assert forall|k: int| b <= k < subgraph@.len() implies linked(m, root, #[trigger] subgraph@[k] as int) by {
                if k == b {
                    assert(subgraph@[k] == start_idx);
                }
            }
            assert forall|v: int| 0 <= v < m.len() && #[trigger] old(visited)@[v] implies visited@[v] by {
                assert(v_entry[v]);
            }
        }
    }

    /// One step of `collect_connected`: visits `c` and keeps the facts that
    /// the visit of the enclosing node relies on.
    #[verifier::spinoff_prover]
    fn visit_more(
        &self,
        c: usize,
        visited: &mut Vec<bool>,
        subgraph: &mut Vec<usize>,
        Ghost(v_entry): Ghost<Seq<bool>>,
        Ghost(s_entry): Ghost<Seq<usize>>,
        Ghost(start_idx): Ghost<usize>,
        Ghost(root): Ghost<int>,
        Ghost(fuel): Ghost<nat>,
    )
        requires
            self.wf(),
            c < self@.len(),
            fuel >= count_false(v_entry),
            linked(self@, root, c as int),
            piece_facts(self@, root, old(subgraph)@, s_entry.len() + 1int, old(visited)@),
            start_idx < self@.len(),
            v_entry.len() == self@.len(),
            !v_entry[start_idx as int],
            old(visited)@[start_idx as int],
            count_false(v_entry.update(start_idx as int, true)) < count_false(v_entry),
            collect_ok(v_entry, s_entry, old(visited)@, old(subgraph)@),
            old(subgraph)@.len() > s_entry.len(),
            old(subgraph)@[s_entry.len() as int] == start_idx,
        ensures
            (final(visited)@, final(subgraph)@) == collect(self@, c, old(visited)@, old(subgraph)@, fuel),
            final(visited)@[start_idx as int],
            final(visited)@[c as int],
            forall|v: int| 0 <= v < self@.len() && #[trigger] old(visited)@[v] ==> final(visited)@[v],
            piece_facts(self@, root, final(subgraph)@, s_entry.len() + 1int, final(visited)@),
            collect_ok(v_entry, s_entry, final(visited)@, final(subgraph)@),
            final(subgraph)@.len() > s_entry.len(),
            final(subgraph)@[s_entry.len() as int] == start_idx,
        decreases count_false(v_entry), 0nat,
    {
        proof {
            assert forall|i: int| 0 <= i < v_entry.len() && #[trigger] v_entry.update(start_idx as int, true)[i] implies visited@[i] by {
                let v = i as usize;
                assert(v as int == i);
                if i != start_idx {
                    assert(v_entry[i]);
                }
                assert(visited@[v as int] <==> (v_entry[v as int] || old(subgraph)@.skip(s_entry.len() as int).contains(v)));
            }
            lemma_count_false_mono(v_entry.update(start_idx as int, true), visited@);
        }
        let ghost v1 = visited@;
        let ghost s1 = subgraph@;
        self.collect_connected(c, visited, subgraph, Ghost(root), Ghost(fuel));
        proof {
            let m = self@;
            let b = s_entry.len() + 1int;
            assert(subgraph@.take(s1.len() as int) == s1);
            assert forall|k: int| b <= k < s1.len() implies #[trigger] subgraph@[k] == s1[k] by {
                assert(subgraph@.take(s1.len() as int)[k] == subgraph@[k]);
            }
            assert forall|k: int| b <= k < subgraph@.len() implies linked(m, root, #[trigger] subgraph@[k] as int) by {
                if k < s1.len() {
                    assert(subgraph@[k] == s1[k]);
                }
            }
            assert forall|k: int, v: int|
                b <= k < subgraph@.len() && 0 <= v < m.len() && #[trigger] touches(m, subgraph@[k] as int, v) implies visited@[v] by {
                if k < s1.len() {
                    assert(subgraph@[k] == s1[k]);
                    assert(touches(m, s1[k] as int, v));
                    assert(v1[v]);
                }
            }
            lemma_collect_ok_trans(v_entry, s_entry, v1, s1, visited@, subgraph@);
            assert(subgraph@.take(s1.len() as int) == s1);
            assert(subgraph@.take(s1.len() as int)[s_entry.len() as int] == subgraph@[s_entry.len() as int]);
        }
    }

    /// `level_nodes` reordered by the median position of each node's
    /// neighbours (parents when `by_parents`, else children) in `other`.
    fn order_by_median(&self, level_nodes: &Vec<usize>, other: &Vec<usize>, by_parents: bool) -> (r: Vec<usize>)
        requires
            self.wf(),
            forall|k: int| 0 <= k < level_nodes@.len() ==> #[trigger] level_nodes@[k] < self@.len(),
            2 * level_nodes@.len() <= usize::MAX,
            2 * other@.len() <= usize::MAX,
        ensures
            r@ == median_order(self@, level_nodes@, other@, by_parents),
    {
        let ghost m = self@;
        let mut keyed: Vec<(usize, usize)> = Vec::new();
        let mut pos: usize = 0;
        while pos < level_nodes.len()
            invariant
                self.wf(),
                m == self@,
                pos <= level_nodes@.len(),
                forall|k: int| 0 <= k < level_nodes@.len() ==> #[trigger] level_nodes@[k] < m.len(),
                2 * level_nodes@.len() <= usize::MAX,
                2 * other@.len() <= usize::MAX,
                keyed@ == Seq::new(
                    pos as nat,
                    |i: int| (median_key(neighbours(m, level_nodes@[i], by_parents), other@, i) as usize, level_nodes@[i]),
                ),
            decreases level_nodes@.len() - pos,
        {
            let idx = level_nodes[pos];
            let ns = if by_parents {
                self.get_parents_indices(idx)
            } else {
                self.get_children_indices(idx)
            };
            let ps = positions_of(ns, other);
            let sorted = stable_sort_by_key(&ps);
            proof {
                lemma_sort_by_key(ps@);
                assert forall|k: int| 0 <= k < sorted@.len() implies 2 * #[trigger] sorted@[k].0 <= usize::MAX by {
                    lemma_sort_by_key_member(ps@, k);
                    let i = ps@.index_of(sorted@[k]);
                    assert(ps@[i].0 < other@.len());
                }
            }
            let key = if sorted.len() == 0 {
                2 * pos
            } else {
                twice_median_of(&sorted)
            };
            keyed.push((key, idx));
            pos = pos + 1;
            proof {
                let target = Seq::new(
                    pos as nat,
                    |i: int| (median_key(neighbours(m, level_nodes@[i], by_parents), other@, i) as usize, level_nodes@[i]),
                );
                assert(keyed@ =~= target);
            }
        }
        let sorted = stable_sort_by_key(&keyed);
        let mut r: Vec<usize> = Vec::new();
        let mut k: usize = 0;
        while k < sorted.len()
            invariant
                k <= sorted@.len(),
                r@ == sorted@.take(k as int).map_values(|p: (usize, usize)| p.1),
            decreases sorted@.len() - k,
        {
            r.push(sorted[k].1);
            k = k + 1;
            assert(r@ =~= sorted@.take(k as int).map_values(|p: (usize, usize)| p.1));
        }
        assert(sorted@.take(sorted@.len() as int) =~= sorted@);
        r
    }

    /// `level_nodes` reordered by the median position of each node's parents in `parent_level`.
    pub fn order_by_median_parents(&self, level_nodes: &Vec<usize>, parent_level: &Vec<usize>) -> (r: Vec<usize>)
        requires
            self.wf(),
            forall|k: int| 0 <= k < level_nodes@.len() ==> #[trigger] level_nodes@[k] < self@.len(),
            2 * level_nodes@.len() <= usize::MAX,
            2 * parent_level@.len() <= usize::MAX,
        ensures
            r@ == median_order(self@, level_nodes@, parent_level@, true),
    {
        self.order_by_median(level_nodes, parent_level, true)
    }

    /// `level_nodes` reordered by the median position of each node's children in `child_level`.
    pub fn order_by_median_children(&self, level_nodes: &Vec<usize>, child_level: &Vec<usize>) -> (r: Vec<usize>)
        requires
            self.wf(),
            forall|k: int| 0 <= k < level_nodes@.len() ==> #[trigger] level_nodes@[k] < self@.len(),
            2 * level_nodes@.len() <= usize::MAX,
            2 * child_level@.len() <= usize::MAX,
        ensures
            r@ == median_order(self@, level_nodes@, child_level@, false),
    {
        self.order_by_median(level_nodes, child_level, false)
    }

    /// Crossing reduction: four rounds, each a top-down sweep (levels
    /// `1..=max_level` ordered by their parents) and a bottom-up sweep (levels
    /// `max_level-1` down to `0` ordered by their children).
    pub fn reduce_crossings(&self, levels: &mut Vec<Vec<usize>>, max_level: usize)
        requires
            self.wf(),
            old(levels)@.len() == max_level + 1,
            levels_ok(self@, old(levels)@.map_values(|v: Vec<usize>| v@)),
            levels_fit(self@, old(levels)@.map_values(|v: Vec<usize>| v@)),
        ensures
            levels_fit(self@, final(levels)@.map_values(|v: Vec<usize>| v@)),
            final(levels)@.map_values(|v: Vec<usize>| v@) == crossing_rounds(
                self@,
                old(levels)@.map_values(|v: Vec<usize>| v@),
                max_level as int,
                4,
            ),
            final(levels)@.len() == old(levels)@.len(),
            levels_ok(self@, final(levels)@.map_values(|v: Vec<usize>| v@)),
    {
        let ghost m = self@;
        let ghost lv0 = levels@.map_values(|v: Vec<usize>| v@);
        let mut round: usize = 0;
        while round < 4
            invariant
                self.wf(),
                m == self@,
                round <= 4,
                levels@.len() == max_level + 1,
                levels_ok(m, levels@.map_values(|v: Vec<usize>| v@)),
                levels_fit(m, levels@.map_values(|v: Vec<usize>| v@)),
                levels@.map_values(|v: Vec<usize>| v@) == crossing_rounds(m, lv0, max_level as int, round as nat),
            decreases 4 - round,
        {
            let ghost start = levels@.map_values(|v: Vec<usize>| v@);
            let mut l: usize = 1;
            while l < levels.len()
                invariant
                    self.wf(),
                    m == self@,
                    1 <= l <= max_level + 1,
                    levels@.len() == max_level + 1,
                    levels_ok(m, levels@.map_values(|v: Vec<usize>| v@)),
                    levels_fit(m, levels@.map_values(|v: Vec<usize>| v@)),
                    levels@.map_values(|v: Vec<usize>| v@) == top_down(m, start, l - 1),
                decreases max_level + 1 - l,
            {
                let ghost cur = levels@.map_values(|v: Vec<usize>| v@);
                proof {
                    assert forall|k: int| 0 <= k < levels@[l as int]@.len() implies #[trigger] levels@[l as int]@[k] < m.len() by {
                        assert(cur[l as int][k] == levels@[l as int]@[k]);
                    }
                    assert(2 * cur[l as int].len() <= usize::MAX);
                    assert(cur[l - 1] == levels@[l - 1]@);
                    assert(2 * cur[l - 1].len() <= usize::MAX);
                }
                let new_level = self.order_by_median_parents(&levels[l], &levels[l - 1]);
                proof {
                    assert(cur[l as int] == levels@[l as int]@);
                    assert(cur[l - 1] == levels@[l - 1]@);
                    assert(2 * cur[l - 1].len() <= usize::MAX);
                    lemma_median_order_ok(m, cur[l as int], cur[l - 1], true);
                }
                levels.set(l, new_level);
                proof {
                    let nxt = levels@.map_values(|v: Vec<usize>| v@);
                    assert(nxt =~= cur.update(l as int, median_order(m, cur[l as int], cur[l - 1], true)));
                    assert(levels_ok(m, nxt)) by {
                        assert forall|a: int, k: int| 0 <= a < nxt.len() && 0 <= k < nxt[a].len() implies #[trigger] nxt[a][k] < m.len() by {
                            if a != l {
                                assert(nxt[a] == cur[a]);
                            }
                        }
                        assert forall|a: int| 0 <= a < nxt.len() implies 2 * #[trigger] nxt[a].len() <= usize::MAX by {
                            assert(cur[a].len() == nxt[a].len());
                        }
                    }
                    assert(levels_fit(m, nxt)) by {
                        assert forall|a: int, k: int| 0 <= a < nxt.len() && 0 <= k < nxt[a].len() implies (m.width(#[trigger] nxt[a][k] as int) + 3) * nxt[a].len() <= usize::MAX by {
                            if a != l {
                                assert(nxt[a] == cur[a]);
                            } else {
                                let q = cur[a].index_of(nxt[a][k]);
                                assert(cur[a][q] == nxt[a][k]);
                            }
                        }
                    }
                }
                l = l + 1;
            }
            let ghost mid = levels@.map_values(|v: Vec<usize>| v@);
            let mut j: usize = max_level;
            while j > 0
                invariant
                    self.wf(),
                    m == self@,
                    0 <= j <= max_level,
                    levels@.len() == max_level + 1,
                    levels_ok(m, levels@.map_values(|v: Vec<usize>| v@)),
                    levels_fit(m, levels@.map_values(|v: Vec<usize>| v@)),
                    levels@.map_values(|v: Vec<usize>| v@) == bottom_up(m, mid, j as int, max_level as int),
                decreases j,
            {
                let l = j - 1;
                let ghost cur = levels@.map_values(|v: Vec<usize>| v@);
                proof {
                    assert forall|k: int| 0 <= k < levels@[l as int]@.len() implies #[trigger] levels@[l as int]@[k] < m.len() by {
                        assert(cur[l as int][k] == levels@[l as int]@[k]);
                    }
                    assert(2 * cur[l as int].len() <= usize::MAX);
                    assert(cur[l + 1] == levels@[l + 1]@);
                    assert(2 * cur[l + 1].len() <= usize::MAX);
                }
                let new_level = self.order_by_median_children(&levels[l], &levels[l + 1]);
                proof {
                    assert(cur[l as int] == levels@[l as int]@);
                    assert(cur[l + 1] == levels@[l + 1]@);
                    lemma_median_order_ok(m, cur[l as int], cur[l + 1], false);
                }
                levels.set(l, new_level);
                proof {
                    let nxt = levels@.map_values(|v: Vec<usize>| v@);
                    assert(nxt =~= cur.update(l as int, median_order(m, cur[l as int], cur[l + 1], false)));
                    assert(levels_ok(m, nxt)) by {
                        assert forall|a: int, k: int| 0 <= a < nxt.len() && 0 <= k < nxt[a].len() implies #[trigger] nxt[a][k] < m.len() by {
                            if a != l {
                                assert(nxt[a] == cur[a]);
                            }
                        }
                        assert forall|a: int| 0 <= a < nxt.len() implies 2 * #[trigger] nxt[a].len() <= usize::MAX by {
                            assert(cur[a].len() == nxt[a].len());
                        }
                    }
                    assert(levels_fit(m, nxt)) by {
                        assert forall|a: int, k: int| 0 <= a < nxt.len() && 0 <= k < nxt[a].len() implies (m.width(#[trigger] nxt[a][k] as int) + 3) * nxt[a].len() <= usize::MAX by {
                            if a != l {
                                assert(nxt[a] == cur[a]);
                            } else {
                                let q = cur[a].index_of(nxt[a][k]);
                                assert(cur[a][q] == nxt[a][k]);
                            }
                        }
                    }
                }
                j = l;
            }
            round = round + 1;
        }
    }

    /// Packs the nodes of `level` from column zero in level order.
    fn pack_level(&self, x: &mut Vec<usize>, level: &Vec<usize>)
        requires
            self.wf(),
            old(x)@.len() == self@.len(),
            forall|k: int| 0 <= k < level@.len() ==> #[trigger] level@[k] < self@.len(),
            forall|j: int| 0 <= j < level@.len() ==> (self@.width(#[trigger] level@[j] as int) + 3) * level@.len() <= usize::MAX,
        ensures
            final(x)@ == pack(self@, old(x)@, level@),
            final(x)@.len() == old(x)@.len(),
    {
        let ghost m = self@;
        let mut off: usize = 0;
        let mut k: usize = 0;
        while k < level.len()
            invariant
                self.wf(),
                m == self@,
                k <= level@.len(),
                x@.len() == m.len(),
                forall|j: int| 0 <= j < level@.len() ==> #[trigger] level@[j] < m.len(),
                forall|j: int| 0 <= j < level@.len() ==> (m.width(#[trigger] level@[j] as int) + 3) * level@.len() <= usize::MAX,
                off == gap_offset(m, level@, k as int),
                x@ == pack(m, old(x)@, level@.take(k as int)),
            decreases level@.len() - k,
        {
            let idx = level[k];
            x.set(idx, off);
            proof {
                let t = level@.take(k as int + 1);
                assert(t.drop_last() =~= level@.take(k as int));
                assert forall|j: int| 0 <= j <= k implies gap_offset(m, t, j) == gap_offset(m, level@, j) by {
                    lemma_gap_offset_prefix(m, t, level@, j);
                }
                lemma_level_offsets_fit(m, level@, k as int + 1);
            }
            let w = self.get_node_width(idx);
            off = off + w + 3;
            k = k + 1;
        }
        assert(level@.take(level@.len() as int) =~= level@);
        proof {
            lemma_pack_len(m, old(x)@, level@);
        }
    }

    /// Reorders `level_nodes` by column (stably) and packs them from column
    /// zero in that order.
    pub fn compact_level(&self, x_coords: &mut Vec<usize>, level_nodes: &mut Vec<usize>)
        requires
            self.wf(),
            old(x_coords)@.len() == self@.len(),
            forall|k: int| 0 <= k < old(level_nodes)@.len() ==> #[trigger] old(level_nodes)@[k] < self@.len(),
            forall|j: int| 0 <= j < old(level_nodes)@.len() ==> (self@.width(#[trigger] old(level_nodes)@[j] as int) + 3) * old(level_nodes)@.len() <= usize::MAX,
        ensures
            final(level_nodes)@ == by_column(old(x_coords)@, old(level_nodes)@),
            final(x_coords)@ == pack(self@, old(x_coords)@, final(level_nodes)@),
            final(x_coords)@.len() == old(x_coords)@.len(),
    {
        let ghost m = self@;
        let mut keyed: Vec<(usize, usize)> = Vec::new();
        let mut k: usize = 0;
        while k < level_nodes.len()
            invariant
                k <= level_nodes@.len(),
                x_coords@.len() == m.len(),
                forall|j: int| 0 <= j < level_nodes@.len() ==> #[trigger] level_nodes@[j] < m.len(),
                keyed@ == level_nodes@.take(k as int).map_values(|i: usize| (x_coords@[i as int], i)),
            decreases level_nodes@.len() - k,
        {
            let idx = level_nodes[k];
            keyed.push((x_coords[idx], idx));
            k = k + 1;
            assert(keyed@ =~= level_nodes@.take(k as int).map_values(|i: usize| (x_coords@[i as int], i)));
        }
        assert(level_nodes@.take(level_nodes@.len() as int) =~= level_nodes@);
        let sorted = stable_sort_by_key(&keyed);
        let ghost lv_old = level_nodes@;
        let mut ord: Vec<usize> = Vec::new();
        let mut k: usize = 0;
        while k < sorted.len()
            invariant
                k <= sorted@.len(),
                ord@ == sorted@.take(k as int).map_values(|p: (usize, usize)| p.1),
            decreases sorted@.len() - k,
        {
            ord.push(sorted[k].1);
            k = k + 1;
            assert(ord@ =~= sorted@.take(k as int).map_values(|p: (usize, usize)| p.1));
        }
        assert(sorted@.take(sorted@.len() as int) =~= sorted@);
        proof {
            lemma_sort_by_key(keyed@);
            assert forall|j: int| 0 <= j < ord@.len() implies #[trigger] ord@[j] < m.len()
                && (m.width(ord@[j] as int) + 3) * ord@.len() <= usize::MAX by {
                lemma_sort_by_key_member(keyed@, j);
                let i = keyed@.index_of(sorted@[j]);
                assert(keyed@[i].1 == lv_old[i]);
            }
        }
        self.pack_level(x_coords, &ord);
        *level_nodes = ord;
    }

    /// Columns of all nodes, with the final order of each level: every level
    /// packed left to right (width plus a gap of three), then two top-down
    /// sweeps that pull each node with parents halfway towards the column
    /// that centres it under their median centre and re-pack its level in
    /// column order.
    pub fn assign_x_coordinates(&self, levels: &mut Vec<Vec<usize>>, max_level: usize) -> (x: Vec<usize>)
        requires
            self.wf(),
            old(levels)@.len() == max_level + 1,
            levels_ok(self@, old(levels)@.map_values(|v: Vec<usize>| v@)),
            levels_fit(self@, old(levels)@.map_values(|v: Vec<usize>| v@)),
        ensures
            (x@, final(levels)@.map_values(|v: Vec<usize>| v@)) == x_layout(
                self@,
                old(levels)@.map_values(|v: Vec<usize>| v@),
                max_level as int,
            ),
            final(levels)@.len() == old(levels)@.len(),
            levels_ok(self@, final(levels)@.map_values(|v: Vec<usize>| v@)),
            levels_fit(self@, final(levels)@.map_values(|v: Vec<usize>| v@)),
            x@.len() == self@.len(),
    {
        let ghost m = self@;
        let ghost lv0 = levels@.map_values(|v: Vec<usize>| v@);
        let n = self.node_count();
        let mut x: Vec<usize> = Vec::new();
        let mut i: usize = 0;
        while i < n
            invariant
                i <= n,
                x@ == Seq::new(i as nat, |j: int| 0usize),
            decreases n - i,
        {
            x.push(0);
            i = i + 1;
            assert(x@ =~= Seq::new(i as nat, |j: int| 0usize));
        }
        let ghost x00 = x@;
        let mut l: usize = 0;
        while l < levels.len()
            invariant
                self.wf(),
                m == self@,
                n == m.len(),
                l <= levels@.len(),
                levels@.map_values(|v: Vec<usize>| v@) == lv0,
                levels_ok(m, lv0),
                levels_fit(m, lv0),
                x@ == pack_levels(m, x00, lv0, l as int),
                x@.len() == n,
            decreases levels@.len() - l,
        {
            proof {
                assert(lv0[l as int] == levels@[l as int]@);
                assert forall|k: int| 0 <= k < levels@[l as int]@.len() implies #[trigger] levels@[l as int]@[k] < m.len() by {
                    assert(lv0[l as int][k] == levels@[l as int]@[k]);
                }
                assert forall|j: int| 0 <= j < levels@[l as int]@.len() implies (m.width(#[trigger] levels@[l as int]@[j] as int) + 3) * levels@[l as int]@.len() <= usize::MAX by {
                    assert(lv0[l as int][j] == levels@[l as int]@[j]);
                }
            }
            self.pack_level(&mut x, &levels[l]);
            proof {
                assert forall|k: int| 0 <= k < lv0[l as int].len() implies #[trigger] lv0[l as int][k] < pack_levels(m, x00, lv0, l as int).len() by {
                    assert(lv0[l as int][k] == levels@[l as int]@[k]);
                }
                lemma_pack_len(m, pack_levels(m, x00, lv0, l as int), lv0[l as int]);
            }
            l = l + 1;
        }
        assert(x00 =~= Seq::new(m.len(), |i: int| 0usize));
        let mut round: usize = 0;
        while round < 2
            invariant
                self.wf(),
                m == self@,
                n == m.len(),
                round <= 2,
                levels@.len() == max_level + 1,
                levels_ok(m, levels@.map_values(|v: Vec<usize>| v@)),
                levels_fit(m, levels@.map_values(|v: Vec<usize>| v@)),
                x@.len() == n,
                (x@, levels@.map_values(|v: Vec<usize>| v@)) == refine_rounds(
                    m,
                    pack_levels(m, x00, lv0, lv0.len() as int),
                    lv0,
                    max_level as int,
                    round as nat,
                ),
            decreases 2 - round,
        {
            let ghost xs = x@;
            let ghost ls = levels@.map_values(|v: Vec<usize>| v@);
            let mut l: usize = 1;
            while l < levels.len()
                invariant
                    self.wf(),
                    m == self@,
                    n == m.len(),
                    1 <= l <= levels@.len(),
                    levels@.len() == max_level + 1,
                    levels_ok(m, levels@.map_values(|v: Vec<usize>| v@)),
                    levels_fit(m, levels@.map_values(|v: Vec<usize>| v@)),
                    x@.len() == n,
                    (x@, levels@.map_values(|v: Vec<usize>| v@)) == refine_sweep(m, xs, ls, l - 1),
                decreases levels@.len() - l,
            {
                let ghost cur = levels@.map_values(|v: Vec<usize>| v@);
                let ghost xc = x@;
                proof {
                    assert(cur[l as int] == levels@[l as int]@);
                    assert forall|k: int| 0 <= k < levels@[l as int]@.len() implies #[trigger] levels@[l as int]@[k] < m.len() by {
                        assert(cur[l as int][k] == levels@[l as int]@[k]);
                    }
                }
                self.center_level_exec(&mut x, &levels[l]);
                let mut lvl = levels[l].clone();
                proof {
                    assert(lvl@ =~= cur[l as int]);
                    assert forall|j: int| 0 <= j < lvl@.len() implies (m.width(#[trigger] lvl@[j] as int) + 3) * lvl@.len() <= usize::MAX by {
                        assert(cur[l as int][j] == lvl@[j]);
                    }
                }
                self.compact_level(&mut x, &mut lvl);
                proof {
                    lemma_sort_by_key(cur[l as int].map_values(|i: usize| (x@[i as int], i)));
                }
                let ghost ord = lvl@;
                levels.set(l, lvl);
                proof {
                    let nxt = levels@.map_values(|v: Vec<usize>| v@);
                    assert(nxt =~= cur.update(l as int, ord));
                    lemma_by_column_ok(m, center_level(m, xc, cur[l as int]), cur[l as int]);
                    assert(levels_ok(m, nxt) && levels_fit(m, nxt)) by {
                        assert forall|a: int, k: int| 0 <= a < nxt.len() && 0 <= k < nxt[a].len() implies #[trigger] nxt[a][k] < m.len()
                            && (m.width(nxt[a][k] as int) + 3) * nxt[a].len() <= usize::MAX by {
                            if a != l {
                                assert(nxt[a] == cur[a]);
                            }
                        }
                        assert forall|a: int| 0 <= a < nxt.len() implies 2 * #[trigger] nxt[a].len() <= usize::MAX by {
                            assert(cur[a].len() == nxt[a].len());
                        }
                    }
                    assert(levels_fit(m, nxt)) by {
                        assert forall|a: int, k: int| 0 <= a < nxt.len() && 0 <= k < nxt[a].len() implies (m.width(#[trigger] nxt[a][k] as int) + 3) * nxt[a].len() <= usize::MAX by {
                            if a != l {
                                assert(nxt[a] == cur[a]);
                            } else {
                                let q = cur[a].index_of(nxt[a][k]);
                                assert(cur[a][q] == nxt[a][k]);
                            }
                        }
                    }
                }
                l = l + 1;
            }
            round = round + 1;
        }
        x
    }

    /// Applies the damped pull to the nodes of `level` in order.
    fn center_level_exec(&self, x: &mut Vec<usize>, level: &Vec<usize>)
        requires
            self.wf(),
            old(x)@.len() == self@.len(),
            forall|k: int| 0 <= k < level@.len() ==> #[trigger] level@[k] < self@.len(),
        ensures
            final(x)@ == center_level(self@, old(x)@, level@),
            final(x)@.len() == old(x)@.len(),
    {
        let ghost m = self@;
        let mut k: usize = 0;
        while k < level.len()
            invariant
                self.wf(),
                m == self@,
                k <= level@.len(),
                x@.len() == m.len(),
                forall|j: int| 0 <= j < level@.len() ==> #[trigger] level@[j] < m.len(),
                x@ == center_level(m, old(x)@, level@.take(k as int)),
            decreases level@.len() - k,
        {
            let idx = level[k];
            self.center_node(x, idx);
            proof {
                assert(level@.take(k as int + 1).drop_last() =~= level@.take(k as int));
            }
            k = k + 1;
        }
        assert(level@.take(level@.len() as int) =~= level@);
    }

    /// The damped pull of one node towards the median centre of its parents.
    fn center_node(&self, x: &mut Vec<usize>, idx: usize)
        requires
            self.wf(),
            old(x)@.len() == self@.len(),
            idx < self@.len(),
        ensures
            final(x)@ == center_step(self@, old(x)@, idx),
            final(x)@.len() == old(x)@.len(),
    {
        let ghost m = self@;
        let parents = self.get_parents_indices(idx);
        if parents.len() == 0 {
            return;
        }
        let mut centers: Vec<(usize, usize)> = Vec::new();
        let mut k: usize = 0;
        while k < parents.len()
            invariant
                self.wf(),
                m == self@,
                idx < m.len(),
                parents@ == m.parents[idx as int],
                k <= parents@.len(),
                x@.len() == m.len(),
                centers@ == self_keyed(parents@.take(k as int).map_values(|p: usize| center_of(m, x@, p))),
            decreases parents@.len() - k,
        {
            let p = parents[k];
            proof {
                assert(m.parents[idx as int][k as int] < m.len());
            }
            let half = self.get_node_width(p) / 2;
            let c = if x[p] <= usize::MAX - half {
                x[p] + half
            } else {
                usize::MAX
            };
            centers.push((c, c));
            k = k + 1;
            assert(centers@ =~= self_keyed(parents@.take(k as int).map_values(|p: usize| center_of(m, x@, p))));
        }
        assert(parents@.take(parents@.len() as int) =~= parents@);
        let sorted = stable_sort_by_key(&centers);
        proof {
            lemma_sort_by_key(centers@);
        }
        let med = sorted[sorted.len() / 2].0;
        let half = self.get_node_width(idx) / 2;
        let target = if med >= half {
            med - half
        } else {
            0
        };
        let cur = x[idx];
        let avg = cur / 2 + target / 2 + (cur % 2 + target % 2) / 2;
        assert(avg == (cur + target) / 2) by (nonlinear_arith)
            requires
                avg == cur / 2 + target / 2 + (cur % 2 + target % 2) / 2,
                cur >= 0,
                target >= 0,
        ;
        x.set(idx, avg);
    }

    /// Levels of all nodes, as `(index, level)` in index order.
    pub fn calculate_levels(&self) -> (r: Vec<(usize, usize)>)
        requires
            self.wf(),
        ensures
            r@.len() == self@.len(),
            forall|i: int| 0 <= i < r@.len() ==> #[trigger] r@[i].0 == i,
            forall|i: int| 0 <= i < r@.len() ==> #[trigger] r@[i].1 <= self@.len(),
            !has_closed_walk(self@) ==> is_level_assignment(
                self@,
                Seq::new(self@.len(), |i: int| true),
                r@.map_values(|p: (usize, usize)| p.1),
            ),
            !has_closed_walk(self@) ==> r@.map_values(|p: (usize, usize)| p.1) == levels_of(
                self@,
                Seq::new(self@.len(), |i: int| true),
            ),
            !has_closed_walk(self@) ==> forall|i: int| 0 <= i < r@.len() ==> (#[trigger] r@[i].1 == 0 <==> self@.parents[i].len() == 0),
    {
        let n = self.node_count();
        let mut scope: Vec<bool> = Vec::new();
        let mut i: usize = 0;
        while i < n
            invariant
                i <= n,
                scope@ == Seq::new(i as nat, |j: int| true),
            decreases n - i,
        {
            scope.push(true);
            i = i + 1;
            assert(scope@ =~= Seq::new(i as nat, |j: int| true));
        }
        let levels = self.relax_levels(&scope);
        let mut r: Vec<(usize, usize)> = Vec::new();
        let mut i: usize = 0;
        while i < n
            invariant
                i <= n,
                levels@.len() == n,
                r@.len() == i,
                forall|j: int| 0 <= j < i ==> #[trigger] r@[j] == (j as usize, levels@[j]),
            decreases n - i,
        {
            r.push((i, levels[i]));
            i = i + 1;
        }
        assert(r@.map_values(|p: (usize, usize)| p.1) =~= levels@);
        proof {
            let full = Seq::new(self@.len(), |i: int| true);
            assert(scope@ == full);
            if !has_closed_walk(self@) {
                lemma_level_assignment_unique(self@, full, levels@, levels_of(self@, full));
                let m = self@;
                assert forall|i: int| 0 <= i < r@.len() implies (#[trigger] r@[i].1 == 0 <==> m.parents[i].len() == 0) by {
                    assert(r@[i].1 == levels@[i]);
                    if levels@[i] > 0 {
                        let (u, k) = choose|u: int, k: int|
                            scoped_edge(m, full, u, k) && m.children[u][k] == i && levels@[i] == levels@[u] + 1;
                        assert(m.parents[m.children[u][k] as int].contains(u as usize));
                    }
                    if m.parents[i].len() > 0 {
                        let u = m.parents[i][0] as int;
                        assert(u < m.len());
                        assert(m.children[u].contains(i as usize));
                        let k = m.children[u].index_of(i as usize);
                        assert(scoped_edge(m, full, u, k));
                    }
                }
            }
        }
        r
    }

    /// Levels of the nodes of a subgraph, as `(index, level)` in the order of
    /// `subgraph_indices`; only edges with both ends in the subgraph count, and
    /// the levels are the longest-path ones whenever no cycle stays inside
    /// the subgraph.
    pub fn calculate_levels_for_subgraph(&self, subgraph_indices: &Vec<usize>) -> (r: Vec<(usize, usize)>)
        requires
            self.wf(),
            forall|k: int| 0 <= k < subgraph_indices@.len() ==> #[trigger] subgraph_indices@[k] < self@.len(),
        ensures
            r@.len() == subgraph_indices@.len(),
            forall|k: int| 0 <= k < r@.len() ==> #[trigger] r@[k].0 == subgraph_indices@[k],
            forall|k: int| 0 <= k < r@.len() ==> #[trigger] r@[k].1 <= self@.len(),
            !has_scoped_closed_walk(self@, member_mask(self@.len(), subgraph_indices@)) ==> is_level_assignment(
                self@,
                member_mask(self@.len(), subgraph_indices@),
                levels_of(self@, member_mask(self@.len(), subgraph_indices@)),
            ),
            !has_scoped_closed_walk(self@, member_mask(self@.len(), subgraph_indices@)) ==> forall|k: int|
                0 <= k < r@.len() ==> #[trigger] r@[k].1 == levels_of(
                    self@,
                    member_mask(self@.len(), subgraph_indices@),
                )[r@[k].0 as int],
    {
        let n = self.node_count();
        let mut scope: Vec<bool> = Vec::new();
        let mut i: usize = 0;
        while i < n
            invariant
                i <= n,
                scope@ == Seq::new(i as nat, |j: int| false),
            decreases n - i,
        {
            scope.push(false);
            i = i + 1;
            assert(scope@ =~= Seq::new(i as nat, |j: int| false));
        }
        let mut k: usize = 0;
        while k < subgraph_indices.len()
            invariant
                n == self@.len(),
                k <= subgraph_indices@.len(),
                forall|j: int| 0 <= j < subgraph_indices@.len() ==> #[trigger] subgraph_indices@[j] < n,
                scope@ == member_mask(n as nat, subgraph_indices@.take(k as int)),
            decreases subgraph_indices@.len() - k,
        {
            let ghost old_scope = scope@;
            let idx = subgraph_indices[k];
            scope.set(idx, true);
            k = k + 1;
            proof {
                let t = subgraph_indices@.take(k as int);
                assert(t.drop_last() =~= subgraph_indices@.take(k as int - 1));
                assert(t[k as int - 1] == idx);
                assert forall|v: int| 0 <= v < n implies #[trigger] scope@[v] == member_mask(n as nat, t)[v] by {
                    if v == idx {
                        assert(t.contains(v as usize));
                    } else {
                        assert(scope@[v] == old_scope[v]);
                    }
                    if t.contains(v as usize) && v != t.last() {
                        let q = t.index_of(v as usize);
                        assert(t.drop_last()[q] == v);
                    }
                    if t.drop_last().contains(v as usize) {
                        let q = t.drop_last().index_of(v as usize);
                        assert(t[q] == v);
                    }
                }
                assert(scope@ =~= member_mask(n as nat, t));
            }
        }
        assert(subgraph_indices@.take(subgraph_indices@.len() as int) =~= subgraph_indices@);
        let levels = self.relax_levels(&scope);
        let mut r: Vec<(usize, usize)> = Vec::new();
        let mut k: usize = 0;
        while k < subgraph_indices.len()
            invariant
                n == self@.len(),
                levels@.len() == n,
                k <= subgraph_indices@.len(),
                forall|j: int| 0 <= j < subgraph_indices@.len() ==> #[trigger] subgraph_indices@[j] < n,
                r@.len() == k,
                forall|j: int| 0 <= j < k ==> #[trigger] r@[j] == (subgraph_indices@[j], levels@[subgraph_indices@[j] as int]),
            decreases subgraph_indices@.len() - k,
        {
            let idx = subgraph_indices[k];
            r.push((idx, levels[idx]));
            k = k + 1;
        }
        proof {
            let mask = member_mask(self@.len(), subgraph_indices@);
            if !has_scoped_closed_walk(self@, mask) {
                lemma_level_assignment_unique(self@, mask, levels@, levels_of(self@, mask));
            }
        }
        r
    }

    /// Fixed-point relaxation of levels over the edges inside `scope`,
    /// stopping at the latest once no level can rise above the node count.
    #[verifier::rlimit(100)]
    #[verifier::spinoff_prover]
    fn relax_levels(&self, scope: &Vec<bool>) -> (levels: Vec<usize>)
        requires
            self.wf(),
            scope@.len() == self@.len(),
        ensures
            levels@.len() == self@.len(),
            forall|v: int| 0 <= v < levels@.len() ==> #[trigger] levels@[v] <= self@.len(),
            !has_scoped_closed_walk(self@, scope@) ==> is_level_assignment(self@, scope@, levels@),
    {
        let ghost m = self@;
        let n = self.node_count();
        let mut levels: Vec<usize> = Vec::new();
        let mut i: usize = 0;
        while i < n
            invariant
                i <= n,
                levels@ == Seq::new(i as nat, |j: int| 0usize),
            decreases n - i,
        {
            levels.push(0);
            i = i + 1;
            assert(levels@ =~= Seq::new(i as nat, |j: int| 0usize));
        }
        let ghost mut wit: Seq<Seq<int>> = Seq::new(n as nat, |v: int| seq![v]);
        let ghost mut par: Seq<(int, int)> = Seq::new(n as nat, |v: int| (0int, 0int));
        proof {
            assert forall|v: int| 0 <= v < n implies level_witness(m, #[trigger] wit[v], v, levels@[v]) by {
                assert(wit[v] == seq![v]);
            }
            assert forall|v: int, i: int| 0 <= v < n && scope@[v] && 0 <= i < wit[v].len() implies scope@[#[trigger] wit[v][i]] by {
                assert(wit[v] == seq![v]);
            }
        }
        let mut changed = true;
        while changed
            invariant
                self.wf(),
                m == self@,
                n == m.len(),
                scope@.len() == n,
                levels@.len() == n,
                wit.len() == n,
                par.len() == n,
                forall|v: int| 0 <= v < n ==> #[trigger] levels@[v] <= n,
                forall|v: int| 0 <= v < n ==> level_witness(m, #[trigger] wit[v], v, levels@[v]),
                walks_in_scope(m, scope@, wit),
                forall|v: int| 0 <= v < n && #[trigger] levels@[v] > 0 ==> {
                    let (u, k) = par[v];
                    scoped_edge(m, scope@, u, k) && m.children[u][k] == v && levels@[v] <= levels@[u] + 1
                },
                !changed ==> forall|u: int, k: int| #[trigger] scoped_edge(m, scope@, u, k) ==> (levels@[m.children[u][k] as int]
                    >= levels@[u] + 1 || levels@[u] >= n),
            decreases gap_sum(levels@, n as nat) + if changed { 1int } else { 0int },
        {
            proof {
                lemma_gap_sum_nonneg(levels@, n as nat);
            }
            let ghost start = levels@;
            let ghost measure0 = gap_sum(levels@, n as nat) + 1;
            changed = false;
            let mut u: usize = 0;
            while u < n
                invariant
                    self.wf(),
                    m == self@,
                    n == m.len(),
                    u <= n,
                    scope@.len() == n,
                    levels@.len() == n,
                    wit.len() == n,
                    par.len() == n,
                    forall|v: int| 0 <= v < n ==> #[trigger] levels@[v] <= n,
                    forall|v: int| 0 <= v < n ==> level_witness(m, #[trigger] wit[v], v, levels@[v]),
                walks_in_scope(m, scope@, wit),
                    forall|v: int| 0 <= v < n && #[trigger] levels@[v] > 0 ==> {
                        let (a, k) = par[v];
                        scoped_edge(m, scope@, a, k) && m.children[a][k] == v && levels@[v] <= levels@[a] + 1
                    },
                    start.len() == n,
                    forall|v: int| 0 <= v < n ==> #[trigger] start[v] <= levels@[v],
                    changed ==> gap_sum(levels@, n as nat) < gap_sum(start, n as nat),
                    !changed ==> levels@ == start,
                    !changed ==> forall|a: int, k: int| #[trigger] scoped_edge(m, scope@, a, k) && a < u ==> (
                        levels@[m.children[a][k] as int] >= levels@[a] + 1 || levels@[a] >= n),
                decreases n - u,
            {
                if scope[u] {
                    let children = self.get_children_indices(u);
                    let mut k: usize = 0;
                    while k < children.len()
                        invariant
                            self.wf(),
                            m == self@,
                            n == m.len(),
                            u < n,
                            scope@[u as int],
                            children@ == m.children[u as int],
                            k <= children@.len(),
                            scope@.len() == n,
                            levels@.len() == n,
                            wit.len() == n,
                            par.len() == n,
                            forall|v: int| 0 <= v < n ==> #[trigger] levels@[v] <= n,
                            forall|v: int| 0 <= v < n ==> level_witness(m, #[trigger] wit[v], v, levels@[v]),
                walks_in_scope(m, scope@, wit),
                            forall|v: int| 0 <= v < n && #[trigger] levels@[v] > 0 ==> {
                                let (a, j) = par[v];
                                scoped_edge(m, scope@, a, j) && m.children[a][j] == v && levels@[v] <= levels@[a] + 1
                            },
                            start.len() == n,
                            forall|v: int| 0 <= v < n ==> #[trigger] start[v] <= levels@[v],
                            changed ==> gap_sum(levels@, n as nat) < gap_sum(start, n as nat),
                            !changed ==> levels@ == start,
                            !changed ==> forall|a: int, j: int| #[trigger] scoped_edge(m, scope@, a, j) && a < u ==> (
                                levels@[m.children[a][j] as int] >= levels@[a] + 1 || levels@[a] >= n),
                            !changed ==> forall|j: int| 0 <= j < k && #[trigger] scoped_edge(m, scope@, u as int, j) ==> (
                                levels@[m.children[u as int][j] as int] >= levels@[u as int] + 1 || levels@[u as int] >= n),
                        decreases children@.len() - k,
                    {
                        let v = children[k];
                        proof {
                            assert(m.children[u as int][k as int] < n);
                        }
                        if scope[v] {
                            let lu = levels[u];
                            if lu < n && lu + 1 > levels[v] {
                                let ghost before = levels@;
                                levels.set(v, lu + 1);
                                proof {
                                    lemma_gap_sum_raise(before, n as nat, v as int, (lu + 1) as usize);
                                    assert(m.children[u as int][k as int] == v);
                                    let (w2, p2) = lemma_raise_level(m, scope@, before, levels@, wit, par, u as int, k as int);
                                    wit = w2;
                                    par = p2;
                                }
                                changed = true;
                            }
                        }
                        k = k + 1;
                    }
                }
                u = u + 1;
            }
            proof {
                lemma_gap_sum_nonneg(levels@, n as nat);
            }
            assert(gap_sum(levels@, n as nat) + (if changed { 1int } else { 0int }) < measure0);
        }
        proof {
            if !has_scoped_closed_walk(m, scope@) {
                assert forall|v: int| 0 <= v < n && scope@[v] implies #[trigger] levels@[v] < n by {
                    if levels@[v] >= n {
                        lemma_long_scoped_walk(m, scope@, wit[v]);
                    }
                }
                assert forall|u: int, k: int| #[trigger] scoped_edge(m, scope@, u, k) implies levels@[m.children[u][k] as int]
                    >= levels@[u] + 1 by {
                    assert(levels@[u] < n);
                }
                assert forall|v: int|
                    0 <= v < m.len() && #[trigger] levels@[v] > 0 implies exists|u: int, k: int|
                        scoped_edge(m, scope@, u, k) && m.children[u][k] == v && levels@[v] == levels@[u] + 1 by {
                    let (u, k) = par[v];
                    assert(scoped_edge(m, scope@, u, k));
                    assert(levels@[m.children[u][k] as int] >= levels@[u] + 1);
                }
            }
        }
        levels
    }
}

/// The walks kept for the nodes in `scope` stay in `scope`.
pub open spec fn walks_in_scope(m: GraphModel, scope: Seq<bool>, wit: Seq<Seq<int>>) -> bool {
    forall|v: int, i: int| 0 <= v < m.len() && scope[v] && 0 <= i < wit[v].len() ==> scope[#[trigger] wit[v][i]]
}

/// Some closed walk stays among the nodes in `scope`.
pub open spec fn has_scoped_closed_walk(m: GraphModel, scope: Seq<bool>) -> bool {
    exists|w: Seq<int>| #[trigger] is_closed_walk(m, w) && forall|i: int| 0 <= i < w.len() ==> scope[#[trigger] w[i]]
}

/// A closed walk inside a scope is a closed walk.
pub proof fn lemma_scoped_walk_closed(m: GraphModel, scope: Seq<bool>)
    requires
        has_scoped_closed_walk(m, scope),
    ensures
        has_closed_walk(m),
{
    let w = choose|w: Seq<int>| #[trigger] is_closed_walk(m, w) && forall|i: int| 0 <= i < w.len() ==> scope[#[trigger] w[i]];
}

/// A walk inside a scope longer than the number of nodes holds a closed walk
/// inside the scope.
pub proof fn lemma_long_scoped_walk(m: GraphModel, scope: Seq<bool>, w: Seq<int>)
    requires
        is_walk(m, w),
        w.len() > m.len(),
        forall|i: int| 0 <= i < w.len() ==> scope[#[trigger] w[i]],
    ensures
        has_scoped_closed_walk(m, scope),
{
    let r = vstd::set_lib::set_int_range(0, m.len() as int);
    vstd::set_lib::lemma_int_range(0, m.len() as int);
    if w.no_duplicates() {
        w.unique_seq_to_set();
        assert(w.to_set().subset_of(r)) by {
            assert forall|x: int| w.to_set().contains(x) implies r.contains(x) by {
                let i = w.index_of(x);
                assert(0 <= w[i] < m.len());
            }
        }
        vstd::set_lib::lemma_len_subset(w.to_set(), r);
    } else {
        let (i, j) = choose|i: int, j: int|
            0 <= i < w.len() && 0 <= j < w.len() && i != j && w[i] == w[j];
        let a = if i < j { i } else { j };
        let b = if i < j { j } else { i };
        let c = w.subrange(a, b + 1);
        assert forall|t: int| 0 <= t < c.len() - 1 implies is_edge(m, #[trigger] c[t], c[t + 1]) by {
            assert(c[t] == w[a + t] && c[t + 1] == w[a + t + 1]);
        }
        assert forall|t: int| 0 <= t < c.len() implies scope[#[trigger] c[t]] by {
            assert(c[t] == w[a + t]);
        }
        assert(is_closed_walk(m, c));
    }
}

/// The facts that a relaxation keeps about its levels: each is at most the
/// node count, is witnessed by a walk, and above zero sits at most one above
/// a recorded scoped parent.
pub open spec fn relax_inv(m: GraphModel, scope: Seq<bool>, lv: Seq<usize>, wit: Seq<Seq<int>>, par: Seq<(int, int)>) -> bool {
    let n = m.len();
    &&& lv.len() == n
    &&& wit.len() == n
    &&& par.len() == n
    &&& forall|v: int| 0 <= v < n ==> #[trigger] lv[v] <= n
    &&& forall|v: int| 0 <= v < n ==> level_witness(m, #[trigger] wit[v], v, lv[v])
    &&& walks_in_scope(m, scope, wit)
    &&& forall|v: int| 0 <= v < n && #[trigger] lv[v] > 0 ==> {
        let (u, k) = par[v];
        scoped_edge(m, scope, u, k) && m.children[u][k] == v && lv[v] <= lv[u] + 1
    }
}

/// Raising the level of `children[u][k]` to one above `u` keeps the
/// relaxation facts, with the walk and parent of the raised node updated.
proof fn lemma_raise_level(
    m: GraphModel,
    scope: Seq<bool>,
    before: Seq<usize>,
    after: Seq<usize>,
    wit: Seq<Seq<int>>,
    par: Seq<(int, int)>,
    u: int,
    k: int,
) -> (r: (Seq<Seq<int>>, Seq<(int, int)>))
    requires
        m.well_formed(),
        m.len() <= usize::MAX,
        relax_inv(m, scope, before, wit, par),
        scoped_edge(m, scope, u, k),
        before[u] < m.len(),
        ({
            let v = m.children[u][k] as int;
            after == before.update(v, (before[u] + 1) as usize) && before[u] + 1 > before[v]
        }),
    ensures
        relax_inv(m, scope, after, r.0, r.1),
{
    let n = m.len();
    let v = m.children[u][k] as int;
    assert(v < n) by {
        assert(m.children[u][k] < m.len());
    }
    let wu = wit[u];
    assert(level_witness(m, wit[u], u, before[u]));
    assert(is_edge(m, u, v));
    let wv = wu.push(v);
    assert forall|t: int| 0 <= t < wv.len() - 1 implies is_edge(m, #[trigger] wv[t], wv[t + 1]) by {
        if t < wv.len() - 2 {
            assert(wv[t] == wu[t] && wv[t + 1] == wu[t + 1]);
        }
    }
    let w2 = wit.update(v, wv);
    let p2 = par.update(v, (u, k));
    assert forall|x: int| 0 <= x < n && #[trigger] after[x] > 0 implies {
        let (a, j) = p2[x];
        scoped_edge(m, scope, a, j) && m.children[a][j] == x && after[x] <= after[a] + 1
    } by {
        if x != v {
            assert(before[x] > 0);
            assert(after[x] == before[x]);
            let (a, j) = par[x];
            assert(after[a] >= before[a]);
        } else {
            assert(p2[x] == (u, k));
            assert(after[u] >= before[u]);
        }
    }
    assert forall|x: int| 0 <= x < n implies level_witness(m, #[trigger] w2[x], x, after[x]) by {
        if x != v {
            assert(level_witness(m, wit[x], x, before[x]));
        } else {
            assert(w2[x] == wv);
            assert(wv.len() == before[u] + 2);
            assert(is_walk(m, wv)) by {
                assert forall|t: int| 0 <= t < wv.len() implies 0 <= #[trigger] wv[t] < m.len() by {
                    if t < wu.len() {
                        assert(wv[t] == wu[t]);
                    }
                }
            }
        }
    }
    assert forall|x: int, i: int| 0 <= x < n && scope[x] && 0 <= i < w2[x].len() implies scope[#[trigger] w2[x][i]] by {
        if x == v {
            if i < wu.len() {
                assert(w2[x][i] == wu[i]);
            } else {
                assert(w2[x][i] == v);
            }
        }
    }
    assert forall|x: int| 0 <= x < n implies #[trigger] after[x] <= n by {
        if x != v {
            assert(before[x] <= n);
        }
    }
    (w2, p2)
}

/// The search for the piece of `x`: unless visited, `x` is marked and
/// listed, then each edge in insertion order is followed from `x`, forwards
/// and then backwards. Returns the visited marks and the list after it.
pub open spec fn collect(m: GraphModel, x: usize, visited: Seq<bool>, sub: Seq<usize>, fuel: nat) -> (Seq<bool>, Seq<usize>)
    decreases fuel, 0nat, 0nat,
{
    if fuel == 0 || visited[x as int] {
        (visited, sub)
    } else {
        collect_edges(m, x, 0, visited.update(x as int, true), sub.push(x), (fuel - 1) as nat)
    }
}

/// Edges `e`, `e + 1`, ... followed from `x` in the search for a piece.
pub open spec fn collect_edges(m: GraphModel, x: usize, e: nat, visited: Seq<bool>, sub: Seq<usize>, fuel: nat) -> (Seq<bool>, Seq<usize>)
    decreases fuel, 1nat, (if e < m.edges.len() { m.edges.len() - e } else { 0 }),
{
    if e >= m.edges.len() {
        (visited, sub)
    } else {
        let a = m.index[m.edges[e as int].0];
        let b = m.index[m.edges[e as int].1];
        let r1 = if a == x {
            collect(m, b, visited, sub, fuel)
        } else {
            (visited, sub)
        };
        let r2 = if b == x {
            collect(m, a, r1.0, r1.1, fuel)
        } else {
            r1
        };
        collect_edges(m, x, e + 1, r2.0, r2.1, fuel)
    }
}

/// The pieces found by searching from each unvisited node `i`, `i + 1`, ...
pub open spec fn pieces_from(m: GraphModel, i: nat, visited: Seq<bool>) -> Seq<Seq<usize>>
    decreases m.len() - i,
{
    if i >= m.len() {
        seq![]
    } else if visited[i as int] {
        pieces_from(m, i + 1, visited)
    } else {
        let r = collect(m, i as usize, visited, seq![], m.len() + 1);
        seq![r.1] + pieces_from(m, i + 1, r.0)
    }
}

/// The pieces of the graph, each listed in search order, as the search from
/// each node in turn finds them.
pub open spec fn search_pieces(m: GraphModel) -> Seq<Seq<usize>> {
    pieces_from(m, 0, Seq::new(m.len(), |j: int| false))
}

proof fn lemma_count_false_le(s: Seq<bool>)
    ensures
        count_false(s) <= s.len(),
    decreases s.len(),
{
    if s.len() > 0 {
        lemma_count_false_le(s.drop_last());
    }
}

/// Edge `e` joins nodes `u` and `v`, in either direction.
pub open spec fn edge_joins(m: GraphModel, e: int, u: int, v: int) -> bool {
    let a = m.index[m.edges[e].0] as int;
    let b = m.index[m.edges[e].1] as int;
    (a == u && b == v) || (a == v && b == u)
}

/// Some edge joins `u` and `v`, in either direction.
pub open spec fn touches(m: GraphModel, u: int, v: int) -> bool {
    exists|e: int| 0 <= e < m.edges.len() && #[trigger] edge_joins(m, e, u, v)
}

/// `w` is a walk over edges followed either way.
pub open spec fn is_link_walk(m: GraphModel, w: Seq<int>) -> bool {
    &&& w.len() >= 1
    &&& forall|i: int| 0 <= i < w.len() ==> 0 <= #[trigger] w[i] < m.len()
    &&& forall|i: int| 0 <= i < w.len() - 1 ==> touches(m, #[trigger] w[i], w[i + 1])
}

/// Nodes `u` and `v` are connected, edges followed either way.
pub open spec fn linked(m: GraphModel, u: int, v: int) -> bool {
    exists|w: Seq<int>| #[trigger] is_link_walk(m, w) && w[0] == u && w.last() == v
}

/// The entries of `sub` from position `from` on are connected to `root`, and
/// every node they touch is visited.
pub open spec fn piece_facts(m: GraphModel, root: int, sub: Seq<usize>, from: int, visited: Seq<bool>) -> bool {
    &&& forall|k: int| from <= k < sub.len() ==> linked(m, root, #[trigger] sub[k] as int)
    &&& forall|k: int, v: int|
        from <= k < sub.len() && 0 <= v < m.len() && #[trigger] touches(m, sub[k] as int, v) ==> visited[v]
}

/// Edge `q` has been followed from node `x`: whichever end is `x`, the other is visited.
pub open spec fn edge_done(m: GraphModel, q: int, x: int, visited: Seq<bool>) -> bool {
    let a = m.index[m.edges[q].0] as int;
    let b = m.index[m.edges[q].1] as int;
    &&& a == x ==> visited[b]
    &&& b == x ==> visited[a]
}

/// The pieces are the connected pieces of the graph: each starts at its
/// smallest node, holds only nodes connected to it, and every node connected
/// to it.
pub open spec fn pieces_connected(m: GraphModel, subs: Seq<Seq<usize>>) -> bool {
    &&& forall|a: int, k: int|
        0 <= a < subs.len() && 0 <= k < subs[a].len() ==> linked(m, subs[a][0] as int, #[trigger] subs[a][k] as int)
            && subs[a][0] <= subs[a][k]
    &&& forall|a: int, v: int|
        0 <= a < subs.len() && 0 <= v < m.len() && #[trigger] linked(m, subs[a][0] as int, v) ==> subs[a].contains(v as usize)
}

proof fn lemma_link_self(m: GraphModel, a: int)
    requires
        0 <= a < m.len(),
    ensures
        linked(m, a, a),
{
    let w = seq![a];
    assert(is_link_walk(m, w));
}

proof fn lemma_edge_ends(m: GraphModel, e: int, x: int)
    requires
        m.well_formed(),
        0 <= e < m.edges.len(),
    ensures
        m.has_id(m.edges[e].0) && m.has_id(m.edges[e].1),
        (m.edges[e].0 == m.ids[x] <==> m.index[m.edges[e].0] == x) || !(0 <= x < m.len()),
        (m.edges[e].1 == m.ids[x] <==> m.index[m.edges[e].1] == x) || !(0 <= x < m.len()),
{
    if 0 <= x < m.len() {
        assert(m.index.contains_key(m.ids[x]));
    }
}

/// A node joined by edge `e` to a node connected to `root` is connected to `root`.
proof fn lemma_link_extend(m: GraphModel, root: int, a: int, b: int, e: int)
    requires
        m.well_formed(),
        linked(m, root, a),
        0 <= e < m.edges.len(),
        0 <= b < m.len(),
        edge_joins(m, e, a, b),
    ensures
        linked(m, root, b),
{
    let w = choose|w: Seq<int>| #[trigger] is_link_walk(m, w) && w[0] == root && w.last() == a;
    let w2 = w.push(b);
    assert(touches(m, a, b));
    assert forall|i: int| 0 <= i < w2.len() - 1 implies touches(m, #[trigger] w2[i], w2[i + 1]) by {
        if i < w2.len() - 2 {
            assert(w2[i] == w[i] && w2[i + 1] == w[i + 1]);
        }
    }
    assert forall|i: int| 0 <= i < w2.len() implies 0 <= #[trigger] w2[i] < m.len() by {
        if i < w.len() {
            assert(w2[i] == w[i]);
        }
    }
    assert(is_link_walk(m, w2));
}

/// A walk from a node of a new piece stays in that piece: the nodes visited
/// before it never touch nodes outside them, and the piece's nodes touch
/// only visited nodes.
proof fn lemma_walk_in_piece(m: GraphModel, w: Seq<int>, v0: Seq<bool>, v1: Seq<bool>, sub: Seq<usize>)
    requires
        is_link_walk(m, w),
        v0.len() == m.len(),
        v1.len() == m.len(),
        sub.contains(w[0] as usize),
        forall|x: usize| x < m.len() ==> (#[trigger] v1[x as int] <==> (v0[x as int] || sub.contains(x))),
        forall|k: int| 0 <= k < sub.len() ==> #[trigger] sub[k] < m.len() && !v0[sub[k] as int],
        forall|x: int, y: int| 0 <= x < m.len() && v0[x] && 0 <= y < m.len() && #[trigger] touches(m, x, y) ==> v0[y],
        piece_facts(m, w[0], sub, 0, v1),
    ensures
        sub.contains(w.last() as usize),
    decreases w.len(),
{
    if w.len() > 1 {
        let w2 = w.drop_last();
        assert(is_link_walk(m, w2)) by {
            assert forall|i: int| 0 <= i < w2.len() - 1 implies touches(m, #[trigger] w2[i], w2[i + 1]) by {
                assert(w2[i] == w[i] && w2[i + 1] == w[i + 1]);
            }
        }
        lemma_walk_in_piece(m, w2, v0, v1, sub);
        let a = w2.last();
        let b = w.last();
        assert(w[w.len() - 2] == a);
        assert(touches(m, a, b));
        let k = sub.index_of(a as usize);
        assert(sub[k] as int == a);
        assert(v1[b]);
        let e = choose|e: int| 0 <= e < m.edges.len() && #[trigger] edge_joins(m, e, a, b);
        assert(edge_joins(m, e, b, a));
        assert(touches(m, b, a));
        if v0[b] {
            assert(v0[a]);
        }
        assert(v1[(b as usize) as int]);
    }
}

/// `subs` splits the node indices `0..n`: no list is empty, and joined end
/// to end they list every index below `n` exactly once.
pub open spec fn is_partition(n: nat, subs: Seq<Seq<usize>>) -> bool {
    &&& forall|a: int| 0 <= a < subs.len() ==> #[trigger] subs[a].len() > 0
    &&& marks(Seq::new(n, |v: int| true), flatten(subs))
}

/// `items` lists, without repetition, exactly the indices marked in `visited`.
pub open spec fn marks(visited: Seq<bool>, items: Seq<usize>) -> bool {
    &&& forall|k: int| 0 <= k < items.len() ==> #[trigger] items[k] < visited.len() && visited[items[k] as int]
    &&& forall|v: usize| v < visited.len() && #[trigger] visited[v as int] ==> items.contains(v)
    &&& items.no_duplicates()
}

/// The lists joined end to end.
pub open spec fn flatten(subs: Seq<Seq<usize>>) -> Seq<usize>
    decreases subs.len(),
{
    if subs.len() == 0 {
        seq![]
    } else {
        flatten(subs.drop_last()) + subs.last()
    }
}

proof fn lemma_flatten_push(subs: Seq<Seq<usize>>, s: Seq<usize>)
    ensures
        flatten(subs.push(s)) == flatten(subs) + s,
{
    assert(subs.push(s).drop_last() =~= subs);
}

proof fn lemma_marks_concat(v0: Seq<bool>, v1: Seq<bool>, all: Seq<usize>, sub: Seq<usize>)
    requires
        marks(v0, all),
        v1.len() == v0.len(),
        forall|v: usize| v < v1.len() ==> (#[trigger] v1[v as int] <==> (v0[v as int] || sub.contains(v))),
        forall|k: int| 0 <= k < sub.len() ==> !v0[#[trigger] sub[k] as int] && sub[k] < v0.len(),
        sub.no_duplicates(),
    ensures
        marks(v1, all + sub),
{
    let t = all + sub;
    assert forall|k: int| 0 <= k < t.len() implies #[trigger] t[k] < v1.len() && v1[t[k] as int] by {
        if k < all.len() {
            assert(t[k] == all[k]);
        } else {
            assert(t[k] == sub[k - all.len()]);
            assert(sub.contains(t[k]));
        }
    }
    assert forall|v: usize| v < v1.len() && #[trigger] v1[v as int] implies t.contains(v) by {
        if v0[v as int] {
            let q = all.index_of(v);
            assert(t[q] == v);
        } else {
            let q = sub.index_of(v);
            assert(t[all.len() + q] == v);
        }
    }
    assert forall|i: int, j: int| 0 <= i < t.len() && 0 <= j < t.len() && i != j implies t[i] != t[j] by {
        if i < all.len() && j >= all.len() {
            assert(t[i] == all[i] && t[j] == sub[j - all.len()]);
            assert(v0[all[i] as int]);
            assert(!v0[sub[j - all.len()] as int]);
        } else if i >= all.len() && j < all.len() {
            assert(t[j] == all[j] && t[i] == sub[i - all.len()]);
            assert(v0[all[j] as int]);
            assert(!v0[sub[i - all.len()] as int]);
        } else if i < all.len() {
            assert(t[i] == all[i] && t[j] == all[j]);
        } else {
            assert(t[i] == sub[i - all.len()] && t[j] == sub[j - all.len()]);
        }
    }
}

/// The neighbours of node `v` on the side the ordering looks at.
pub open spec fn neighbours(m: GraphModel, v: usize, by_parents: bool) -> Seq<usize> {
    if by_parents {
        m.parents[v as int]
    } else {
        m.children[v as int]
    }
}

/// `level` reordered by the median positions of each node's neighbours in
/// `other`, stably: nodes with equal keys keep their order.
pub open spec fn median_order(m: GraphModel, level: Seq<usize>, other: Seq<usize>, by_parents: bool) -> Seq<usize> {
    sort_by_key(
        Seq::new(
            level.len(),
            |i: int| (median_key(neighbours(m, level[i], by_parents), other, i) as usize, level[i]),
        ),
    ).map_values(|p: (usize, usize)| p.1)
}

/// Every level holds node indices only and is short enough for doubled positions.
pub open spec fn levels_ok(m: GraphModel, lv: Seq<Seq<usize>>) -> bool {
    &&& forall|l: int, k: int| 0 <= l < lv.len() && 0 <= k < lv[l].len() ==> #[trigger] lv[l][k] < m.len()
    &&& forall|l: int| 0 <= l < lv.len() ==> 2 * #[trigger] lv[l].len() <= usize::MAX
}

/// The top-down sweep over levels `1..=k`: each level ordered by its parents.
pub open spec fn top_down(m: GraphModel, lv: Seq<Seq<usize>>, k: int) -> Seq<Seq<usize>>
    decreases k,
{
    if k <= 0 {
        lv
    } else {
        let p = top_down(m, lv, k - 1);
        p.update(k, median_order(m, p[k], p[k - 1], true))
    }
}

/// The bottom-up sweep over levels `max-1` down to `k`: each level ordered by its children.
pub open spec fn bottom_up(m: GraphModel, lv: Seq<Seq<usize>>, k: int, max: int) -> Seq<Seq<usize>>
    decreases max - k,
{
    if k >= max {
        lv
    } else {
        let p = bottom_up(m, lv, k + 1, max);
        p.update(k, median_order(m, p[k], p[k + 1], false))
    }
}

/// `r` rounds of one top-down and one bottom-up sweep.
pub open spec fn crossing_rounds(m: GraphModel, lv: Seq<Seq<usize>>, max: int, r: nat) -> Seq<Seq<usize>>
    decreases r,
{
    if r == 0 {
        lv
    } else {
        let p = crossing_rounds(m, lv, max, (r - 1) as nat);
        bottom_up(m, top_down(m, p, max), 0, max)
    }
}

/// Reordering a level keeps its length and its node indices in range.
pub proof fn lemma_median_order_ok(m: GraphModel, level: Seq<usize>, other: Seq<usize>, by_parents: bool)
    requires
        forall|k: int| 0 <= k < level.len() ==> #[trigger] level[k] < m.len(),
    ensures
        median_order(m, level, other, by_parents).len() == level.len(),
        forall|k: int| 0 <= k < level.len() ==> #[trigger] median_order(m, level, other, by_parents)[k] < m.len()
            && level.contains(median_order(m, level, other, by_parents)[k]),
{
    let keyed = Seq::new(
        level.len(),
        |i: int| (median_key(neighbours(m, level[i], by_parents), other, i) as usize, level[i]),
    );
    lemma_sort_by_key(keyed);
    assert forall|k: int| 0 <= k < level.len() implies #[trigger] median_order(m, level, other, by_parents)[k] < m.len()
        && level.contains(median_order(m, level, other, by_parents)[k]) by {
        lemma_sort_by_key_member(keyed, k);
        let i = keyed.index_of(sort_by_key(keyed)[k]);
        assert(keyed[i].1 == level[i]);
    }
}

/// Start column of the `k`-th node of a packed level: the widths of the
/// nodes before it, each followed by a gap of three.
pub open spec fn gap_offset(m: GraphModel, level: Seq<usize>, k: int) -> int
    decreases k,
{
    if k <= 0 {
        0
    } else {
        gap_offset(m, level, k - 1) + m.width(level[k - 1] as int) + 3
    }
}

/// `x` with the nodes of `level` packed from column zero in level order.
pub open spec fn pack(m: GraphModel, x: Seq<usize>, level: Seq<usize>) -> Seq<usize>
    decreases level.len(),
{
    if level.len() == 0 {
        x
    } else {
        pack(m, x, level.drop_last()).update(
            level.last() as int,
            gap_offset(m, level, level.len() - 1) as usize,
        )
    }
}

/// `a + b`, or `usize::MAX` when that does not fit.
pub open spec fn sat_add(a: usize, b: usize) -> usize {
    if a + b <= usize::MAX {
        (a + b) as usize
    } else {
        usize::MAX
    }
}

/// Centre column of node `p` placed at `x[p]`.
pub open spec fn center_of(m: GraphModel, x: Seq<usize>, p: usize) -> usize {
    sat_add(x[p as int], (m.width(p as int) / 2) as usize)
}

/// One damped pull of node `v` towards the median centre of its parents:
/// halfway between its column and the column that would centre it there.
pub open spec fn center_step(m: GraphModel, x: Seq<usize>, v: usize) -> Seq<usize> {
    let ps = m.parents[v as int];
    if ps.len() == 0 {
        x
    } else {
        let cs = sort_by_key(self_keyed(ps.map_values(|p: usize| center_of(m, x, p))));
        let med = cs[(cs.len() / 2) as int].0;
        let half = m.width(v as int) / 2;
        let target = if med >= half {
            med - half
        } else {
            0
        };
        x.update(v as int, ((x[v as int] + target) / 2) as usize)
    }
}

/// The pull applied to the nodes of `level` in order.
pub open spec fn center_level(m: GraphModel, x: Seq<usize>, level: Seq<usize>) -> Seq<usize>
    decreases level.len(),
{
    if level.len() == 0 {
        x
    } else {
        center_step(m, center_level(m, x, level.drop_last()), level.last())
    }
}

/// `level` ordered by column, stably.
pub open spec fn by_column(x: Seq<usize>, level: Seq<usize>) -> Seq<usize> {
    sort_by_key(level.map_values(|i: usize| (x[i as int], i))).map_values(|p: (usize, usize)| p.1)
}

/// Centring of level `l` followed by its compaction.
pub open spec fn refine_level(m: GraphModel, x: Seq<usize>, lv: Seq<Seq<usize>>, l: int) -> (Seq<usize>, Seq<Seq<usize>>) {
    let x1 = center_level(m, x, lv[l]);
    let ord = by_column(x1, lv[l]);
    (pack(m, x1, ord), lv.update(l, ord))
}

/// Refinement of levels `1..=k`, top down.
pub open spec fn refine_sweep(m: GraphModel, x: Seq<usize>, lv: Seq<Seq<usize>>, k: int) -> (Seq<usize>, Seq<Seq<usize>>)
    decreases k,
{
    if k <= 0 {
        (x, lv)
    } else {
        let p = refine_sweep(m, x, lv, k - 1);
        refine_level(m, p.0, p.1, k)
    }
}

/// `r` refinement sweeps over levels `1..=max`.
pub open spec fn refine_rounds(m: GraphModel, x: Seq<usize>, lv: Seq<Seq<usize>>, max: int, r: nat) -> (Seq<usize>, Seq<Seq<usize>>)
    decreases r,
{
    if r == 0 {
        (x, lv)
    } else {
        let p = refine_rounds(m, x, lv, max, (r - 1) as nat);
        refine_sweep(m, p.0, p.1, max)
    }
}

/// Levels `0..k` each packed from column zero.
pub open spec fn pack_levels(m: GraphModel, x: Seq<usize>, lv: Seq<Seq<usize>>, k: int) -> Seq<usize>
    decreases k,
{
    if k <= 0 {
        x
    } else {
        pack(m, pack_levels(m, x, lv, k - 1), lv[k - 1])
    }
}

/// Columns and final level orders: every level packed, then two refinement
/// sweeps over levels `1..=max`.
pub open spec fn x_layout(m: GraphModel, lv: Seq<Seq<usize>>, max: int) -> (Seq<usize>, Seq<Seq<usize>>) {
    let x0 = pack_levels(m, Seq::new(m.len(), |i: int| 0usize), lv, lv.len() as int);
    refine_rounds(m, x0, lv, max, 2)
}

/// Every node of every level is narrow enough that a whole level packs
/// within `usize`.
pub open spec fn levels_fit(m: GraphModel, lv: Seq<Seq<usize>>) -> bool {
    forall|l: int, k: int| 0 <= l < lv.len() && 0 <= k < lv[l].len() ==> (m.width(#[trigger] lv[l][k] as int) + 3) * lv[l].len() <= usize::MAX
}

proof fn lemma_gap_offset_bound(m: GraphModel, level: Seq<usize>, k: int)
    requires
        0 <= k <= level.len(),
        forall|j: int| 0 <= j < level.len() ==> (m.width(#[trigger] level[j] as int) + 3) * level.len() <= usize::MAX,
    ensures
        0 <= gap_offset(m, level, k) <= k * ((usize::MAX as int) / (level.len() as int)),
    decreases k,
{
    if k > 0 {
        lemma_gap_offset_bound(m, level, k - 1);
        let n = level.len() as int;
        let mx = usize::MAX as int;
        let w = (m.width(level[k - 1] as int) + 3) as int;
        assert((m.width(level[k - 1] as int) + 3) * level.len() <= usize::MAX);
        assert(w <= mx / n) by {
            assert(w * n <= mx);
            vstd::arithmetic::div_mod::lemma_div_is_ordered(w * n, mx, n);
            vstd::arithmetic::div_mod::lemma_div_multiples_vanish(w, n);
        }
        let q = mx / n;
        assert(gap_offset(m, level, k) == gap_offset(m, level, k - 1) + w);
        assert((k - 1) * q + q == k * q) by (nonlinear_arith);
        assert(gap_offset(m, level, k) <= k * q);
        assert(0 <= gap_offset(m, level, k));
    } else {
        assert(gap_offset(m, level, k) == 0);
        assert(k * ((usize::MAX as int) / (level.len() as int)) == 0);
    }
}

pub proof fn lemma_level_offsets_fit(m: GraphModel, level: Seq<usize>, k: int)
    requires
        0 <= k <= level.len(),
        forall|j: int| 0 <= j < level.len() ==> (m.width(#[trigger] level[j] as int) + 3) * level.len() <= usize::MAX,
    ensures
        0 <= gap_offset(m, level, k) <= usize::MAX,
{
    lemma_gap_offset_bound(m, level, k);
    let n = level.len() as int;
    let mx = usize::MAX as int;
    if n > 0 {
        let q = mx / n;
        vstd::arithmetic::div_mod::lemma_fundamental_div_mod(mx, n);
        vstd::arithmetic::div_mod::lemma_mod_bound(mx, n);
        assert(q >= 0) by {
            vstd::arithmetic::div_mod::lemma_div_pos_is_pos(mx, n);
        }
        assert(k * q <= n * q) by (nonlinear_arith)
            requires
                0 <= k <= n,
                q >= 0,
        ;
        assert(n * q <= mx);
    }
}

pub proof fn lemma_gap_offset_prefix(m: GraphModel, t: Seq<usize>, level: Seq<usize>, j: int)
    requires
        0 <= j <= t.len() <= level.len(),
        forall|q: int| 0 <= q < t.len() ==> #[trigger] t[q] == level[q],
    ensures
        gap_offset(m, t, j) == gap_offset(m, level, j),
    decreases j,
{
    if j > 0 {
        lemma_gap_offset_prefix(m, t, level, j - 1);
    }
}

pub proof fn lemma_pack_len(m: GraphModel, x: Seq<usize>, level: Seq<usize>)
    requires
        forall|k: int| 0 <= k < level.len() ==> #[trigger] level[k] < x.len(),
    ensures
        pack(m, x, level).len() == x.len(),
    decreases level.len(),
{
    if level.len() > 0 {
        assert(level.last() == level[level.len() - 1]);
        lemma_pack_len(m, x, level.drop_last());
    }
}

/// Ordering a level by column keeps its length and its node indices.
proof fn lemma_by_column_ok(m: GraphModel, x: Seq<usize>, level: Seq<usize>)
    requires
        forall|k: int| 0 <= k < level.len() ==> #[trigger] level[k] < m.len(),
    ensures
        by_column(x, level).len() == level.len(),
        forall|k: int| 0 <= k < level.len() ==> level.contains(#[trigger] by_column(x, level)[k]),
{
    let keyed = level.map_values(|i: usize| (x[i as int], i));
    lemma_sort_by_key(keyed);
    assert forall|k: int| 0 <= k < level.len() implies level.contains(#[trigger] by_column(x, level)[k]) by {
        lemma_sort_by_key_member(keyed, k);
        let i = keyed.index_of(sort_by_key(keyed)[k]);
        assert(level[i] == keyed[i].1);
    }
}

/// What a search that started from `visited0` and `sub0` has done to reach
/// `visited1` and `sub1`: `sub1` extends `sub0` by exactly the nodes it newly
/// marked, without repetition.
pub open spec fn collect_ok(visited0: Seq<bool>, sub0: Seq<usize>, visited1: Seq<bool>, sub1: Seq<usize>) -> bool {
    let added = sub1.skip(sub0.len() as int);
    &&& visited1.len() == visited0.len()
    &&& sub1.len() >= sub0.len()
    &&& sub1.take(sub0.len() as int) == sub0
    &&& forall|v: usize| v < visited0.len() ==> (#[trigger] visited1[v as int] <==> (visited0[v as int] || added.contains(v)))
    &&& forall|k: int| 0 <= k < added.len() ==> #[trigger] added[k] < visited0.len() && !visited0[added[k] as int]
    &&& added.no_duplicates()
}

proof fn lemma_collect_ok_trans(
    v0: Seq<bool>,
    s0: Seq<usize>,
    v1: Seq<bool>,
    s1: Seq<usize>,
    v2: Seq<bool>,
    s2: Seq<usize>,
)
    requires
        collect_ok(v0, s0, v1, s1),
        collect_ok(v1, s1, v2, s2),
    ensures
        collect_ok(v0, s0, v2, s2),
{
    let b = s0.len() as int;
    let l1 = s1.len() as int;
    let x = s1.skip(b);
    let y = s2.skip(l1);
    let z = s2.skip(b);
    assert(z =~= x + y) by {
        assert forall|k: int| 0 <= k < z.len() implies z[k] == (x + y)[k] by {
            if b + k < l1 {
                assert(s2.take(l1)[b + k] == s2[b + k]);
            }
        }
    }
    assert(s2.take(b) =~= s0) by {
        assert forall|k: int| 0 <= k < b implies s2.take(b)[k] == s0[k] by {
            assert(s2.take(l1)[k] == s2[k]);
            assert(s1.take(b)[k] == s1[k]);
        }
    }
    assert forall|v: usize| v < v0.len() implies (#[trigger] v2[v as int] <==> (v0[v as int] || z.contains(v))) by {
        if x.contains(v) {
            let q = x.index_of(v);
            assert(z[q] == v);
        }
        if y.contains(v) {
            let q = y.index_of(v);
            assert(z[x.len() + q] == v);
        }
        if z.contains(v) {
            let q = z.index_of(v);
            if q < x.len() {
                assert(x[q] == v);
            } else {
                assert(y[q - x.len()] == v);
            }
        }
    }
    assert forall|k: int| 0 <= k < z.len() implies #[trigger] z[k] < v0.len() && !v0[z[k] as int] by {
        if k < x.len() {
            assert(z[k] == x[k]);
        } else {
            assert(z[k] == y[k - x.len()]);
            assert(!v1[y[k - x.len()] as int]);
        }
    }
    assert forall|i: int, j: int| 0 <= i < z.len() && 0 <= j < z.len() && i != j implies z[i] != z[j] by {
        if i < x.len() && j >= x.len() {
            assert(z[i] == x[i] && z[j] == y[j - x.len()]);
            assert(x.contains(x[i]));
            assert(v1[x[i] as int]);
            assert(!v1[y[j - x.len()] as int]);
        } else if i >= x.len() && j < x.len() {
            assert(z[j] == x[j] && z[i] == y[i - x.len()]);
            assert(x.contains(x[j]));
            assert(v1[x[j] as int]);
            assert(!v1[y[i - x.len()] as int]);
        } else if i < x.len() {
            assert(z[i] == x[i] && z[j] == x[j]);
        } else {
            assert(z[i] == y[i - x.len()] && z[j] == y[j - x.len()]);
        }
    }
}

/// The mask of the indices below `n` that occur in `s`.
pub open spec fn member_mask(n: nat, s: Seq<usize>) -> Seq<bool> {
    Seq::new(n, |v: int| s.contains(v as usize))
}

} // verus!
