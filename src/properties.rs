//! Facts about the graph store and the renderer that hold for every input.
use crate::cycles::has_closed_walk;
use crate::graph::{decimal, node_text, GraphModel};
use crate::layout::{
    bottom_up, by_column, center_level, center_step, crossing_rounds, gap_offset, levels_fit,
    levels_ok, median_order, neighbours, pack, pack_levels, refine_level, refine_rounds,
    refine_sweep, top_down, x_layout, lemma_gap_offset_prefix, lemma_level_offsets_fit, lemma_pack_len,
};
use crate::order::{lemma_sort_payloads, median_key, payloads, sort_by_key};
use crate::connect::{
    bar_glyph, convergence_lines, divergence_lines, glyph_line, mark, simple_lines,
    Groups, CORNER_DL, CORNER_DR, CORNER_UL, CORNER_UR, H_LINE, TEE_DOWN, TEE_UP, V_LINE, ARROW_DOWN,
};
use crate::render::{
    chain_line, chain_text, cycle_header, cycle_report, group_levels, horizontal_text, is_rendering,
    lemma_group_levels, manhattan_lines, piece_lines, piece_rows, piece_text, pieces_text, plain_row,
    render_fits, row_text, spaces, sugiyama_lines, vertical_output, vertical_row, vertical_rows,
    vertical_text,
};
use vstd::prelude::*;

verus! {

/// Giving a label to a placeholder promotes it in place: the id still names
/// exactly one node, at the same index, no longer a placeholder, and its text
/// turns from `⟨id⟩` into `[label]`.
pub proof fn lemma_promotion(m: GraphModel, id: usize, label: Seq<char>)
    requires
        m.well_formed(),
        m.has_id(id),
        m.auto[m.index[id] as int],
        label.len() > 0,
    ensures
        ({
            let i = m.index[id] as int;
            let m2 = m.add_node(id, label);
            &&& m2.well_formed()
            &&& m2.len() == m.len()
            &&& m2.index[id] == i
            &&& forall|j: int| 0 <= j < m2.len() ==> (m2.ids[j] == id <==> j == i)
            &&& !m2.auto[i]
            &&& m.text(i) == seq!['⟨'] + decimal(id as nat) + seq!['⟩']
            &&& m2.text(i) == seq!['['] + label + seq![']']
        }),
{
    let i = m.index[id] as int;
    let m2 = m.add_node(id, label);
    assert(m.ids[i] == id);
    assert forall|j: int| 0 <= j < m2.len() implies (m2.ids[j] == id <==> j == i) by {
        if m2.ids[j] == id {
            assert(m.index.contains_key(m.ids[j]));
        }
    }
    crate::graph::lemma_add_node_wf_exact(m, id, label);
}

/// An edge to or from an unknown id creates a placeholder for it: a node
/// with that id, an empty label and the placeholder flag, drawn `⟨id⟩`.
pub proof fn lemma_auto_creation(m: GraphModel, from: usize, to: usize, id: usize)
    requires
        m.well_formed(),
        m.len() + 2 <= usize::MAX,
        id == from || id == to,
        !m.has_id(id),
    ensures
        ({
            let m2 = m.add_edge(from, to);
            let i = m2.index[id] as int;
            &&& m2.has_id(id)
            &&& 0 <= i < m2.len()
            &&& m2.ids[i] == id
            &&& m2.labels[i].len() == 0
            &&& m2.auto[i]
            &&& m2.text(i) == node_text(id, seq![], true)
            &&& m2.text(i) == seq!['⟨'] + decimal(id as nat) + seq!['⟩']
        }),
{
    crate::graph::lemma_add_edge_wf(m, from, to);
    let m1 = m.ensure_node(from);
    let m2 = m.add_edge(from, to);
    crate::graph::lemma_ensure_wf(m, from);
    crate::graph::lemma_ensure_wf(m1, to);
    let i = m2.index[id] as int;
    if id == from {
        assert(m1.index[id] == m.len());
        assert(m1.labels[m.len() as int] == Seq::<char>::empty());
    } else {
        if m1.has_id(id) {
            assert(from == id);
        }
        assert(m1.ensure_node(to).index[id] == m1.len());
    }
}

/// A graph with a cycle renders as the cycle report, whose first line holds
/// `CYCLE DETECTED`.
pub proof fn lemma_cycle_rendering(m: GraphModel, t: Seq<char>)
    requires
        m.len() > 0,
        has_closed_walk(m),
        is_rendering(m, t),
    ensures
        t.take(cycle_header().len() as int) == cycle_header(),
        cycle_header().subrange(4, 18) == "CYCLE DETECTED"@,
{
    assert(t == cycle_report(m, crate::cycles::first_cycle(m)));
    assert(t.take(cycle_header().len() as int) =~= cycle_header());
    reveal_strlit("⚠️  CYCLE DETECTED - Not a valid DAG\n\n");
    reveal_strlit("CYCLE DETECTED");
    assert(cycle_header().subrange(4, 18) =~= "CYCLE DETECTED"@);
}

/// `a` holds the same node indices as `b`, each once.
pub open spec fn same_nodes(a: Seq<usize>, b: Seq<usize>) -> bool {
    &&& a.len() == b.len()
    &&& a.no_duplicates()
    &&& forall|v: usize| #[trigger] a.contains(v) <==> b.contains(v)
}

/// Levels that split distinct nodes: no node twice in a level or in two
/// levels, node indices only, and narrow enough to pack.
pub open spec fn level_set_ok(m: GraphModel, lv: Seq<Seq<usize>>) -> bool {
    &&& forall|l: int| 0 <= l < lv.len() ==> (#[trigger] lv[l]).no_duplicates()
    &&& forall|a: int, k: int, b: int, j: int|
        0 <= a < lv.len() && 0 <= k < lv[a].len() && 0 <= b < lv.len() && 0 <= j < lv[b].len() && #[trigger] lv[a][k]
            == #[trigger] lv[b][j] ==> a == b
    &&& levels_ok(m, lv)
    &&& levels_fit(m, lv)
}

/// The nodes of `level` sit at their packed columns in `x`.
pub open spec fn packed(m: GraphModel, x: Seq<usize>, level: Seq<usize>) -> bool {
    forall|k: int| 0 <= k < level.len() ==> x[#[trigger] level[k] as int] == gap_offset(m, level, k)
}

/// Every level is packed.
pub open spec fn all_packed(m: GraphModel, x: Seq<usize>, lv: Seq<Seq<usize>>) -> bool {
    forall|l: int| 0 <= l < lv.len() ==> packed(m, x, #[trigger] lv[l])
}

proof fn lemma_median_order_same(m: GraphModel, level: Seq<usize>, other: Seq<usize>, by_parents: bool)
    requires
        level.no_duplicates(),
    ensures
        same_nodes(median_order(m, level, other, by_parents), level),
{
    let keyed = Seq::new(
        level.len(),
        |i: int| (median_key(neighbours(m, level[i], by_parents), other, i) as usize, level[i]),
    );
    assert(payloads(keyed) =~= level);
    lemma_sort_payloads(keyed);
    assert(median_order(m, level, other, by_parents) == payloads(sort_by_key(keyed)));
}

proof fn lemma_by_column_same(x: Seq<usize>, level: Seq<usize>)
    requires
        level.no_duplicates(),
    ensures
        same_nodes(by_column(x, level), level),
{
    let keyed = level.map_values(|i: usize| (x[i as int], i));
    assert(payloads(keyed) =~= level);
    lemma_sort_payloads(keyed);
    assert(by_column(x, level) == payloads(sort_by_key(keyed)));
}

proof fn lemma_replace_level(m: GraphModel, lv: Seq<Seq<usize>>, l: int, new: Seq<usize>)
    requires
        level_set_ok(m, lv),
        0 <= l < lv.len(),
        same_nodes(new, lv[l]),
    ensures
        level_set_ok(m, lv.update(l, new)),
{
    let r = lv.update(l, new);
    assert forall|a: int, k: int| 0 <= a < r.len() && 0 <= k < r[a].len() implies #[trigger] r[a][k] < m.len()
        && (m.width(r[a][k] as int) + 3) * r[a].len() <= usize::MAX by {
        if a == l {
            assert(new.contains(new[k]));
            let q = lv[l].index_of(new[k]);
            assert(lv[l][q] == new[k]);
        }
    }
    assert forall|a: int| 0 <= a < r.len() implies 2 * #[trigger] r[a].len() <= usize::MAX by {
        assert(r[a].len() == lv[a].len());
    }
    assert forall|a: int, k: int, b: int, j: int|
        0 <= a < r.len() && 0 <= k < r[a].len() && 0 <= b < r.len() && 0 <= j < r[b].len() && #[trigger] r[a][k]
            == #[trigger] r[b][j] implies a == b by {
        let ka = if a == l {
            assert(new.contains(new[k]));
            lv[l].index_of(new[k])
        } else {
            k
        };
        let jb = if b == l {
            assert(new.contains(new[j]));
            lv[l].index_of(new[j])
        } else {
            j
        };
        assert(lv[a][ka] == r[a][k]);
        assert(lv[b][jb] == r[b][j]);
    }
    assert forall|a: int| 0 <= a < r.len() implies (#[trigger] r[a]).no_duplicates() by {
        if a != l {
            assert(r[a] == lv[a]);
        }
    }
}

proof fn lemma_top_down_ok(m: GraphModel, lv: Seq<Seq<usize>>, k: int)
    requires
        level_set_ok(m, lv),
        k < lv.len(),
    ensures
        level_set_ok(m, top_down(m, lv, k)),
        top_down(m, lv, k).len() == lv.len(),
    decreases k,
{
    if k > 0 {
        lemma_top_down_ok(m, lv, k - 1);
        let p = top_down(m, lv, k - 1);
        lemma_median_order_same(m, p[k], p[k - 1], true);
        lemma_replace_level(m, p, k, median_order(m, p[k], p[k - 1], true));
    }
}

proof fn lemma_bottom_up_ok(m: GraphModel, lv: Seq<Seq<usize>>, k: int, max: int)
    requires
        level_set_ok(m, lv),
        0 <= k,
        max < lv.len(),
    ensures
        level_set_ok(m, bottom_up(m, lv, k, max)),
        bottom_up(m, lv, k, max).len() == lv.len(),
    decreases max - k,
{
    if k < max {
        lemma_bottom_up_ok(m, lv, k + 1, max);
        let p = bottom_up(m, lv, k + 1, max);
        lemma_median_order_same(m, p[k], p[k + 1], false);
        lemma_replace_level(m, p, k, median_order(m, p[k], p[k + 1], false));
    }
}

/// Crossing reduction keeps a set of levels well split.
pub proof fn lemma_crossing_rounds_ok(m: GraphModel, lv: Seq<Seq<usize>>, max: int, r: nat)
    requires
        level_set_ok(m, lv),
        0 <= max < lv.len(),
    ensures
        level_set_ok(m, crossing_rounds(m, lv, max, r)),
        crossing_rounds(m, lv, max, r).len() == lv.len(),
    decreases r,
{
    if r > 0 {
        lemma_crossing_rounds_ok(m, lv, max, (r - 1) as nat);
        let p = crossing_rounds(m, lv, max, (r - 1) as nat);
        lemma_top_down_ok(m, p, max);
        lemma_bottom_up_ok(m, top_down(m, p, max), 0, max);
    }
}

proof fn lemma_pack_effect(m: GraphModel, x: Seq<usize>, level: Seq<usize>)
    requires
        level.no_duplicates(),
        forall|k: int| 0 <= k < level.len() ==> #[trigger] level[k] < x.len(),
        forall|j: int| 0 <= j < level.len() ==> (m.width(#[trigger] level[j] as int) + 3) * level.len() <= usize::MAX,
    ensures
        pack(m, x, level).len() == x.len(),
        packed(m, pack(m, x, level), level),
        forall|v: int| 0 <= v < x.len() && !level.contains(v as usize) ==> #[trigger] pack(m, x, level)[v] == x[v],
    decreases level.len(),
{
    lemma_pack_len(m, x, level);
    if level.len() > 0 {
        let d = level.drop_last();
        let last = level.last();
        assert forall|j: int| 0 <= j < d.len() implies (m.width(#[trigger] d[j] as int) + 3) * d.len() <= usize::MAX by {
            assert(d[j] == level[j]);
            assert((m.width(level[j] as int) + 3) * d.len() <= (m.width(level[j] as int) + 3) * level.len()) by (nonlinear_arith)
                requires
                    d.len() <= level.len(),
            ;
        }
        assert(d.no_duplicates()) by {
            assert forall|a: int, b: int| 0 <= a < d.len() && 0 <= b < d.len() && a != b implies d[a] != d[b] by {
                assert(d[a] == level[a] && d[b] == level[b]);
            }
        }
        lemma_pack_effect(m, x, d);
        let base_x = pack(m, x, d);
        lemma_level_offsets_fit(m, level, level.len() - 1);
        assert(!d.contains(last)) by {
            if d.contains(last) {
                let q = d.index_of(last);
                assert(level[q] == level[level.len() - 1]);
            }
        }
        let p = pack(m, x, level);
        assert forall|k: int| 0 <= k < level.len() implies p[#[trigger] level[k] as int] == gap_offset(m, level, k) by {
            if k < level.len() - 1 {
                assert(level[k] == d[k]);
                assert(level[k] != last);
                lemma_gap_offset_prefix(m, d, level, k);
            }
        }
        assert forall|v: int| 0 <= v < x.len() && !level.contains(v as usize) implies #[trigger] p[v] == x[v] by {
            if d.contains(v as usize) {
                let q = d.index_of(v as usize);
                assert(level[q] == v as usize);
            }
            assert(v != last as int);
        }
    }
}

proof fn lemma_center_frame(m: GraphModel, x: Seq<usize>, level: Seq<usize>)
    requires
        forall|k: int| 0 <= k < level.len() ==> #[trigger] level[k] < x.len(),
    ensures
        center_level(m, x, level).len() == x.len(),
        forall|v: int| 0 <= v < x.len() && !level.contains(v as usize) ==> #[trigger] center_level(m, x, level)[v] == x[v],
    decreases level.len(),
{
    if level.len() > 0 {
        let d = level.drop_last();
        assert forall|k: int| 0 <= k < d.len() implies #[trigger] d[k] < x.len() by {
            assert(d[k] == level[k]);
        }
        lemma_center_frame(m, x, d);
        let c = center_level(m, x, d);
        assert forall|v: int| 0 <= v < x.len() && !level.contains(v as usize) implies #[trigger] center_level(m, x, level)[v] == x[v] by {
            if d.contains(v as usize) {
                let q = d.index_of(v as usize);
                assert(level[q] == v as usize);
            }
            assert(level[level.len() - 1] != v as usize);
        }
    }
}

proof fn lemma_packed_frame(m: GraphModel, x: Seq<usize>, y: Seq<usize>, level: Seq<usize>, other: Seq<usize>)
    requires
        packed(m, x, level),
        forall|k: int| 0 <= k < level.len() ==> #[trigger] level[k] < x.len(),
        x.len() == y.len(),
        forall|v: int| 0 <= v < x.len() && !other.contains(v as usize) ==> #[trigger] y[v] == x[v],
        forall|k: int| 0 <= k < level.len() ==> !other.contains(#[trigger] level[k]),
    ensures
        packed(m, y, level),
{
    assert forall|k: int| 0 <= k < level.len() implies y[#[trigger] level[k] as int] == gap_offset(m, level, k) by {
        let v = level[k] as int;
        assert(!other.contains(v as usize));
    }
}

proof fn lemma_refine_level_ok(m: GraphModel, x: Seq<usize>, lv: Seq<Seq<usize>>, l: int)
    requires
        level_set_ok(m, lv),
        all_packed(m, x, lv),
        x.len() == m.len(),
        0 <= l < lv.len(),
    ensures
        level_set_ok(m, refine_level(m, x, lv, l).1),
        all_packed(m, refine_level(m, x, lv, l).0, refine_level(m, x, lv, l).1),
        refine_level(m, x, lv, l).0.len() == m.len(),
        refine_level(m, x, lv, l).1.len() == lv.len(),
{
    let x1 = center_level(m, x, lv[l]);
    let ord = by_column(x1, lv[l]);
    let x2 = pack(m, x1, ord);
    let lv2 = lv.update(l, ord);
    assert forall|k: int| 0 <= k < lv[l].len() implies #[trigger] lv[l][k] < x.len() by {
        assert(lv[l][k] < m.len());
    }
    lemma_center_frame(m, x, lv[l]);
    lemma_by_column_same(x1, lv[l]);
    lemma_replace_level(m, lv, l, ord);
    assert forall|k: int| 0 <= k < ord.len() implies #[trigger] ord[k] < x1.len() by {
        assert(lv2[l][k] < m.len());
    }
    assert forall|j: int| 0 <= j < ord.len() implies (m.width(#[trigger] ord[j] as int) + 3) * ord.len() <= usize::MAX by {
        assert(lv2[l][j] == ord[j]);
    }
    lemma_pack_effect(m, x1, ord);
    assert forall|a: int| 0 <= a < lv2.len() implies packed(m, x2, #[trigger] lv2[a]) by {
        if a != l {
            assert(lv2[a] == lv[a]);
            assert(packed(m, x, lv[a]));
            assert forall|k: int| 0 <= k < lv[a].len() implies !lv[l].contains(#[trigger] lv[a][k]) by {
                if lv[l].contains(lv[a][k]) {
                    let q = lv[l].index_of(lv[a][k]);
                    assert(lv[l][q] == lv[a][k]);
                }
            }
            assert forall|k: int| 0 <= k < lv[a].len() implies #[trigger] lv[a][k] < x.len() by {
                assert(lv[a][k] < m.len());
            }
            lemma_packed_frame(m, x, x1, lv[a], lv[l]);
            assert forall|k: int| 0 <= k < lv[a].len() implies !ord.contains(#[trigger] lv[a][k]) by {
                assert(ord.contains(lv[a][k]) == lv[l].contains(lv[a][k]));
            }
            lemma_packed_frame(m, x1, x2, lv[a], ord);
        }
    }
}

proof fn lemma_refine_sweep_ok(m: GraphModel, x: Seq<usize>, lv: Seq<Seq<usize>>, k: int)
    requires
        level_set_ok(m, lv),
        all_packed(m, x, lv),
        x.len() == m.len(),
        k < lv.len(),
    ensures
        level_set_ok(m, refine_sweep(m, x, lv, k).1),
        all_packed(m, refine_sweep(m, x, lv, k).0, refine_sweep(m, x, lv, k).1),
        refine_sweep(m, x, lv, k).0.len() == m.len(),
        refine_sweep(m, x, lv, k).1.len() == lv.len(),
    decreases k,
{
    if k > 0 {
        lemma_refine_sweep_ok(m, x, lv, k - 1);
        let p = refine_sweep(m, x, lv, k - 1);
        lemma_refine_level_ok(m, p.0, p.1, k);
    }
}

proof fn lemma_refine_rounds_ok(m: GraphModel, x: Seq<usize>, lv: Seq<Seq<usize>>, max: int, r: nat)
    requires
        level_set_ok(m, lv),
        all_packed(m, x, lv),
        x.len() == m.len(),
        max < lv.len(),
    ensures
        level_set_ok(m, refine_rounds(m, x, lv, max, r).1),
        all_packed(m, refine_rounds(m, x, lv, max, r).0, refine_rounds(m, x, lv, max, r).1),
        refine_rounds(m, x, lv, max, r).0.len() == m.len(),
        refine_rounds(m, x, lv, max, r).1.len() == lv.len(),
    decreases r,
{
    if r > 0 {
        lemma_refine_rounds_ok(m, x, lv, max, (r - 1) as nat);
        let p = refine_rounds(m, x, lv, max, (r - 1) as nat);
        lemma_refine_sweep_ok(m, p.0, p.1, max);
    }
}

proof fn lemma_pack_levels_ok(m: GraphModel, x: Seq<usize>, lv: Seq<Seq<usize>>, k: int)
    requires
        level_set_ok(m, lv),
        x.len() == m.len(),
        0 <= k <= lv.len(),
    ensures
        pack_levels(m, x, lv, k).len() == m.len(),
        forall|l: int| 0 <= l < k ==> packed(m, pack_levels(m, x, lv, k), #[trigger] lv[l]),
    decreases k,
{
    if k > 0 {
        lemma_pack_levels_ok(m, x, lv, k - 1);
        let p = pack_levels(m, x, lv, k - 1);
        let lvl = lv[k - 1];
        assert forall|q: int| 0 <= q < lvl.len() implies #[trigger] lvl[q] < p.len() by {
            assert(lv[k - 1][q] < m.len());
        }
        lemma_pack_effect(m, p, lvl);
        let next_x = pack(m, p, lvl);
        assert forall|l: int| 0 <= l < k implies packed(m, next_x, #[trigger] lv[l]) by {
            if l < k - 1 {
                assert forall|q: int| 0 <= q < lv[l].len() implies !lvl.contains(#[trigger] lv[l][q]) by {
                    if lvl.contains(lv[l][q]) {
                        let z = lvl.index_of(lv[l][q]);
                        assert(lv[k - 1][z] == lv[l][q]);
                    }
                }
                assert forall|q: int| 0 <= q < lv[l].len() implies #[trigger] lv[l][q] < p.len() by {
                    assert(lv[l][q] < m.len());
                }
                lemma_packed_frame(m, p, next_x, lv[l], lvl);
            }
        }
    }
}

/// Left-to-right order: for levels that split distinct nodes, the columns
/// that the layout assigns put every level's nodes in strictly increasing
/// columns, in the level's final order, the first at column zero and each
/// next one after the previous one's width and a gap of three.
pub proof fn lemma_columns_left_to_right(m: GraphModel, lv: Seq<Seq<usize>>, max: int)
    requires
        level_set_ok(m, lv),
        0 <= max < lv.len(),
    ensures
        ({
            let r = x_layout(m, lv, max);
            &&& r.1.len() == lv.len()
            &&& forall|l: int, k: int|
                0 <= l < r.1.len() && 0 <= k < r.1[l].len() ==> r.0[#[trigger] r.1[l][k] as int] == gap_offset(m, r.1[l], k)
            &&& forall|l: int, k: int|
                0 <= l < r.1.len() && 0 <= k < r.1[l].len() - 1 ==> r.0[#[trigger] r.1[l][k] as int] < r.0[r.1[l][k + 1] as int]
        }),
{
    let x0 = Seq::new(m.len(), |i: int| 0usize);
    lemma_pack_levels_ok(m, x0, lv, lv.len() as int);
    let xp = pack_levels(m, x0, lv, lv.len() as int);
    lemma_refine_rounds_ok(m, xp, lv, max, 2);
    let r = x_layout(m, lv, max);
    assert forall|l: int, k: int| 0 <= l < r.1.len() && 0 <= k < r.1[l].len() implies r.0[#[trigger] r.1[l][k] as int]
        == gap_offset(m, r.1[l], k) by {
        assert(packed(m, r.0, r.1[l]));
    }
    assert forall|l: int, k: int| 0 <= l < r.1.len() && 0 <= k < r.1[l].len() - 1 implies r.0[#[trigger] r.1[l][k] as int]
        < r.0[r.1[l][k + 1] as int] by {
        assert(packed(m, r.0, r.1[l]));
        assert(r.0[r.1[l][k + 1] as int] == gap_offset(m, r.1[l], k + 1));
    }
}

/// The levels that the layered rendering starts from split distinct nodes,
/// and so do the levels after crossing reduction.
pub proof fn lemma_crossing_keeps_levels(m: GraphModel, lv: Seq<Seq<usize>>, max: int)
    requires
        level_set_ok(m, lv),
        0 <= max < lv.len(),
    ensures
        level_set_ok(m, crossing_rounds(m, lv, max, 4)),
{
    lemma_crossing_rounds_ok(m, lv, max, 4);
}

proof fn lemma_group_levels_distinct(pairs: Seq<(usize, usize)>, count: nat)
    requires
        payloads_first(pairs).no_duplicates(),
    ensures
        forall|l: int| 0 <= l < count ==> (#[trigger] group_levels(pairs, count)[l]).no_duplicates(),
        forall|a: int, k: int, b: int, j: int|
            0 <= a < count && 0 <= k < group_levels(pairs, count)[a].len() && 0 <= b < count && 0 <= j
                < group_levels(pairs, count)[b].len() && #[trigger] group_levels(pairs, count)[a][k]
                == #[trigger] group_levels(pairs, count)[b][j] ==> a == b && k == j,
        forall|a: int, k: int|
            0 <= a < count && 0 <= k < group_levels(pairs, count)[a].len() ==> payloads_first(pairs).contains(
                #[trigger] group_levels(pairs, count)[a][k],
            ),
    decreases pairs.len(),
{
    lemma_group_levels(pairs, count);
    if pairs.len() > 0 {
        let d = pairs.drop_last();
        assert(payloads_first(d).no_duplicates()) by {
            assert forall|a: int, b: int| 0 <= a < d.len() && 0 <= b < d.len() && a != b implies payloads_first(d)[a]
                != payloads_first(d)[b] by {
                assert(payloads_first(d)[a] == payloads_first(pairs)[a]);
                assert(payloads_first(d)[b] == payloads_first(pairs)[b]);
            }
        }
        lemma_group_levels_distinct(d, count);
        lemma_group_levels(d, count);
        let g = group_levels(d, count);
        let r = group_levels(pairs, count);
        let p = pairs.last();
        assert(!payloads_first(d).contains(p.0)) by {
            if payloads_first(d).contains(p.0) {
                let q = payloads_first(d).index_of(p.0);
                assert(payloads_first(pairs)[q] == payloads_first(pairs)[pairs.len() - 1]);
            }
        }
        assert forall|a: int, k: int| 0 <= a < count && 0 <= k < r[a].len() implies payloads_first(pairs).contains(
            #[trigger] r[a][k],
        ) by {
            if p.1 < count && a == p.1 && k == g[a].len() {
                assert(payloads_first(pairs)[pairs.len() - 1] == p.0);
            } else {
                assert(r[a][k] == g[a][k]);
                let q = payloads_first(d).index_of(g[a][k]);
                assert(payloads_first(pairs)[q] == g[a][k]);
            }
        }
        assert forall|a: int, k: int, b: int, j: int|
            0 <= a < count && 0 <= k < r[a].len() && 0 <= b < count && 0 <= j < r[b].len() && #[trigger] r[a][k]
                == #[trigger] r[b][j] implies a == b && k == j by {
            let new_a = p.1 < count && a == p.1 && k == g[a].len();
            let new_b = p.1 < count && b == p.1 && j == g[b].len();
            if !new_a {
                assert(r[a][k] == g[a][k]);
            }
            if !new_b {
                assert(r[b][j] == g[b][j]);
            }
            if new_a && !new_b {
                assert(payloads_first(d).contains(g[b][j]));
            }
            if !new_a && new_b {
                assert(payloads_first(d).contains(g[a][k]));
            }
        }
        assert forall|l: int| 0 <= l < count implies (#[trigger] r[l]).no_duplicates() by {
            assert forall|k: int, j: int| 0 <= k < r[l].len() && 0 <= j < r[l].len() && k != j implies r[l][k] != r[l][j] by {
                if r[l][k] == r[l][j] {
                    assert(r[l][k] == r[l][j]);
                }
            }
        }
    }
}

/// The first components of a list of pairs.
pub open spec fn payloads_first(s: Seq<(usize, usize)>) -> Seq<usize> {
    s.map_values(|p: (usize, usize)| p.0)
}

/// The levels of the layered rendering, grouped from one level per node,
/// split distinct nodes; with the left-to-right lemma, every level of the
/// full layout shows its nodes in strictly increasing columns.
pub proof fn lemma_vertical_levels_ok(m: GraphModel, lvs: Seq<usize>, count: nat)
    requires
        m.len() > 0,
        render_fits(m),
        lvs.len() == m.len(),
    ensures
        level_set_ok(m, group_levels(Seq::new(lvs.len(), |i: int| (i as usize, lvs[i])), count)),
{
    let pairs = Seq::new(lvs.len(), |i: int| (i as usize, lvs[i]));
    assert(payloads_first(pairs).no_duplicates()) by {
        assert forall|a: int, b: int| 0 <= a < pairs.len() && 0 <= b < pairs.len() && a != b implies payloads_first(pairs)[a]
            != payloads_first(pairs)[b] by {
            assert(payloads_first(pairs)[a] == a as usize);
            assert(payloads_first(pairs)[b] == b as usize);
        }
    }
    lemma_group_levels_distinct(pairs, count);
    lemma_group_levels(pairs, count);
    let g = group_levels(pairs, count);
    assert(m.width(0) + 3 >= 5);
    assert((m.width(0) + 3) * m.len() <= usize::MAX);
    assert(5 * m.len() <= (m.width(0) + 3) * m.len()) by (nonlinear_arith)
        requires
            m.width(0) + 3 >= 5,
    ;
    assert forall|l: int, k: int| 0 <= l < g.len() && 0 <= k < g[l].len() implies #[trigger] g[l][k] < m.len()
        && (m.width(g[l][k] as int) + 3) * g[l].len() <= usize::MAX by {
        let q = payloads_first(pairs).index_of(g[l][k]);
        assert(payloads_first(pairs)[q] == q as usize);
        let e = g[l][k] as int;
        assert((m.width(e) + 3) * m.len() <= usize::MAX);
        let len = g[l].len();
        assert((m.width(e) + 3) * len <= (m.width(e) + 3) * m.len()) by (nonlinear_arith)
            requires
                len <= m.len(),
        ;
    }
    assert forall|l: int| 0 <= l < g.len() implies 2 * #[trigger] g[l].len() <= usize::MAX by {
        assert(g[l].len() <= m.len());
    }
}

/// Text that is empty or does not start with the warning sign of the cycle report.
pub open spec fn calm_start(t: Seq<char>) -> bool {
    t.len() == 0 || t[0] != '⚠'
}

proof fn lemma_calm_concat(a: Seq<char>, b: Seq<char>)
    requires
        calm_start(a),
        calm_start(b),
    ensures
        calm_start(a + b),
{
    if a.len() > 0 {
        assert((a + b)[0] == a[0]);
    } else {
        assert(a + b =~= b);
    }
}

proof fn lemma_calm_text(m: GraphModel, i: int)
    ensures
        m.text(i).len() > 0,
        calm_start(m.text(i)),
{
    let t = m.text(i);
    if crate::graph::is_placeholder_form(m.labels[i], m.auto[i]) {
        assert(t[0] == '⟨');
    } else {
        assert(t[0] == '[');
    }
}

proof fn lemma_calm_line(lo: int, hi: int, f: spec_fn(int) -> char)
    requires
        f(lo) != '⚠',
    ensures
        calm_start(glyph_line(lo, hi, f)),
{
    let t = glyph_line(lo, hi, f);
    let body = Seq::new((hi - lo + 1) as nat, |j: int| f(lo + j));
    assert(t == body.push('\n'));
    if body.len() > 0 {
        assert(t[0] == body[0]);
        assert(body[0] == f(lo));
    } else {
        assert(t[0] == '\n');
    }
}

proof fn lemma_bar_glyph_calm(gs: Groups, i: int, left: char, right: char, tee: char, keep_bar: bool)
    requires
        left != '⚠',
        right != '⚠',
        tee != '⚠',
    ensures
        bar_glyph(gs, i, left, right, tee, keep_bar) != '⚠',
    decreases gs.len(),
{
    if gs.len() > 0 {
        lemma_bar_glyph_calm(gs.drop_last(), i, left, right, tee, keep_bar);
    }
}

proof fn lemma_calm_convergence(gs: Groups, lo: int, hi: int, keep_bar: bool)
    ensures
        calm_start(convergence_lines(gs, lo, hi, keep_bar)),
{
    lemma_bar_glyph_calm(gs, lo, CORNER_DR, CORNER_DL, TEE_UP, keep_bar);
    let a = glyph_line(lo, hi, |i: int| mark(crate::connect::in_some_group(gs, i), V_LINE));
    let b = glyph_line(lo, hi, |i: int| bar_glyph(gs, i, CORNER_DR, CORNER_DL, TEE_UP, keep_bar));
    let c = glyph_line(lo, hi, |i: int| mark(crate::connect::is_group_key(gs, i), ARROW_DOWN));
    lemma_calm_line(lo, hi, |i: int| mark(crate::connect::in_some_group(gs, i), V_LINE));
    lemma_calm_line(lo, hi, |i: int| bar_glyph(gs, i, CORNER_DR, CORNER_DL, TEE_UP, keep_bar));
    lemma_calm_line(lo, hi, |i: int| mark(crate::connect::is_group_key(gs, i), ARROW_DOWN));
    lemma_calm_concat(a, b);
    lemma_calm_concat(a + b, c);
}

proof fn lemma_calm_divergence(gs: Groups, lo: int, hi: int, keep_bar: bool)
    ensures
        calm_start(divergence_lines(gs, lo, hi, keep_bar)),
{
    lemma_bar_glyph_calm(gs, lo, CORNER_UR, CORNER_UL, TEE_DOWN, keep_bar);
    let a = glyph_line(lo, hi, |i: int| mark(crate::connect::is_group_key(gs, i), V_LINE));
    let b = glyph_line(lo, hi, |i: int| bar_glyph(gs, i, CORNER_UR, CORNER_UL, TEE_DOWN, keep_bar));
    let c = glyph_line(lo, hi, |i: int| mark(crate::connect::in_some_group(gs, i), ARROW_DOWN));
    lemma_calm_line(lo, hi, |i: int| mark(crate::connect::is_group_key(gs, i), V_LINE));
    lemma_calm_line(lo, hi, |i: int| bar_glyph(gs, i, CORNER_UR, CORNER_UL, TEE_DOWN, keep_bar));
    lemma_calm_line(lo, hi, |i: int| mark(crate::connect::in_some_group(gs, i), ARROW_DOWN));
    lemma_calm_concat(a, b);
    lemma_calm_concat(a + b, c);
}

proof fn lemma_calm_simple(conns: Seq<(usize, usize)>, lo: int, hi: int)
    ensures
        calm_start(simple_lines(conns, lo, hi)),
{
    let f1 = |i: int| mark(crate::connect::is_source(conns, i), V_LINE);
    let f2 = |i: int| mark(crate::connect::is_source(conns, i), ARROW_DOWN);
    lemma_calm_line(lo, hi, f1);
    lemma_calm_line(lo, hi, f2);
    lemma_calm_concat(glyph_line(lo, hi, f1), glyph_line(lo, hi, f2));
}

proof fn lemma_calm_manhattan(conns: Seq<(usize, usize)>)
    ensures
        calm_start(manhattan_lines(conns)),
{
    let hi = crate::render::conn_max(conns) as int;
    lemma_calm_convergence(crate::connect::groups_of(crate::connect::by_target(conns)), 0, hi, false);
    lemma_calm_divergence(crate::connect::groups_of(conns), 0, hi, false);
    lemma_calm_simple(conns, 0, hi);
}

proof fn lemma_calm_piece_lines(m: GraphModel, cur: Seq<usize>, next: Seq<usize>)
    ensures
        calm_start(piece_lines(m, cur, next)),
{
    let cc = crate::render::packed_centers(m, cur);
    let nc = crate::render::packed_centers(m, next);
    let conns = crate::render::level_conns(m, cur, cc, next, nc, cur.len() as int);
    lemma_calm_simple(conns, 0, crate::render::conn_max(conns) as int);
}

proof fn lemma_calm_spaces(n: int)
    ensures
        calm_start(spaces(n)),
{
    if spaces(n).len() > 0 {
        assert(spaces(n)[0] == ' ');
    }
}

proof fn lemma_calm_row(m: GraphModel, level: Seq<usize>, cols: Seq<usize>, k: int)
    ensures
        calm_start(row_text(m, level, cols, k)),
    decreases k,
{
    if k > 0 {
        lemma_calm_row(m, level, cols, k - 1);
        let pad = spaces(cols[k - 1] - crate::render::row_end(m, level, cols, k - 1));
        lemma_calm_spaces(cols[k - 1] - crate::render::row_end(m, level, cols, k - 1));
        lemma_calm_text(m, level[k - 1] as int);
        lemma_calm_concat(row_text(m, level, cols, k - 1), pad);
        lemma_calm_concat(row_text(m, level, cols, k - 1) + pad, m.text(level[k - 1] as int));
    }
}

proof fn lemma_calm_plain_row(m: GraphModel, level: Seq<usize>, k: int)
    ensures
        calm_start(plain_row(m, level, k)),
    decreases k,
{
    if k == 1 {
        lemma_calm_text(m, level[0] as int);
    } else if k > 1 {
        lemma_calm_plain_row(m, level, k - 1);
        reveal_strlit("   ");
        lemma_calm_concat(plain_row(m, level, k - 1), "   "@);
        lemma_calm_text(m, level[k - 1] as int);
        lemma_calm_concat(plain_row(m, level, k - 1) + "   "@, m.text(level[k - 1] as int));
    }
}

proof fn lemma_calm_chain(m: GraphModel, root: int)
    ensures
        calm_start(chain_line(m, root)),
{
    let t = chain_text(m, root, seq![], m.len() + 1);
    lemma_calm_text(m, root);
    assert(t.len() > 0 && t[0] == m.text(root)[0]) by {
        let ch = m.children[root];
        if ch.len() != 0 {
            let nxt = ch[0] as int;
            let seen2 = Seq::<int>::empty().push(root);
            let rest = if seen2.contains(nxt) {
                Seq::<char>::empty()
            } else {
                chain_text(m, nxt, seen2, (m.len() + 1 - 1) as nat)
            };
            assert(t == m.text(root) + " → "@ + rest);
            assert((m.text(root) + " → "@ + rest)[0] == m.text(root)[0]);
        }
    }
    lemma_calm_concat(t, seq!['\n']);
}

proof fn lemma_calm_vertical_rows(
    m: GraphModel,
    x: Seq<usize>,
    lv: Seq<Seq<usize>>,
    widths: Seq<usize>,
    canvas: usize,
    max: int,
    k: int,
)
    ensures
        calm_start(vertical_rows(m, x, lv, widths, canvas, max, k)),
    decreases k,
{
    if k > 0 {
        lemma_calm_vertical_rows(m, x, lv, widths, canvas, max, k - 1);
        let l = k - 1;
        if lv[l].len() != 0 {
            let off = crate::render::level_offset(canvas, widths[l]);
            let mn = crate::render::level_min_x(x, lv[l]);
            let cols = crate::render::row_cols(x, lv[l], mn, off);
            let row = row_text(m, lv[l], cols, lv[l].len() as int);
            lemma_calm_row(m, lv[l], cols, lv[l].len() as int);
            lemma_calm_concat(row, seq!['\n']);
            if l < max {
                let nxt = sugiyama_lines(m, lv[l], lv[l + 1], x, mn, off, crate::render::level_offset(canvas, widths[l + 1]));
                if !(lv[l].len() == 0 || lv[l + 1].len() == 0) {
                    let cc = crate::render::shifted_centers(m, x, lv[l], mn, off);
                    let nc = crate::render::shifted_centers(
                        m,
                        x,
                        lv[l + 1],
                        crate::render::level_min_x(x, lv[l + 1]),
                        crate::render::level_offset(canvas, widths[l + 1]),
                    );
                    lemma_calm_manhattan(crate::render::level_conns(m, lv[l], cc, lv[l + 1], nc, lv[l].len() as int));
                }
                lemma_calm_concat(row + seq!['\n'], nxt);
            } else {
                lemma_calm_concat(row + seq!['\n'], seq![]);
            }
        }
        lemma_calm_concat(
            vertical_rows(m, x, lv, widths, canvas, max, k - 1),
            vertical_row(m, x, lv, widths, canvas, max, k - 1),
        );
    }
}

proof fn lemma_calm_piece_rows(m: GraphModel, lv: Seq<Seq<usize>>, max: int, k: int)
    ensures
        calm_start(piece_rows(m, lv, max, k)),
    decreases k,
{
    if k > 0 {
        lemma_calm_piece_rows(m, lv, max, k - 1);
        let l = k - 1;
        if lv[l].len() != 0 {
            let row = plain_row(m, lv[l], lv[l].len() as int);
            lemma_calm_plain_row(m, lv[l], lv[l].len() as int);
            lemma_calm_concat(row, seq!['\n']);
            let tail = if l < max {
                piece_lines(m, lv[l], lv[l + 1])
            } else {
                seq![]
            };
            if l < max {
                lemma_calm_piece_lines(m, lv[l], lv[l + 1]);
            }
            lemma_calm_concat(row + seq!['\n'], tail);
            lemma_calm_concat(piece_rows(m, lv, max, k - 1), row + seq!['\n'] + tail);
            assert(piece_rows(m, lv, max, k) == piece_rows(m, lv, max, k - 1) + (row + seq!['\n'] + tail));
        }
    }
}

proof fn lemma_calm_pieces(m: GraphModel, subs: Seq<Seq<usize>>, k: int)
    ensures
        calm_start(pieces_text(m, subs, k)),
    decreases k,
{
    if k > 0 {
        lemma_calm_pieces(m, subs, k - 1);
        let sub = subs[k - 1];
        let lvs = crate::layout::levels_of(m, crate::layout::member_mask(m.len(), sub));
        let p = piece_text(m, sub, lvs);
        if crate::render::is_chain_set(m, sub) {
            let r = crate::render::first_root(m, sub);
            if r < sub.len() {
                lemma_calm_chain(m, sub[r] as int);
            }
        } else {
            let pairs = Seq::new(sub.len(), |j: int| (sub[j], lvs[sub[j] as int]));
            let maxl = crate::render::pairs_max(pairs);
            let lv = group_levels(pairs, (maxl + 1) as nat);
            lemma_calm_piece_rows(m, lv, maxl as int, lv.len() as int);
        }
        let sep = if k > 1 {
            seq!['\n']
        } else {
            Seq::<char>::empty()
        };
        lemma_calm_concat(pieces_text(m, subs, k - 1), sep);
        lemma_calm_concat(pieces_text(m, subs, k - 1) + sep, p);
    }
}

/// A graph without cycles never renders as the cycle report: its rendering
/// does not start with the report's warning sign, which every cycle report
/// starts with.
pub proof fn lemma_acyclic_rendering(m: GraphModel, t: Seq<char>)
    requires
        m.len() > 0,
        !has_closed_walk(m),
        is_rendering(m, t),
    ensures
        calm_start(t),
        cycle_header()[0] == '⚠',
        forall|c: Option<Seq<usize>>| t != #[trigger] cycle_report(m, c),
{
    let pieces = crate::layout::search_pieces(m);
    if crate::render::uses_horizontal(m, pieces) {
        let r = crate::render::first_root(m, crate::render::all_nodes(m.len()));
        if r < m.len() {
            lemma_calm_chain(m, r);
        } else {
            reveal_strlit("(no root)");
        }
    } else if pieces.len() > 1 {
        lemma_calm_pieces(m, pieces, pieces.len() as int);
    } else {
        let lvs = crate::layout::levels_of(m, Seq::new(m.len(), |i: int| true));
        let pairs = Seq::new(lvs.len(), |i: int| (i as usize, lvs[i]));
        let maxl = crate::render::pairs_max(pairs);
        let lv0 = group_levels(pairs, (maxl + 1) as nat);
        let lv1 = crossing_rounds(m, lv0, maxl as int, 4);
        let xl = x_layout(m, lv1, maxl as int);
        let ws = Seq::new(xl.1.len(), |l: int| crate::render::level_width(m, xl.0, xl.1[l]));
        lemma_calm_vertical_rows(m, xl.0, xl.1, ws, crate::render::max_or_zero(ws), maxl as int, xl.1.len() as int);
    }
    reveal_strlit("⚠️  CYCLE DETECTED - Not a valid DAG\n\n");
    assert forall|c: Option<Seq<usize>>| t != #[trigger] cycle_report(m, c) by {
        let r = cycle_report(m, c);
        assert(r[0] == cycle_header()[0]);
    }
}

proof fn lemma_touch_sym(m: GraphModel, a: int, b: int)
    requires
        crate::layout::touches(m, a, b),
    ensures
        crate::layout::touches(m, b, a),
{
    let e = choose|e: int| 0 <= e < m.edges.len() && #[trigger] crate::layout::edge_joins(m, e, a, b);
    assert(crate::layout::edge_joins(m, e, b, a));
}

proof fn lemma_link_reverse(m: GraphModel, u: int, v: int)
    requires
        crate::layout::linked(m, u, v),
    ensures
        crate::layout::linked(m, v, u),
{
    let w = choose|w: Seq<int>| #[trigger] crate::layout::is_link_walk(m, w) && w[0] == u && w.last() == v;
    let r = w.reverse();
    assert forall|i: int| 0 <= i < r.len() - 1 implies crate::layout::touches(m, #[trigger] r[i], r[i + 1]) by {
        let j = w.len() - 2 - i;
        assert(r[i] == w[j + 1] && r[i + 1] == w[j]);
        assert(crate::layout::touches(m, w[j], w[j + 1]));
        lemma_touch_sym(m, w[j], w[j + 1]);
    }
    assert forall|i: int| 0 <= i < r.len() implies 0 <= #[trigger] r[i] < m.len() by {
        assert(r[i] == w[w.len() - 1 - i]);
    }
    assert(crate::layout::is_link_walk(m, r));
}

proof fn lemma_link_concat(m: GraphModel, u: int, v: int, x: int)
    requires
        crate::layout::linked(m, u, v),
        crate::layout::linked(m, v, x),
    ensures
        crate::layout::linked(m, u, x),
{
    let w1 = choose|w: Seq<int>| #[trigger] crate::layout::is_link_walk(m, w) && w[0] == u && w.last() == v;
    let w2 = choose|w: Seq<int>| #[trigger] crate::layout::is_link_walk(m, w) && w[0] == v && w.last() == x;
    let w = w1 + w2.skip(1);
    assert forall|i: int| 0 <= i < w.len() implies 0 <= #[trigger] w[i] < m.len() by {
        if i < w1.len() {
            assert(w[i] == w1[i]);
        } else {
            assert(w[i] == w2[i - w1.len() + 1]);
        }
    }
    assert forall|i: int| 0 <= i < w.len() - 1 implies crate::layout::touches(m, #[trigger] w[i], w[i + 1]) by {
        if i < w1.len() - 1 {
            assert(w[i] == w1[i] && w[i + 1] == w1[i + 1]);
        } else if i == w1.len() - 1 {
            assert(w[i] == w1.last() && w[i + 1] == w2[1]);
            assert(w2[0] == v);
        } else {
            assert(w[i] == w2[i - w1.len() + 1] && w[i + 1] == w2[i - w1.len() + 2]);
        }
    }
    if w2.len() == 1 {
        assert(w =~= w1);
    } else {
        assert(w.last() == w2.last());
    }
    assert(crate::layout::is_link_walk(m, w));
}

/// The pieces the layered rendering uses are exactly the connected pieces:
/// two nodes share a piece if and only if they are connected, edges
/// followed either way.
pub proof fn lemma_pieces_are_components(m: GraphModel, subs: Seq<Seq<usize>>)
    requires
        crate::render::is_components(m, subs),
    ensures
        forall|a: int, k: int, b: int, j: int|
            0 <= a < subs.len() && 0 <= k < subs[a].len() && 0 <= b < subs.len() && 0 <= j < subs[b].len() ==> (
            crate::layout::linked(m, #[trigger] subs[a][k] as int, #[trigger] subs[b][j] as int) <==> a == b),
{
    assert forall|a: int, k: int, b: int, j: int|
        0 <= a < subs.len() && 0 <= k < subs[a].len() && 0 <= b < subs.len() && 0 <= j < subs[b].len() implies (
        crate::layout::linked(m, #[trigger] subs[a][k] as int, #[trigger] subs[b][j] as int) <==> a == b) by {
        let x = subs[a][k] as int;
        let y = subs[b][j] as int;
        let fa = subs[a][0] as int;
        let fb = subs[b][0] as int;
        assert(crate::layout::linked(m, fa, x) && subs[a][0] <= subs[a][k]);
        assert(crate::layout::linked(m, fb, y) && subs[b][0] <= subs[b][j]);
        if a == b {
            lemma_link_reverse(m, fa, x);
            lemma_link_concat(m, x, fa, y);
        }
        if crate::layout::linked(m, x, y) {
            lemma_link_concat(m, fa, x, y);
            lemma_link_reverse(m, fb, y);
            lemma_link_concat(m, fa, y, fb);
            lemma_link_reverse(m, fa, fb);
            assert(0 <= fb < m.len()) by {
                crate::render::lemma_partition_entries(m.len(), subs);
            }
            assert(0 <= fa < m.len()) by {
                crate::render::lemma_partition_entries(m.len(), subs);
            }
            assert(subs[a].contains(fb as usize));
            assert(subs[b].contains(fa as usize));
            let p = subs[a].index_of(fb as usize);
            let q = subs[b].index_of(fa as usize);
            assert(subs[a][0] <= subs[a][p]);
            assert(subs[b][0] <= subs[b][q]);
            if a < b {
                assert(subs[a][0] < subs[b][0]);
            } else if b < a {
                assert(subs[b][0] < subs[a][0]);
            }
        }
    }
}

/// The rendering is a function of the graph: two texts that both render
/// the same graph are equal, so equal builds render byte for byte alike.
pub proof fn lemma_rendering_unique(m: GraphModel, t1: Seq<char>, t2: Seq<char>)
    requires
        is_rendering(m, t1),
        is_rendering(m, t2),
    ensures
        t1 == t2,
{
}

} // verus!
