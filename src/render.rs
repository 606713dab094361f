//! Text rendering: rows of nodes, connectors between levels, chains, cycles
//! and the choice between them.
use crate::connect::{
    holds, min_max, seq_min, by_target, convergence_lines, divergence_lines, draw_convergence, draw_divergence, draw_simple,
    group_pairs, groups_of, groups_view, simple_lines, some_group_shared,
};
use crate::cycles::{first_cycle, has_closed_walk, is_id_cycle};
use crate::graph::{GraphModel, RenderMode, DAG};
use crate::layout::{
    search_pieces, pieces_connected, flatten, crossing_rounds, gap_offset, is_partition, levels_fit, levels_of, levels_ok, member_mask,
    sat_add, x_layout,
};
use crate::order::{first_index, position_of};
use vstd::prelude::*;
use vstd::string::StringExecFns;

verus! {

/// `n` blanks (none when `n` is not positive).
pub open spec fn spaces(n: int) -> Seq<char> {
    Seq::new(
        if n > 0 {
            n as nat
        } else {
            0
        },
        |i: int| ' ',
    )
}

/// The column after the first `k` nodes of a row placed at columns `cols`
/// (a node never starts left of the end of the one before it).
pub open spec fn row_end(m: GraphModel, level: Seq<usize>, cols: Seq<usize>, k: int) -> usize
    decreases k,
{
    if k <= 0 {
        0
    } else {
        let c = row_end(m, level, cols, k - 1);
        let start = if cols[k - 1] > c {
            cols[k - 1]
        } else {
            c
        };
        sat_add(start, m.width(level[k - 1] as int) as usize)
    }
}

/// The first `k` nodes of a row, each padded with blanks to its column.
pub open spec fn row_text(m: GraphModel, level: Seq<usize>, cols: Seq<usize>, k: int) -> Seq<char>
    decreases k,
{
    if k <= 0 {
        seq![]
    } else {
        row_text(m, level, cols, k - 1) + spaces(cols[k - 1] - row_end(m, level, cols, k - 1))
            + m.text(level[k - 1] as int)
    }
}

/// The first `k` nodes of a row separated by three blanks.
pub open spec fn plain_row(m: GraphModel, level: Seq<usize>, k: int) -> Seq<char>
    decreases k,
{
    if k <= 0 {
        seq![]
    } else if k == 1 {
        m.text(level[0] as int)
    } else {
        plain_row(m, level, k - 1) + "   "@ + m.text(level[k - 1] as int)
    }
}

/// The chain from node `cur`: its text, then, while there is a first child
/// not yet passed, an arrow and the chain from that child.
pub open spec fn chain_text(m: GraphModel, cur: int, seen: Seq<int>, fuel: nat) -> Seq<char>
    decreases fuel,
{
    if fuel == 0 {
        seq![]
    } else {
        let t = m.text(cur);
        let ch = m.children[cur];
        if ch.len() == 0 {
            t
        } else {
            let nxt = ch[0] as int;
            let seen2 = seen.push(cur);
            t + " → "@ + if seen2.contains(nxt) {
                seq![]
            } else {
                chain_text(m, nxt, seen2, (fuel - 1) as nat)
            }
        }
    }
}

/// The one-line rendering of the chain that starts at node `root`.
pub open spec fn chain_line(m: GraphModel, root: int) -> Seq<char> {
    chain_text(m, root, seq![], m.len() + 1) + seq!['\n']
}

/// Whether node `i` has no parent.
pub open spec fn is_root(m: GraphModel, i: int) -> bool {
    m.parents[i].len() == 0
}

/// Position in `s` of the first node without parents, or `s.len()`.
pub open spec fn first_root(m: GraphModel, s: Seq<usize>) -> int
    decreases s.len(),
{
    if s.len() == 0 {
        0
    } else if is_root(m, s[0] as int) {
        0
    } else {
        1 + first_root(m, s.drop_first())
    }
}

/// Node indices `0..n`.
pub open spec fn all_nodes(n: nat) -> Seq<usize> {
    Seq::new(n, |i: int| i as usize)
}

/// Every node of `s` has at most one parent and at most one child.
pub open spec fn is_chain_set(m: GraphModel, s: Seq<usize>) -> bool {
    forall|k: int| 0 <= k < s.len() ==> #[trigger] m.parents[s[k] as int].len() <= 1 && m.children[s[k] as int].len() <= 1
}

/// The horizontal rendering: the chain from the first root, or `(no root)`.
pub open spec fn horizontal_text(m: GraphModel) -> Seq<char> {
    let r = first_root(m, all_nodes(m.len()));
    if r < m.len() {
        chain_line(m, r)
    } else {
        "(no root)"@
    }
}

/// Centre column of node `idx` when its level is shifted by `offset` after
/// removing its leftmost column `min_x`.
pub open spec fn shifted_center(m: GraphModel, x: Seq<usize>, idx: usize, min_x: usize, offset: usize) -> usize {
    sat_add(sat_add((x[idx as int] - min_x) as usize, offset), (m.width(idx as int) / 2) as usize)
}

/// Connections of the node `idx` (centre `from`) to its first `j` children,
/// each child looked up in `next` with centres `nc`.
pub open spec fn node_conns(m: GraphModel, idx: usize, from: usize, next: Seq<usize>, nc: Seq<usize>, j: int) -> Seq<(usize, usize)>
    decreases j,
{
    if j <= 0 {
        seq![]
    } else {
        let prev = node_conns(m, idx, from, next, nc, j - 1);
        let p = first_index(next, m.children[idx as int][j - 1]);
        if p >= 0 {
            prev.push((from, nc[p]))
        } else {
            prev
        }
    }
}

/// Connections `(from_centre, to_centre)` from the first `k` nodes of `cur`
/// (centres `cc`) into `next` (centres `nc`), in node and edge order.
pub open spec fn level_conns(m: GraphModel, cur: Seq<usize>, cc: Seq<usize>, next: Seq<usize>, nc: Seq<usize>, k: int) -> Seq<(usize, usize)>
    decreases k,
{
    if k <= 0 {
        seq![]
    } else {
        level_conns(m, cur, cc, next, nc, k - 1) + node_conns(
            m,
            cur[k - 1],
            cc[k - 1],
            next,
            nc,
            m.children[cur[k - 1] as int].len() as int,
        )
    }
}

/// Greatest column of a list of connections (zero when empty).
pub open spec fn conn_max(conns: Seq<(usize, usize)>) -> usize
    decreases conns.len(),
{
    if conns.len() == 0 {
        0
    } else {
        let r = conn_max(conns.drop_last());
        let c = conns.last();
        let m = if c.0 > c.1 {
            c.0
        } else {
            c.1
        };
        if m > r {
            m
        } else {
            r
        }
    }
}

/// Least column of a non-empty list of connections.
pub open spec fn conn_min(conns: Seq<(usize, usize)>) -> usize
    decreases conns.len(),
{
    if conns.len() <= 1 {
        if conns[0].0 < conns[0].1 {
            conns[0].0
        } else {
            conns[0].1
        }
    } else {
        let r = conn_min(conns.drop_last());
        let c = conns.last();
        let m = if c.0 < c.1 {
            c.0
        } else {
            c.1
        };
        if m < r {
            m
        } else {
            r
        }
    }
}

/// The connector lines for a list of connections: three lines of
/// convergence when only targets are shared, of divergence when only
/// sources are, else two lines of drops and arrows under the sources.
pub open spec fn manhattan_lines(conns: Seq<(usize, usize)>) -> Seq<char> {
    if conns.len() == 0 {
        seq![]
    } else {
        let tg = groups_of(by_target(conns));
        let sg = groups_of(conns);
        let hi = conn_max(conns) as int;
        if some_group_shared(tg) && !some_group_shared(sg) {
            convergence_lines(tg, 0, hi, false)
        } else if some_group_shared(sg) && !some_group_shared(tg) {
            divergence_lines(sg, 0, hi, false)
        } else {
            simple_lines(conns, 0, hi)
        }
    }
}

/// Start column of the `k`-th node of a row packed from column zero with
/// gaps of three (saturating).
pub open spec fn sat_offset(m: GraphModel, level: Seq<usize>, k: int) -> usize
    decreases k,
{
    if k <= 0 {
        0
    } else {
        sat_add(sat_add(sat_offset(m, level, k - 1), m.width(level[k - 1] as int) as usize), 3)
    }
}

/// Centre columns of a row packed from column zero with gaps of three.
pub open spec fn packed_centers(m: GraphModel, level: Seq<usize>) -> Seq<usize> {
    Seq::new(level.len(), |k: int| sat_add(sat_offset(m, level, k), (m.width(level[k] as int) / 2) as usize))
}

/// The connector lines between two levels of a piece rendered on its own,
/// rows packed from column zero: a drop and an arrow under every source.
pub open spec fn piece_lines(m: GraphModel, cur: Seq<usize>, next: Seq<usize>) -> Seq<char> {
    let cc = packed_centers(m, cur);
    let nc = packed_centers(m, next);
    let conns = level_conns(m, cur, cc, next, nc, cur.len() as int);
    if cur.len() == 0 || next.len() == 0 || conns.len() == 0 {
        seq![]
    } else {
        simple_lines(conns, 0, conn_max(conns) as int)
    }
}

/// Shifted centres of the nodes of `level`.
pub open spec fn shifted_centers(m: GraphModel, x: Seq<usize>, level: Seq<usize>, min_x: usize, offset: usize) -> Seq<usize> {
    Seq::new(level.len(), |k: int| shifted_center(m, x, level[k], min_x, offset))
}

/// Leftmost column of a non-empty level.
pub open spec fn level_min_x(x: Seq<usize>, level: Seq<usize>) -> usize {
    seq_min(level.map_values(|i: usize| x[i as int]))
}

/// The connector lines between two adjacent levels of the full layout.
pub open spec fn sugiyama_lines(
    m: GraphModel,
    cur: Seq<usize>,
    next: Seq<usize>,
    x: Seq<usize>,
    cur_min_x: usize,
    cur_offset: usize,
    next_offset: usize,
) -> Seq<char> {
    if cur.len() == 0 || next.len() == 0 {
        seq![]
    } else {
        let cc = shifted_centers(m, x, cur, cur_min_x, cur_offset);
        let nc = shifted_centers(m, x, next, level_min_x(x, next), next_offset);
        manhattan_lines(level_conns(m, cur, cc, next, nc, cur.len() as int))
    }
}

/// Greatest level among `(node, level)` pairs (zero when empty).
pub open spec fn pairs_max(pairs: Seq<(usize, usize)>) -> usize
    decreases pairs.len(),
{
    if pairs.len() == 0 {
        0
    } else {
        let r = pairs_max(pairs.drop_last());
        if pairs.last().1 > r {
            pairs.last().1
        } else {
            r
        }
    }
}

/// Nodes grouped into `count` levels, each level in the order of `pairs`.
pub open spec fn group_levels(pairs: Seq<(usize, usize)>, count: nat) -> Seq<Seq<usize>>
    decreases pairs.len(),
{
    if pairs.len() == 0 {
        Seq::new(count, |l: int| Seq::<usize>::empty())
    } else {
        let g = group_levels(pairs.drop_last(), count);
        let p = pairs.last();
        if p.1 < count {
            g.update(p.1 as int, g[p.1 as int].push(p.0))
        } else {
            g
        }
    }
}

/// The node whose column is greatest among the first `k` of `level` (the
/// later one on ties).
pub open spec fn rightmost(x: Seq<usize>, level: Seq<usize>, k: int) -> usize
    decreases k,
{
    if k <= 1 {
        level[0]
    } else {
        let b = rightmost(x, level, k - 1);
        if x[level[k - 1] as int] >= x[b as int] {
            level[k - 1]
        } else {
            b
        }
    }
}

/// Width of a level: from its leftmost column to the end of its rightmost node.
pub open spec fn level_width(m: GraphModel, x: Seq<usize>, level: Seq<usize>) -> usize {
    if level.len() == 0 {
        0
    } else {
        let r = rightmost(x, level, level.len() as int);
        sat_add((x[r as int] - level_min_x(x, level)) as usize, m.width(r as int) as usize)
    }
}

/// Greatest entry (zero when empty).
pub open spec fn max_or_zero(s: Seq<usize>) -> usize
    decreases s.len(),
{
    if s.len() == 0 {
        0
    } else {
        let r = max_or_zero(s.drop_last());
        if s.last() > r {
            s.last()
        } else {
            r
        }
    }
}

/// Shift that centres a level of width `lw` on a canvas of width `canvas`.
pub open spec fn level_offset(canvas: usize, lw: usize) -> usize {
    if canvas > lw {
        ((canvas - lw) / 2) as usize
    } else {
        0
    }
}

/// Start columns of the nodes of a level after removing its leftmost column
/// and shifting by `offset`.
pub open spec fn row_cols(x: Seq<usize>, level: Seq<usize>, min_x: usize, offset: usize) -> Seq<usize> {
    Seq::new(level.len(), |k: int| sat_add((x[level[k] as int] - min_x) as usize, offset))
}

/// Level `l` of the full layout: its row, then, below all but the last
/// level, its connector lines (nothing for an empty level).
pub open spec fn vertical_row(
    m: GraphModel,
    x: Seq<usize>,
    lv: Seq<Seq<usize>>,
    widths: Seq<usize>,
    canvas: usize,
    max: int,
    l: int,
) -> Seq<char> {
    if lv[l].len() == 0 {
        seq![]
    } else {
        let off = level_offset(canvas, widths[l]);
        let mn = level_min_x(x, lv[l]);
        row_text(m, lv[l], row_cols(x, lv[l], mn, off), lv[l].len() as int) + seq!['\n'] + if l < max {
            sugiyama_lines(m, lv[l], lv[l + 1], x, mn, off, level_offset(canvas, widths[l + 1]))
        } else {
            seq![]
        }
    }
}

/// The first `k` levels of the full layout.
pub open spec fn vertical_rows(
    m: GraphModel,
    x: Seq<usize>,
    lv: Seq<Seq<usize>>,
    widths: Seq<usize>,
    canvas: usize,
    max: int,
    k: int,
) -> Seq<char>
    decreases k,
{
    if k <= 0 {
        seq![]
    } else {
        vertical_rows(m, x, lv, widths, canvas, max, k - 1) + vertical_row(m, x, lv, widths, canvas, max, k - 1)
    }
}

/// The full layered rendering of a connected graph with levels `lvs`:
/// levels grouped, crossings reduced, columns assigned, each level centred
/// on the widest one.
pub open spec fn vertical_text(m: GraphModel, lvs: Seq<usize>) -> Seq<char> {
    let pairs = Seq::new(lvs.len(), |i: int| (i as usize, lvs[i]));
    let maxl = pairs_max(pairs);
    let lv0 = group_levels(pairs, (maxl + 1) as nat);
    let lv1 = crossing_rounds(m, lv0, maxl as int, 4);
    let xl = x_layout(m, lv1, maxl as int);
    let ws = Seq::new(xl.1.len(), |l: int| level_width(m, xl.0, xl.1[l]));
    vertical_rows(m, xl.0, xl.1, ws, max_or_zero(ws), maxl as int, xl.1.len() as int)
}

/// The first `k` levels of a piece rendered on its own.
pub open spec fn piece_rows(m: GraphModel, lv: Seq<Seq<usize>>, max: int, k: int) -> Seq<char>
    decreases k,
{
    if k <= 0 {
        seq![]
    } else {
        let l = k - 1;
        let prev = piece_rows(m, lv, max, k - 1);
        if lv[l].len() == 0 {
            prev
        } else {
            prev + plain_row(m, lv[l], lv[l].len() as int) + seq!['\n'] + if l < max {
                piece_lines(m, lv[l], lv[l + 1])
            } else {
                seq![]
            }
        }
    }
}

/// The rendering of one piece `sub` whose nodes have levels `lvs`: a chain
/// from its first root when it is a simple chain, else its levels as rows
/// separated by three blanks with the simple connector lines.
pub open spec fn piece_text(m: GraphModel, sub: Seq<usize>, lvs: Seq<usize>) -> Seq<char> {
    if is_chain_set(m, sub) {
        let r = first_root(m, sub);
        if r < sub.len() {
            chain_line(m, sub[r] as int)
        } else {
            seq![]
        }
    } else {
        let pairs = Seq::new(sub.len(), |k: int| (sub[k], lvs[sub[k] as int]));
        let maxl = pairs_max(pairs);
        let lv = group_levels(pairs, (maxl + 1) as nat);
        piece_rows(m, lv, maxl as int, lv.len() as int)
    }
}

/// The first `k` pieces, each rendered on its own, separated by a line break.
pub open spec fn pieces_text(m: GraphModel, subs: Seq<Seq<usize>>, k: int) -> Seq<char>
    decreases k,
{
    if k <= 0 {
        seq![]
    } else {
        pieces_text(m, subs, k - 1) + (if k > 1 {
            seq!['\n']
        } else {
            seq![]
        }) + piece_text(m, subs[k - 1], levels_of(m, member_mask(m.len(), subs[k - 1])))
    }
}

/// The layered rendering: piece by piece when the graph falls into several
/// pieces `subs`, else the full layout.
pub open spec fn vertical_output(m: GraphModel, subs: Seq<Seq<usize>>) -> Seq<char> {
    if subs.len() > 1 {
        pieces_text(m, subs, subs.len() as int)
    } else {
        vertical_text(m, levels_of(m, Seq::new(m.len(), |i: int| true)))
    }
}

/// The header of the cycle report.
pub open spec fn cycle_header() -> Seq<char> {
    "⚠️  CYCLE DETECTED - Not a valid DAG\n\n"@
}

/// Node `i` of the cycle `c`, with the arrow after it: `→` to the next
/// node, or `⇄` and the first node again after the last one.
pub open spec fn cycle_piece(m: GraphModel, c: Seq<usize>, i: int) -> Seq<char> {
    m.text(m.index[c[i]] as int) + if i < c.len() - 1 {
        " → "@
    } else {
        " ⇄ "@ + m.text(m.index[c[0]] as int)
    }
}

/// A cycle of ids as `[A] → [B] ⇄ [A]`.
pub open spec fn cycle_chain(m: GraphModel, c: Seq<usize>, k: int) -> Seq<char>
    decreases k,
{
    if k <= 0 {
        seq![]
    } else {
        cycle_chain(m, c, k - 1) + cycle_piece(m, c, k - 1)
    }
}

/// The part of the cycle report after its header.
pub open spec fn cycle_body(m: GraphModel, c: Option<Seq<usize>>) -> Seq<char> {
    match c {
        Some(c) => "Cyclic dependency chain:\n"@ + cycle_chain(m, c, c.len() as int) + "\n\n"@
            + "This creates an infinite loop in error dependencies.\n"@,
        None => "Complex cycle detected in graph.\n"@,
    }
}

/// The cycle report for the cycle `c`, or the fallback when none was found.
pub open spec fn cycle_report(m: GraphModel, c: Option<Seq<usize>>) -> Seq<char> {
    cycle_header() + cycle_body(m, c)
}

/// Every piece of `subs` starts at a smaller node than the next one.
pub open spec fn firsts_ascending(subs: Seq<Seq<usize>>) -> bool {
    forall|a: int, b: int| 0 <= a < b < subs.len() ==> #[trigger] subs[a][0] < #[trigger] subs[b][0]
}

/// Every node is narrow enough for a level of all nodes to pack within `usize`.
pub open spec fn render_fits(m: GraphModel) -> bool {
    &&& m.len() < usize::MAX
    &&& forall|i: int| 0 <= i < m.len() ==> (#[trigger] m.width(i) + 3) * m.len() <= usize::MAX
}

/// The mode that the layout uses: horizontal when asked for, or, in
/// automatic mode, for a single piece whose nodes all have at most one
/// parent and one child.
pub open spec fn uses_horizontal(m: GraphModel, subs: Seq<Seq<usize>>) -> bool {
    m.mode == RenderMode::Horizontal || (m.mode == RenderMode::Auto && subs.len() <= 1 && is_chain_set(
        m,
        all_nodes(m.len()),
    ))
}

/// `t` is the rendering of the graph: `Empty DAG` for no nodes; the cycle
/// report of the cycle that the search from each node in turn meets first,
/// for a graph with a cycle; otherwise the horizontal or the layered
/// rendering, chosen by the mode, over the graph's connected pieces as the
/// search for pieces lists them.
pub open spec fn is_rendering(m: GraphModel, t: Seq<char>) -> bool {
    if m.len() == 0 {
        t == "Empty DAG"@
    } else if has_closed_walk(m) {
        t == cycle_report(m, first_cycle(m))
    } else {
        t == if uses_horizontal(m, search_pieces(m)) {
            horizontal_text(m)
        } else {
            vertical_output(m, search_pieces(m))
        }
    }
}

/// `subs` are the connected pieces of the graph, each in search order,
/// ordered by their smallest node.
pub open spec fn is_components(m: GraphModel, subs: Seq<Seq<usize>>) -> bool {
    &&& is_partition(m.len(), subs)
    &&& firsts_ascending(subs)
    &&& pieces_connected(m, subs)
}

/// Appends the characters of `s`.
pub fn push_str(out: &mut Vec<char>, s: &str)
    ensures
        final(out)@ == old(out)@ + s@,
{
    let n = s.unicode_len();
    let mut k: usize = 0;
    while k < n
        invariant
            n == s@.len(),
            k <= n,
            out@ == old(out)@ + s@.take(k as int),
        decreases n - k,
    {
        out.push(s.get_char(k));
        k = k + 1;
        assert(out@ =~= old(out)@ + s@.take(k as int));
    }
    assert(s@.take(n as int) =~= s@);
}

impl DAG {
    /// Appends a row of nodes placed at the given columns, then a line break.
    pub fn write_row(&self, out: &mut Vec<char>, level: &Vec<usize>, cols: &Vec<usize>)
        requires
            self.wf(),
            cols@.len() == level@.len(),
            forall|k: int| 0 <= k < level@.len() ==> #[trigger] level@[k] < self@.len(),
        ensures
            final(out)@ == old(out)@ + row_text(self@, level@, cols@, level@.len() as int) + seq!['\n'],
    {
        let ghost m = self@;
        let mut current_col: usize = 0;
        let mut k: usize = 0;
        while k < level.len()
            invariant
                self.wf(),
                m == self@,
                cols@.len() == level@.len(),
                forall|j: int| 0 <= j < level@.len() ==> #[trigger] level@[j] < m.len(),
                k <= level@.len(),
                current_col == row_end(m, level@, cols@, k as int),
                out@ == old(out)@ + row_text(m, level@, cols@, k as int),
            decreases level@.len() - k,
        {
            let idx = level[k];
            let col = cols[k];
            let ghost before = out@;
            let start = current_col;
            while current_col < col
                invariant
                    start <= current_col,
                    current_col <= col || current_col == start,
                    out@ == before + spaces(current_col - start),
                decreases col - current_col,
            {
                out.push(' ');
                current_col = current_col + 1;
                assert(out@ =~= before + spaces(current_col - start));
            }
            proof {
                assert(spaces(current_col - start) =~= spaces(col - start));
            }
            self.write_node(out, idx);
            let w = self.get_node_width(idx);
            current_col = if current_col <= usize::MAX - w {
                current_col + w
            } else {
                usize::MAX
            };
            k = k + 1;
            proof {
                assert(out@ =~= old(out)@ + row_text(m, level@, cols@, k as int));
            }
        }
        out.push('\n');
    }

    /// Appends the nodes of `level` separated by three blanks, then a line break.
    pub fn write_plain_row(&self, out: &mut Vec<char>, level: &Vec<usize>)
        requires
            self.wf(),
            forall|k: int| 0 <= k < level@.len() ==> #[trigger] level@[k] < self@.len(),
        ensures
            final(out)@ == old(out)@ + plain_row(self@, level@, level@.len() as int) + seq!['\n'],
    {
        let ghost m = self@;
        let mut k: usize = 0;
        while k < level.len()
            invariant
                self.wf(),
                m == self@,
                forall|j: int| 0 <= j < level@.len() ==> #[trigger] level@[j] < m.len(),
                k <= level@.len(),
                out@ == old(out)@ + plain_row(m, level@, k as int),
            decreases level@.len() - k,
        {
            if k > 0 {
                push_str(out, "   ");
            }
            self.write_node(out, level[k]);
            k = k + 1;
            assert(out@ =~= old(out)@ + plain_row(m, level@, k as int));
        }
        out.push('\n');
    }

    /// Connections from the nodes of `cur` (with the given `froms`) into
    /// `next` (centres `nc`), in node and edge order.
    fn collect_conns(&self, cur: &Vec<usize>, froms: &Vec<usize>, next: &Vec<usize>, nc: &Vec<usize>) -> (r: Vec<(usize, usize)>)
        requires
            self.wf(),
            froms@.len() == cur@.len(),
            nc@.len() == next@.len(),
            forall|k: int| 0 <= k < cur@.len() ==> #[trigger] cur@[k] < self@.len(),
        ensures
            r@ == level_conns(self@, cur@, froms@, next@, nc@, cur@.len() as int),
    {
        let ghost m = self@;
        let mut r: Vec<(usize, usize)> = Vec::new();
        let mut k: usize = 0;
        while k < cur.len()
            invariant
                self.wf(),
                m == self@,
                froms@.len() == cur@.len(),
                nc@.len() == next@.len(),
                forall|j: int| 0 <= j < cur@.len() ==> #[trigger] cur@[j] < m.len(),
                k <= cur@.len(),
                r@ == level_conns(m, cur@, froms@, next@, nc@, k as int),
            decreases cur@.len() - k,
        {
            let idx = cur[k];
            let from = froms[k];
            let children = self.get_children_indices(idx);
            let ghost base = r@;
            let mut j: usize = 0;
            while j < children.len()
                invariant
                    self.wf(),
                    m == self@,
                    idx < m.len(),
                    children@ == m.children[idx as int],
                    nc@.len() == next@.len(),
                    j <= children@.len(),
                    r@ == base + node_conns(m, idx, from, next@, nc@, j as int),
                decreases children@.len() - j,
            {
                proof {
                    lemma_first_index_bound(next@, children@[j as int]);
                }
                let ghost before = r@;
                let ghost p_spec = first_index(next@, m.children[idx as int][j as int]);
                match position_of(next, children[j]) {
                    Some(p) => {
                        assert(next.len() == next@.len());
                        assert(p as int == p_spec);
                        r.push((from, nc[p]));
                        assert(r@ == before.push((from, nc@[p_spec])));
                    },
                    None => {},
                }
                proof {
                    assert(node_conns(m, idx, from, next@, nc@, j as int + 1) == (if p_spec >= 0 {
                        node_conns(m, idx, from, next@, nc@, j as int).push((from, nc@[p_spec]))
                    } else {
                        node_conns(m, idx, from, next@, nc@, j as int)
                    }));
                }
                j = j + 1;
                assert(r@ =~= base + node_conns(m, idx, from, next@, nc@, j as int));
            }
            k = k + 1;
            assert(r@ =~= level_conns(m, cur@, froms@, next@, nc@, k as int));
        }
        r
    }

    /// Appends the connector lines between two adjacent levels of the full
    /// layout: centres shifted by each level's centring offset, connections
    /// grouped by target and by source, and the lines of the pattern found.
    pub fn draw_connections_sugiyama(
        &self,
        out: &mut Vec<char>,
        current_nodes: &Vec<usize>,
        next_nodes: &Vec<usize>,
        x_coords: &Vec<usize>,
        current_min_x: usize,
        current_offset: usize,
        next_offset: usize,
    )
        requires
            self.wf(),
            x_coords@.len() == self@.len(),
            forall|k: int| 0 <= k < current_nodes@.len() ==> #[trigger] current_nodes@[k] < self@.len(),
            forall|k: int| 0 <= k < next_nodes@.len() ==> #[trigger] next_nodes@[k] < self@.len(),
            forall|k: int| 0 <= k < current_nodes@.len() ==> x_coords@[#[trigger] current_nodes@[k] as int] >= current_min_x,
        ensures
            final(out)@ == old(out)@ + sugiyama_lines(
                self@,
                current_nodes@,
                next_nodes@,
                x_coords@,
                current_min_x,
                current_offset,
                next_offset,
            ),
    {
        let ghost m = self@;
        if current_nodes.len() == 0 || next_nodes.len() == 0 {
            return;
        }
        let cc = self.centers_of(current_nodes, x_coords, current_min_x, current_offset);
        let next_min_x = self.min_x_of(next_nodes, x_coords);
        let nc = self.centers_of(next_nodes, x_coords, next_min_x, next_offset);
        let conns = self.collect_conns(current_nodes, &cc, next_nodes, &nc);
        draw_manhattan(out, &conns);
    }

    /// Shifted centres of the nodes of `level`.
    fn centers_of(&self, level: &Vec<usize>, x: &Vec<usize>, min_x: usize, offset: usize) -> (r: Vec<usize>)
        requires
            self.wf(),
            x@.len() == self@.len(),
            forall|k: int| 0 <= k < level@.len() ==> #[trigger] level@[k] < self@.len(),
            forall|k: int| 0 <= k < level@.len() ==> x@[#[trigger] level@[k] as int] >= min_x,
        ensures
            r@ == shifted_centers(self@, x@, level@, min_x, offset),
    {
        let ghost m = self@;
        let mut r: Vec<usize> = Vec::new();
        let mut k: usize = 0;
        while k < level.len()
            invariant
                self.wf(),
                m == self@,
                x@.len() == m.len(),
                forall|j: int| 0 <= j < level@.len() ==> #[trigger] level@[j] < m.len(),
                forall|j: int| 0 <= j < level@.len() ==> x@[#[trigger] level@[j] as int] >= min_x,
                k <= level@.len(),
                r@ == Seq::new(k as nat, |j: int| shifted_center(m, x@, level@[j], min_x, offset)),
            decreases level@.len() - k,
        {
            let idx = level[k];
            let a = x[idx] - min_x;
            let b = if a <= usize::MAX - offset {
                a + offset
            } else {
                usize::MAX
            };
            let half = self.get_node_width(idx) / 2;
            let c = if b <= usize::MAX - half {
                b + half
            } else {
                usize::MAX
            };
            r.push(c);
            k = k + 1;
            assert(r@ =~= Seq::new(k as nat, |j: int| shifted_center(m, x@, level@[j], min_x, offset)));
        }
        r
    }

    /// Leftmost column of a non-empty level.
    fn min_x_of(&self, level: &Vec<usize>, x: &Vec<usize>) -> (r: usize)
        requires
            level@.len() > 0,
            forall|k: int| 0 <= k < level@.len() ==> #[trigger] level@[k] < x@.len(),
        ensures
            r == level_min_x(x@, level@),
            forall|k: int| 0 <= k < level@.len() ==> x@[#[trigger] level@[k] as int] >= r,
    {
        let mut xs: Vec<usize> = Vec::new();
        let mut k: usize = 0;
        while k < level.len()
            invariant
                k <= level@.len(),
                forall|j: int| 0 <= j < level@.len() ==> #[trigger] level@[j] < x@.len(),
                xs@ == level@.take(k as int).map_values(|i: usize| x@[i as int]),
            decreases level@.len() - k,
        {
            xs.push(x[level[k]]);
            k = k + 1;
            assert(xs@ =~= level@.take(k as int).map_values(|i: usize| x@[i as int]));
        }
        assert(level@.take(level@.len() as int) =~= level@);
        let (lo, _) = min_max(&xs);
        proof {
            assert forall|k: int| 0 <= k < level@.len() implies x@[#[trigger] level@[k] as int] >= lo by {
                lemma_seq_min_le(xs@, k);
            }
        }
        lo
    }

    /// Appends the connector lines between two levels of a piece rendered on its own.
    pub fn draw_vertical_connections(&self, out: &mut Vec<char>, current_nodes: &Vec<usize>, next_nodes: &Vec<usize>)
        requires
            self.wf(),
            forall|k: int| 0 <= k < current_nodes@.len() ==> #[trigger] current_nodes@[k] < self@.len(),
            forall|k: int| 0 <= k < next_nodes@.len() ==> #[trigger] next_nodes@[k] < self@.len(),
        ensures
            final(out)@ == old(out)@ + piece_lines(self@, current_nodes@, next_nodes@),
    {
        let ghost m = self@;
        let cc = self.packed_centers_of(current_nodes);
        let nc = self.packed_centers_of(next_nodes);
        let conns = self.collect_conns(current_nodes, &cc, next_nodes, &nc);
        if current_nodes.len() == 0 || next_nodes.len() == 0 || conns.len() == 0 {
            return;
        }
        let (_, hi) = conn_extent(&conns);
        draw_simple(out, &conns, 0, hi);
    }

    /// Centre columns of a row packed from column zero with gaps of three.
    fn packed_centers_of(&self, level: &Vec<usize>) -> (r: Vec<usize>)
        requires
            self.wf(),
            forall|k: int| 0 <= k < level@.len() ==> #[trigger] level@[k] < self@.len(),
        ensures
            r@ == packed_centers(self@, level@),
    {
        let ghost m = self@;
        let mut r: Vec<usize> = Vec::new();
        let mut pos: usize = 0;
        let mut k: usize = 0;
        while k < level.len()
            invariant
                self.wf(),
                m == self@,
                forall|j: int| 0 <= j < level@.len() ==> #[trigger] level@[j] < m.len(),
                k <= level@.len(),
                pos == sat_offset(m, level@, k as int),
                r@ == Seq::new(k as nat, |j: int| sat_add(sat_offset(m, level@, j), (m.width(level@[j] as int) / 2) as usize)),
            decreases level@.len() - k,
        {
            let w = self.get_node_width(level[k]);
            let half = w / 2;
            let c = if pos <= usize::MAX - half {
                pos + half
            } else {
                usize::MAX
            };
            r.push(c);
            let after_width = if pos <= usize::MAX - w {
                pos + w
            } else {
                usize::MAX
            };
            pos = if after_width <= usize::MAX - 3 {
                after_width + 3
            } else {
                usize::MAX
            };
            k = k + 1;
            assert(r@ =~= Seq::new(k as nat, |j: int| sat_add(sat_offset(m, level@, j), (m.width(level@[j] as int) / 2) as usize)));
        }
        r
    }

    /// Greatest level among `(node, level)` pairs, and the nodes grouped by level.
    fn group_into_levels(&self, pairs: &Vec<(usize, usize)>) -> (r: (usize, Vec<Vec<usize>>))
        requires
            self.wf(),
            self@.len() < usize::MAX,
            forall|k: int| 0 <= k < pairs@.len() ==> #[trigger] pairs@[k].1 <= self@.len(),
        ensures
            r.0 == pairs_max(pairs@),
            r.1@.map_values(|v: Vec<usize>| v@) == group_levels(pairs@, (r.0 + 1) as nat),
            r.1@.len() == r.0 + 1,
    {
        let mut maxl: usize = 0;
        let mut k: usize = 0;
        while k < pairs.len()
            invariant
                k <= pairs@.len(),
                maxl == pairs_max(pairs@.take(k as int)),
            decreases pairs@.len() - k,
        {
            proof {
                assert(pairs@.take(k as int + 1).drop_last() =~= pairs@.take(k as int));
            }
            if pairs[k].1 > maxl {
                maxl = pairs[k].1;
            }
            k = k + 1;
        }
        assert(pairs@.take(pairs@.len() as int) =~= pairs@);
        proof {
            lemma_pairs_max_bound(pairs@, self@.len());
        }
        let count = maxl + 1;
        let mut levels: Vec<Vec<usize>> = Vec::new();
        let mut l: usize = 0;
        while l < count
            invariant
                l <= count,
                levels@.len() == l,
                forall|j: int| 0 <= j < l ==> #[trigger] levels@[j]@ == Seq::<usize>::empty(),
            decreases count - l,
        {
            let e: Vec<usize> = Vec::new();
            assert(e@ =~= Seq::<usize>::empty());
            levels.push(e);
            l = l + 1;
        }
        assert(levels@.map_values(|v: Vec<usize>| v@) =~= group_levels(pairs@.take(0), count as nat));
        let mut k: usize = 0;
        while k < pairs.len()
            invariant
                k <= pairs@.len(),
                levels@.len() == count,
                levels@.map_values(|v: Vec<usize>| v@) == group_levels(pairs@.take(k as int), count as nat),
            decreases pairs@.len() - k,
        {
            let ghost g = levels@.map_values(|v: Vec<usize>| v@);
            let (idx, lvl) = pairs[k];
            if lvl < count {
                levels[lvl].push(idx);
            }
            proof {
                let t = pairs@.take(k as int + 1);
                assert(t.drop_last() =~= pairs@.take(k as int));
                assert(levels@.map_values(|v: Vec<usize>| v@) =~= group_levels(t, count as nat));
            }
            k = k + 1;
        }
        assert(pairs@.take(pairs@.len() as int) =~= pairs@);
        (maxl, levels)
    }

    /// Width of each level, and the greatest of them.
    pub fn calculate_canvas_dimensions(&self, levels: &Vec<Vec<usize>>, x_coords: &Vec<usize>) -> (r: (Vec<usize>, usize))
        requires
            self.wf(),
            x_coords@.len() == self@.len(),
            forall|l: int, k: int| 0 <= l < levels@.len() && 0 <= k < levels@[l]@.len() ==> #[trigger] levels@[l]@[k] < self@.len(),
        ensures
            r.0@ == Seq::new(levels@.len(), |l: int| level_width(self@, x_coords@, levels@[l]@)),
            r.1 == max_or_zero(r.0@),
    {
        let ghost m = self@;
        let mut widths: Vec<usize> = Vec::new();
        let mut max_width: usize = 0;
        let mut l: usize = 0;
        while l < levels.len()
            invariant
                self.wf(),
                m == self@,
                x_coords@.len() == m.len(),
                forall|a: int, k: int| 0 <= a < levels@.len() && 0 <= k < levels@[a]@.len() ==> #[trigger] levels@[a]@[k] < m.len(),
                l <= levels@.len(),
                widths@ == Seq::new(l as nat, |a: int| level_width(m, x_coords@, levels@[a]@)),
                max_width == max_or_zero(widths@),
            decreases levels@.len() - l,
        {
            let level = &levels[l];
            let w = if level.len() == 0 {
                0
            } else {
                proof {
                    assert forall|k: int| 0 <= k < level@.len() implies #[trigger] level@[k] < x_coords@.len() by {
                        assert(levels@[l as int]@[k] < m.len());
                    }
                }
                let min_x = self.min_x_of(level, x_coords);
                let mut best = level[0];
                let mut k: usize = 1;
                while k < level.len()
                    invariant
                        1 <= k <= level@.len(),
                        forall|j: int| 0 <= j < level@.len() ==> #[trigger] level@[j] < x_coords@.len(),
                        best == rightmost(x_coords@, level@, k as int),
                        level@.contains(best),
                    decreases level@.len() - k,
                {
                    if x_coords[level[k]] >= x_coords[best] {
                        best = level[k];
                    }
                    k = k + 1;
                }
                proof {
                    let q = level@.index_of(best);
                    assert(x_coords@[level@[q] as int] >= min_x);
                    assert(level@[q] < m.len());
                }
                let span = x_coords[best] - min_x;
                let bw = self.get_node_width(best);
                if span <= usize::MAX - bw {
                    span + bw
                } else {
                    usize::MAX
                }
            };
            let ghost before = widths@;
            widths.push(w);
            if w > max_width {
                max_width = w;
            }
            l = l + 1;
            proof {
                assert(widths@.drop_last() =~= before);
                assert(widths@ =~= Seq::new(l as nat, |a: int| level_width(m, x_coords@, levels@[a]@)));
            }
        }
        (widths, max_width)
    }

    /// Appends the rendering of one piece of a graph made of several.
    pub fn render_subgraph(&self, out: &mut Vec<char>, subgraph_indices: &Vec<usize>)
        requires
            self.wf(),
            self@.len() < usize::MAX,
            !has_closed_walk(self@),
            forall|k: int| 0 <= k < subgraph_indices@.len() ==> #[trigger] subgraph_indices@[k] < self@.len(),
        ensures
            final(out)@ == old(out)@ + piece_text(
                self@,
                subgraph_indices@,
                levels_of(self@, member_mask(self@.len(), subgraph_indices@)),
            ),
    {
        let ghost m = self@;
        let ghost lvs = levels_of(m, member_mask(m.len(), subgraph_indices@));
        let level_data = self.calculate_levels_for_subgraph(subgraph_indices);
        proof {
            assert forall|k: int| 0 <= k < level_data@.len() implies #[trigger] level_data@[k] == (subgraph_indices@[k], lvs[subgraph_indices@[k] as int]) by {
                assert(level_data@[k].0 == subgraph_indices@[k]);
                assert(level_data@[k].1 == lvs[level_data@[k].0 as int]);
            }
            assert(level_data@ =~= Seq::new(subgraph_indices@.len(), |k: int| (subgraph_indices@[k], lvs[subgraph_indices@[k] as int])));
        }
        if self.is_subgraph_simple_chain(subgraph_indices) {
            let mut k: usize = 0;
            while k < subgraph_indices.len() && self.get_parents_indices(subgraph_indices[k]).len() != 0
                invariant
                    self.wf(),
                    m == self@,
                    forall|j: int| 0 <= j < subgraph_indices@.len() ==> #[trigger] subgraph_indices@[j] < m.len(),
                    k <= subgraph_indices@.len(),
                    forall|j: int| 0 <= j < k ==> !is_root(m, #[trigger] subgraph_indices@[j] as int),
                decreases subgraph_indices@.len() - k,
            {
                k = k + 1;
            }
            proof {
                lemma_first_root(m, subgraph_indices@, k as int);
            }
            if k < subgraph_indices.len() {
                self.write_chain(out, subgraph_indices[k]);
            } else {
                assert(out@ =~= old(out)@ + seq![]);
            }
            return;
        }
        let (max_level, levels) = self.group_into_levels(&level_data);
        let ghost lv = levels@.map_values(|v: Vec<usize>| v@);
        proof {
            lemma_group_levels(level_data@, (max_level + 1) as nat);
        }
        let mut l: usize = 0;
        while l < levels.len()
            invariant
                self.wf(),
                m == self@,
                lv == levels@.map_values(|v: Vec<usize>| v@),
                levels@.len() == max_level + 1,
                l <= levels@.len(),
                forall|a: int, k: int| 0 <= a < lv.len() && 0 <= k < lv[a].len() ==> #[trigger] lv[a][k] < m.len(),
                out@ == old(out)@ + piece_rows(m, lv, max_level as int, l as int),
            decreases levels@.len() - l,
        {
            let ghost before = out@;
            if levels[l].len() > 0 {
                proof {
                    assert forall|k: int| 0 <= k < levels@[l as int]@.len() implies #[trigger] levels@[l as int]@[k] < m.len() by {
                        assert(lv[l as int][k] == levels@[l as int]@[k]);
                    }
                }
                self.write_plain_row(out, &levels[l]);
                if l < max_level {
                    proof {
                        assert forall|k: int| 0 <= k < levels@[l + 1]@.len() implies #[trigger] levels@[l + 1]@[k] < m.len() by {
                            assert(lv[l + 1][k] == levels@[l + 1]@[k]);
                        }
                    }
                    self.draw_vertical_connections(out, &levels[l], &levels[l + 1]);
                }
            }
            l = l + 1;
            proof {
                assert(out@ =~= old(out)@ + piece_rows(m, lv, max_level as int, l as int));
            }
        }
    }

    /// Whether every node of the piece has at most one parent and one child.
    pub fn is_subgraph_simple_chain(&self, subgraph_indices: &Vec<usize>) -> (r: bool)
        requires
            self.wf(),
            forall|k: int| 0 <= k < subgraph_indices@.len() ==> #[trigger] subgraph_indices@[k] < self@.len(),
        ensures
            r == is_chain_set(self@, subgraph_indices@),
    {
        let ghost m = self@;
        let mut k: usize = 0;
        while k < subgraph_indices.len()
            invariant
                self.wf(),
                m == self@,
                forall|j: int| 0 <= j < subgraph_indices@.len() ==> #[trigger] subgraph_indices@[j] < m.len(),
                k <= subgraph_indices@.len(),
                forall|j: int| 0 <= j < k ==> #[trigger] m.parents[subgraph_indices@[j] as int].len() <= 1
                    && m.children[subgraph_indices@[j] as int].len() <= 1,
            decreases subgraph_indices@.len() - k,
        {
            let idx = subgraph_indices[k];
            if self.get_parents_indices(idx).len() > 1 || self.get_children_indices(idx).len() > 1 {
                return false;
            }
            k = k + 1;
        }
        true
    }

    /// Start columns of the nodes of a level after removing its leftmost
    /// column and shifting by `offset`.
    fn cols_of(&self, level: &Vec<usize>, x: &Vec<usize>, min_x: usize, offset: usize) -> (r: Vec<usize>)
        requires
            forall|k: int| 0 <= k < level@.len() ==> #[trigger] level@[k] < x@.len(),
            forall|k: int| 0 <= k < level@.len() ==> x@[#[trigger] level@[k] as int] >= min_x,
        ensures
            r@ == row_cols(x@, level@, min_x, offset),
    {
        let mut r: Vec<usize> = Vec::new();
        let mut k: usize = 0;
        while k < level.len()
            invariant
                forall|j: int| 0 <= j < level@.len() ==> #[trigger] level@[j] < x@.len(),
                forall|j: int| 0 <= j < level@.len() ==> x@[#[trigger] level@[j] as int] >= min_x,
                k <= level@.len(),
                r@ == Seq::new(k as nat, |j: int| sat_add((x@[level@[j] as int] - min_x) as usize, offset)),
            decreases level@.len() - k,
        {
            let a = x[level[k]] - min_x;
            let c = if a <= usize::MAX - offset {
                a + offset
            } else {
                usize::MAX
            };
            r.push(c);
            k = k + 1;
            assert(r@ =~= Seq::new(k as nat, |j: int| sat_add((x@[level@[j] as int] - min_x) as usize, offset)));
        }
        r
    }

    /// Appends the layered rendering: piece by piece when the graph falls
    /// into several pieces, else the full layout of levels, crossing
    /// reduction, columns and centring.
    pub fn render_vertical(&self, out: &mut Vec<char>)
        requires
            self.wf(),
            self@.len() > 0,
            !has_closed_walk(self@),
            render_fits(self@),
        ensures
            final(out)@ == old(out)@ + vertical_output(self@, search_pieces(self@)),
    {
        let subgraphs = self.find_subgraphs();
        self.render_pieces(out, &subgraphs);
        assert(is_components(self@, subgraphs@.map_values(|v: Vec<usize>| v@)));
    }

    /// Appends the layered rendering of a graph split into its connected
    /// `subgraphs`.
    fn render_pieces(&self, out: &mut Vec<char>, subgraphs: &Vec<Vec<usize>>)
        requires
            self.wf(),
            self@.len() > 0,
            !has_closed_walk(self@),
            render_fits(self@),
            is_components(self@, subgraphs@.map_values(|v: Vec<usize>| v@)),
        ensures
            final(out)@ == old(out)@ + vertical_output(self@, subgraphs@.map_values(|v: Vec<usize>| v@)),
    {
        let ghost m = self@;
        let ghost subs = subgraphs@.map_values(|v: Vec<usize>| v@);
        proof {
            lemma_partition_entries(m.len(), subs);
        }
        if subgraphs.len() > 1 {
            let mut i: usize = 0;
            while i < subgraphs.len()
                invariant
                    self.wf(),
                    m == self@,
                    m.len() < usize::MAX,
                    !has_closed_walk(m),
                    subs == subgraphs@.map_values(|v: Vec<usize>| v@),
                    forall|a: int, k: int| 0 <= a < subs.len() && 0 <= k < subs[a].len() ==> #[trigger] subs[a][k] < m.len(),
                    i <= subgraphs@.len(),
                    out@ == old(out)@ + pieces_text(m, subs, i as int),
                decreases subgraphs@.len() - i,
            {
                if i > 0 {
                    out.push('\n');
                }
                proof {
                    assert(subs[i as int] == subgraphs@[i as int]@);
                    assert forall|k: int| 0 <= k < subgraphs@[i as int]@.len() implies #[trigger] subgraphs@[i as int]@[k] < m.len() by {
                        assert(subs[i as int][k] < m.len());
                    }
                }
                self.render_subgraph(out, &subgraphs[i]);
                i = i + 1;
                proof {
                    assert(out@ =~= old(out)@ + pieces_text(m, subs, i as int));
                }
            }
            assert(is_partition(m.len(), subs) && firsts_ascending(subs) && out@ == old(out)@ + vertical_output(m, subs));
            return;
        }
        let level_data = self.calculate_levels();
        let ghost lvs = levels_of(m, Seq::new(m.len(), |i: int| true));
        proof {
            assert forall|i: int| 0 <= i < level_data@.len() implies #[trigger] level_data@[i] == (i as usize, lvs[i]) by {
                assert(level_data@.map_values(|p: (usize, usize)| p.1)[i] == level_data@[i].1);
            }
            assert(level_data@ =~= Seq::new(lvs.len(), |i: int| (i as usize, lvs[i])));
        }
        let (max_level, mut levels) = self.group_into_levels(&level_data);
        let ghost lv0 = levels@.map_values(|v: Vec<usize>| v@);
        proof {
            lemma_group_levels(level_data@, (max_level + 1) as nat);
            assert(m.width(0) + 3 >= 5);
            assert((m.width(0) + 3) * m.len() <= usize::MAX);
            assert(5 * m.len() <= (m.width(0) + 3) * m.len()) by (nonlinear_arith)
                requires
                    m.width(0) + 3 >= 5,
            ;
            assert forall|l: int, k: int| 0 <= l < lv0.len() && 0 <= k < lv0[l].len() implies #[trigger] lv0[l][k] < m.len() by {
                let j = choose|j: int| 0 <= j < level_data@.len() && level_data@[j].0 == lv0[l][k];
                assert(level_data@[j].0 == j);
            }
            assert forall|l: int| 0 <= l < lv0.len() implies 2 * #[trigger] lv0[l].len() <= usize::MAX by {
                assert(lv0[l].len() <= m.len());
            }
            assert forall|l: int, k: int| 0 <= l < lv0.len() && 0 <= k < lv0[l].len() implies (m.width(#[trigger] lv0[l][k] as int) + 3) * lv0[l].len() <= usize::MAX by {
                let e = lv0[l][k] as int;
                assert(e < m.len());
                assert((m.width(e) + 3) * m.len() <= usize::MAX);
                let len = lv0[l].len();
                assert((m.width(e) + 3) * len <= (m.width(e) + 3) * m.len()) by (nonlinear_arith)
                    requires
                        len <= m.len(),
                ;
            }
        }
        self.reduce_crossings(&mut levels, max_level);
        let x = self.assign_x_coordinates(&mut levels, max_level);
        let ghost lv2 = levels@.map_values(|v: Vec<usize>| v@);
        proof {
            assert forall|l: int, k: int| 0 <= l < levels@.len() && 0 <= k < levels@[l]@.len() implies #[trigger] levels@[l]@[k] < m.len() by {
                assert(lv2[l][k] == levels@[l]@[k]);
            }
        }
        let (widths, canvas) = self.calculate_canvas_dimensions(&levels, &x);
        proof {
            assert(widths@ =~= Seq::new(lv2.len(), |l: int| level_width(m, x@, lv2[l])));
        }
        let mut l: usize = 0;
        while l < levels.len()
            invariant
                self.wf(),
                m == self@,
                lv2 == levels@.map_values(|v: Vec<usize>| v@),
                levels@.len() == max_level + 1,
                widths@.len() == levels@.len(),
                x@.len() == m.len(),
                l <= levels@.len(),
                forall|a: int, k: int| 0 <= a < levels@.len() && 0 <= k < levels@[a]@.len() ==> #[trigger] levels@[a]@[k] < m.len(),
                out@ == old(out)@ + vertical_rows(m, x@, lv2, widths@, canvas, max_level as int, l as int),
            decreases levels@.len() - l,
        {
            self.write_level(out, &levels, l, &x, &widths, canvas, max_level);
            l = l + 1;
            assert(out@ =~= old(out)@ + vertical_rows(m, x@, lv2, widths@, canvas, max_level as int, l as int));
        }
        proof {
            assert(vertical_output(m, subs) == vertical_text(m, lvs));
            assert(is_partition(m.len(), subs) && firsts_ascending(subs) && out@ == old(out)@ + vertical_output(m, subs));
        }
    }

    /// Appends level `l` of the full layout: its row and the connector lines below it.
    fn write_level(
        &self,
        out: &mut Vec<char>,
        levels: &Vec<Vec<usize>>,
        l: usize,
        x: &Vec<usize>,
        widths: &Vec<usize>,
        canvas: usize,
        max_level: usize,
    )
        requires
            self.wf(),
            l < levels@.len(),
            levels@.len() == max_level + 1,
            widths@.len() == levels@.len(),
            x@.len() == self@.len(),
            forall|a: int, k: int| 0 <= a < levels@.len() && 0 <= k < levels@[a]@.len() ==> #[trigger] levels@[a]@[k] < self@.len(),
        ensures
            final(out)@ == old(out)@ + vertical_row(
                self@,
                x@,
                levels@.map_values(|v: Vec<usize>| v@),
                widths@,
                canvas,
                max_level as int,
                l as int,
            ),
    {
        let ghost m = self@;
        let ghost lv = levels@.map_values(|v: Vec<usize>| v@);
        let level = &levels[l];
        proof {
            assert(lv[l as int] == level@);
            if l < max_level {
                assert(lv[l + 1] == levels@[l + 1]@);
            }
        }
        if level.len() == 0 {
            assert(out@ =~= old(out)@ + vertical_row(m, x@, lv, widths@, canvas, max_level as int, l as int));
            return;
        }
        let lw = widths[l];
        let off = if canvas > lw {
            (canvas - lw) / 2
        } else {
            0
        };
        proof {
            assert forall|k: int| 0 <= k < level@.len() implies #[trigger] level@[k] < x@.len() by {
                assert(levels@[l as int]@[k] < m.len());
            }
        }
        let min_x = self.min_x_of(level, x);
        let cols = self.cols_of(level, x, min_x, off);
        proof {
            assert forall|k: int| 0 <= k < level@.len() implies #[trigger] level@[k] < m.len() by {
                assert(levels@[l as int]@[k] < m.len());
            }
        }
        self.write_row(out, level, &cols);
        if l < max_level {
            let nw = widths[l + 1];
            let next_off = if canvas > nw {
                (canvas - nw) / 2
            } else {
                0
            };
            proof {
                assert forall|k: int| 0 <= k < levels@[l + 1]@.len() implies #[trigger] levels@[l + 1]@[k] < m.len() by {
                    assert(levels@[l + 1]@[k] < m.len());
                }
            }
            self.draw_connections_sugiyama(out, level, &levels[l + 1], x, min_x, off, next_off);
        }
        assert(out@ =~= old(out)@ + vertical_row(m, x@, lv, widths@, canvas, max_level as int, l as int));
    }

    /// Appends the horizontal rendering: the chain from the first node
    /// without parents, or `(no root)` when there is none.
    pub fn render_horizontal(&self, out: &mut Vec<char>)
        requires
            self.wf(),
        ensures
            final(out)@ == old(out)@ + horizontal_text(self@),
    {
        let ghost m = self@;
        let n = self.node_count();
        let mut k: usize = 0;
        while k < n && self.get_parents_indices(k).len() != 0
            invariant
                self.wf(),
                m == self@,
                n == m.len(),
                k <= n,
                forall|j: int| 0 <= j < k ==> !is_root(m, #[trigger] all_nodes(m.len())[j] as int),
            decreases n - k,
        {
            assert(all_nodes(m.len())[k as int] == k);
            k = k + 1;
        }
        proof {
            if k < n {
                assert(all_nodes(m.len())[k as int] == k);
            }
            lemma_first_root(m, all_nodes(m.len()), k as int);
        }
        if k < n {
            self.write_chain(out, k);
        } else {
            push_str(out, "(no root)");
        }
    }

    /// Whether the graph is one simple chain: a single piece whose nodes
    /// all have at most one parent and one child.
    pub fn is_simple_chain(&self) -> (r: bool)
        requires
            self.wf(),
        ensures
            r == (self@.len() > 0 && search_pieces(self@).len() <= 1 && is_chain_set(self@, all_nodes(self@.len()))),
    {
        let subgraphs = self.find_subgraphs();
        let r = self.is_chain_of_pieces(&subgraphs);
        assert(is_components(self@, subgraphs@.map_values(|v: Vec<usize>| v@)));
        r
    }

    /// Whether the graph, split into `subgraphs`, is one simple chain.
    fn is_chain_of_pieces(&self, subgraphs: &Vec<Vec<usize>>) -> (r: bool)
        requires
            self.wf(),
            is_partition(self@.len(), subgraphs@.map_values(|v: Vec<usize>| v@)),
            firsts_ascending(subgraphs@.map_values(|v: Vec<usize>| v@)),
        ensures
            r == (self@.len() > 0 && subgraphs@.len() <= 1 && is_chain_set(self@, all_nodes(self@.len()))),
    {
        let ghost m = self@;
        let n = self.node_count();
        let ghost subs = subgraphs@.map_values(|v: Vec<usize>| v@);
        if n == 0 || subgraphs.len() > 1 {
            assert(is_partition(m.len(), subs) && firsts_ascending(subs) && false == (m.len() > 0 && subs.len() <= 1
                && is_chain_set(m, all_nodes(m.len()))));
            return false;
        }
        let mut i: usize = 0;
        while i < n
            invariant
                self.wf(),
                m == self@,
                n == m.len(),
                i <= n,
                is_partition(m.len(), subs),
                firsts_ascending(subs),
                subs.len() <= 1,
                forall|j: int| 0 <= j < i ==> #[trigger] m.parents[all_nodes(m.len())[j] as int].len() <= 1
                    && m.children[all_nodes(m.len())[j] as int].len() <= 1,
            decreases n - i,
        {
            assert(all_nodes(m.len())[i as int] == i);
            if self.get_parents_indices(i).len() > 1 || self.get_children_indices(i).len() > 1 {
                assert(!is_chain_set(m, all_nodes(m.len())));
                assert(is_partition(m.len(), subs) && firsts_ascending(subs) && false == (m.len() > 0 && subs.len() <= 1
                    && is_chain_set(m, all_nodes(m.len()))));
                return false;
            }
            i = i + 1;
        }
        assert(is_chain_set(m, all_nodes(m.len())));
        assert(is_partition(m.len(), subs) && firsts_ascending(subs) && true == (m.len() > 0 && subs.len() <= 1
            && is_chain_set(m, all_nodes(m.len()))));
        true
    }

    /// Appends the cycle report: a warning header, then the cycle found,
    /// its last node joined back to the first by `⇄`.
    #[verifier::spinoff_prover]
    pub fn render_cycle(&self, out: &mut Vec<char>)
        requires
            self.wf(),
        ensures
            final(out)@ == old(out)@ + cycle_report(self@, first_cycle(self@)),
            first_cycle(self@) is Some <==> has_closed_walk(self@),
            first_cycle(self@) matches Some(c) ==> is_id_cycle(self@, c) && c.no_duplicates(),
    {
        let ghost m = self@;
        push_str(out, "⚠️  CYCLE DETECTED - Not a valid DAG\n\n");
        let ghost head = out@;
        match self.find_cycle_path() {
            Some(c) => {
                self.write_cycle_body(out, &c);
                proof {
                    vstd::seq_lib::lemma_concat_associative(old(out)@, cycle_header(), cycle_body(m, Some(c@)));
                }
            },
            None => {
                push_str(out, "Complex cycle detected in graph.\n");
                proof {
                    vstd::seq_lib::lemma_concat_associative(old(out)@, cycle_header(), cycle_body(m, None));
                }
            },
        }
    }

    /// Appends the part of the cycle report that follows the header.
    fn write_cycle_body(&self, out: &mut Vec<char>, c: &Vec<usize>)
        requires
            self.wf(),
            is_id_cycle(self@, c@),
        ensures
            final(out)@ == old(out)@ + cycle_body(self@, Some(c@)),
    {
        push_str(out, "Cyclic dependency chain:\n");
        self.write_cycle_chain(out, c);
        push_str(out, "\n\n");
        push_str(out, "This creates an infinite loop in error dependencies.\n");
        assert(out@ =~= old(out)@ + cycle_body(self@, Some(c@)));
    }

    /// Appends the nodes of the cycle `c`, joined by arrows, the last one
    /// joined back to the first by `⇄`.
    #[verifier::spinoff_prover]
    fn write_cycle_chain(&self, out: &mut Vec<char>, c: &Vec<usize>)
        requires
            self.wf(),
            is_id_cycle(self@, c@),
        ensures
            final(out)@ == old(out)@ + cycle_chain(self@, c@, c@.len() as int),
    {
        let ghost m = self@;
        let mut i: usize = 0;
        while i < c.len()
            invariant
                self.wf(),
                m == self@,
                is_id_cycle(m, c@),
                i <= c@.len(),
                out@ == old(out)@ + cycle_chain(m, c@, i as int),
            decreases c@.len() - i,
        {
            self.write_cycle_piece(out, c, i);
            i = i + 1;
            proof {
                assert(out@ =~= old(out)@ + cycle_chain(m, c@, i as int));
            }
        }
    }

    /// Appends node `i` of the cycle `c` and the arrow after it.
    fn write_cycle_piece(&self, out: &mut Vec<char>, c: &Vec<usize>, i: usize)
        requires
            self.wf(),
            is_id_cycle(self@, c@),
            i < c@.len(),
        ensures
            final(out)@ == old(out)@ + cycle_piece(self@, c@, i as int),
    {
        let ghost m = self@;
        proof {
            assert(m.has_id(c@[i as int]));
            assert(m.has_id(c@[0]));
        }
        let idx = match self.node_index(c[i]) {
            Some(idx) => idx,
            None => 0,
        };
        self.write_node(out, idx);
        if i < c.len() - 1 {
            push_str(out, " → ");
        } else {
            push_str(out, " ⇄ ");
            let first = match self.node_index(c[0]) {
                Some(f) => f,
                None => 0,
            };
            self.write_node(out, first);
        }
        assert(out@ =~= old(out)@ + cycle_piece(m, c@, i as int));
    }

    /// Appends the rendering of the graph to `output`.
    pub fn render_to(&self, output: &mut String)
        requires
            self.wf(),
            render_fits(self@),
        ensures
            exists|t: Seq<char>| is_rendering(self@, t) && final(output)@ == old(output)@ + t,
    {
        let mut buf: Vec<char> = Vec::new();
        self.render_chars(&mut buf);
        let text = chars_to_string(&buf);
        output.append(text.as_str());
    }

    /// The rendering of the graph.
    pub fn render(&self) -> (r: String)
        requires
            self.wf(),
            render_fits(self@),
        ensures
            is_rendering(self@, r@),
    {
        let mut buf: Vec<char> = Vec::new();
        self.render_chars(&mut buf);
        proof {
            assert(buf@ =~= Seq::<char>::empty() + buf@);
        }
        chars_to_string(&buf)
    }

    /// Appends the rendering of the graph as characters.
    pub fn render_chars(&self, out: &mut Vec<char>)
        requires
            self.wf(),
            render_fits(self@),
        ensures
            exists|t: Seq<char>| is_rendering(self@, t) && final(out)@ == old(out)@ + t,
    {
        let ghost m = self@;
        if self.node_count() == 0 {
            push_str(out, "Empty DAG");
            assert(is_rendering(m, "Empty DAG"@) && out@ == old(out)@ + "Empty DAG"@);
            return;
        }
        if self.has_cycle() {
            self.render_cycle(out);
            assert(is_rendering(m, cycle_report(m, first_cycle(m))));
            return;
        }
        let subgraphs = self.find_subgraphs();
        let ghost subs = subgraphs@.map_values(|v: Vec<usize>| v@);
        assert(is_components(m, subs));
        let horizontal = match self.render_mode() {
            RenderMode::Horizontal => true,
            RenderMode::Vertical => false,
            RenderMode::Auto => self.is_chain_of_pieces(&subgraphs),
        };
        assert(horizontal == uses_horizontal(m, subs));
        let ghost before = out@;
        if horizontal {
            self.render_horizontal(out);
            assert(is_rendering(m, horizontal_text(m)));
        } else {
            self.render_pieces(out, &subgraphs);
            assert(is_rendering(m, vertical_output(m, subs)));
        }
    }

    /// Appends the chain from node `root`: each node's text, an arrow and
    /// the first child, until a node without children or one already passed.
    pub fn write_chain(&self, out: &mut Vec<char>, root: usize)
        requires
            self.wf(),
            root < self@.len(),
        ensures
            final(out)@ == old(out)@ + chain_line(self@, root as int),
    {
        let ghost m = self@;
        let n = self.node_count();
        let mut visited: Vec<usize> = Vec::new();
        let mut cur = root;
        let ghost mut fuel: nat = (n + 1) as nat;
        assert(visited@.map_values(|v: usize| v as int) =~= seq![]);
        loop
            invariant_except_break
                self.wf(),
                m == self@,
                n == m.len(),
                cur < n,
                forall|j: int| 0 <= j < visited@.len() ==> #[trigger] visited@[j] < n,
                visited@.no_duplicates(),
                !visited@.contains(cur),
                fuel == n + 1 - visited@.len(),
                old(out)@ + chain_text(m, root as int, seq![], (n + 1) as nat) == out@ + chain_text(
                    m,
                    cur as int,
                    visited@.map_values(|v: usize| v as int),
                    fuel,
                ),
            ensures
                old(out)@ + chain_text(m, root as int, seq![], (n + 1) as nat) == out@,
            decreases fuel,
        {
            proof {
                lemma_distinct_bound(visited@.push(cur), n as nat);
            }
            let ghost seen = visited@.map_values(|v: usize| v as int);
            visited.push(cur);
            self.write_node(out, cur);
            let children = self.get_children_indices(cur);
            if children.len() == 0 {
                break;
            }
            push_str(out, " → ");
            let nxt = children[0];
            proof {
                assert(m.children[cur as int][0] < n);
                assert(visited@.map_values(|v: usize| v as int) =~= seen.push(cur as int));
            }
            let seen_next = holds(&visited, nxt);
            proof {
                assert(seen.push(cur as int).contains(nxt as int) == visited@.contains(nxt)) by {
                    let sv = visited@.map_values(|v: usize| v as int);
                    if visited@.contains(nxt) {
                        let q = visited@.index_of(nxt);
                        assert(sv[q] == nxt as int);
                    }
                    if sv.contains(nxt as int) {
                        let q = sv.index_of(nxt as int);
                        assert(visited@[q] == nxt);
                    }
                }
            }
            if seen_next {
                break;
            }
            cur = nxt;
            proof {
                fuel = (fuel - 1) as nat;
            }
        }
        proof {
            assert(chain_text(m, root as int, seq![], (n + 1) as nat) == chain_text(m, root as int, seq![], m.len() + 1));
        }
        out.push('\n');
    }
}

/// Appends the connector lines for a list of connections.
pub fn draw_manhattan(out: &mut Vec<char>, conns: &Vec<(usize, usize)>)
    ensures
        final(out)@ == old(out)@ + manhattan_lines(conns@),
{
    if conns.len() == 0 {
        assert(out@ =~= old(out)@ + manhattan_lines(conns@));
        return;
    }
    let swapped = swap_pairs(conns);
    let tg = group_pairs(&swapped);
    let sg = group_pairs(conns);
    let (_, hi) = conn_extent(conns);
    let conv = any_shared(&tg);
    let div = any_shared(&sg);
    if conv && !div {
        draw_convergence(out, &tg, 0, hi, false);
    } else if div && !conv {
        draw_divergence(out, &sg, 0, hi, false);
    } else {
        draw_simple(out, conns, 0, hi);
    }
}

/// Each pair with its two columns swapped.
pub fn swap_pairs(conns: &Vec<(usize, usize)>) -> (r: Vec<(usize, usize)>)
    ensures
        r@ == by_target(conns@),
{
    let mut r: Vec<(usize, usize)> = Vec::new();
    let mut k: usize = 0;
    while k < conns.len()
        invariant
            k <= conns@.len(),
            r@ == by_target(conns@.take(k as int)),
        decreases conns@.len() - k,
    {
        r.push((conns[k].1, conns[k].0));
        k = k + 1;
        assert(r@ =~= by_target(conns@.take(k as int)));
    }
    assert(conns@.take(conns@.len() as int) =~= conns@);
    r
}

/// Whether some group has more than one value.
pub fn any_shared(gs: &Vec<(usize, Vec<usize>)>) -> (r: bool)
    ensures
        r == some_group_shared(groups_view(gs@)),
{
    let ghost g = groups_view(gs@);
    let mut a: usize = 0;
    while a < gs.len()
        invariant
            a <= gs@.len(),
            g == groups_view(gs@),
            forall|b: int| 0 <= b < a ==> #[trigger] g[b].1.len() <= 1,
        decreases gs@.len() - a,
    {
        if gs[a].1.len() > 1 {
            assert(g[a as int].1.len() > 1);
            return true;
        }
        a = a + 1;
    }
    false
}

/// Least and greatest column of a non-empty list of connections.
pub fn conn_extent(conns: &Vec<(usize, usize)>) -> (r: (usize, usize))
    requires
        conns@.len() > 0,
    ensures
        r == (conn_min(conns@), conn_max(conns@)),
        r.0 <= r.1,
{
    let c0 = conns[0];
    let mut lo = if c0.0 < c0.1 {
        c0.0
    } else {
        c0.1
    };
    let mut hi = if c0.0 > c0.1 {
        c0.0
    } else {
        c0.1
    };
    proof {
        assert(conns@.take(1).drop_last() =~= seq![]);
        assert(conns@.take(1).last() == conns@[0]);
        assert(conns@.take(1).len() == 1);
        let e: Seq<(usize, usize)> = seq![];
        assert(conn_max(e) == 0);
        assert(conn_max(conns@.take(1)) == hi);
        assert(conn_min(conns@.take(1)) == lo);
    }
    let mut k: usize = 1;
    while k < conns.len()
        invariant
            1 <= k <= conns@.len(),
            lo == conn_min(conns@.take(k as int)),
            hi == conn_max(conns@.take(k as int)),
            lo <= hi,
        decreases conns@.len() - k,
    {
        proof {
            assert(conns@.take(k as int + 1).drop_last() =~= conns@.take(k as int));
        }
        let c = conns[k];
        let a = if c.0 < c.1 {
            c.0
        } else {
            c.1
        };
        let b = if c.0 > c.1 {
            c.0
        } else {
            c.1
        };
        if a < lo {
            lo = a;
        }
        if b > hi {
            hi = b;
        }
        k = k + 1;
    }
    assert(conns@.take(conns@.len() as int) =~= conns@);
    (lo, hi)
}

proof fn lemma_first_index_bound(s: Seq<usize>, x: usize)
    ensures
        -1 <= first_index(s, x) < s.len(),
    decreases s.len(),
{
    if s.len() > 0 {
        lemma_first_index_bound(s.drop_first(), x);
    }
}

proof fn lemma_seq_min_le(s: Seq<usize>, k: int)
    requires
        0 <= k < s.len(),
    ensures
        seq_min(s) <= s[k],
    decreases s.len(),
{
    if s.len() > 1 && k < s.len() - 1 {
        lemma_seq_min_le(s.drop_last(), k);
    }
}

proof fn lemma_pairs_max_bound(pairs: Seq<(usize, usize)>, n: nat)
    requires
        forall|k: int| 0 <= k < pairs.len() ==> #[trigger] pairs[k].1 <= n,
    ensures
        pairs_max(pairs) <= n,
    decreases pairs.len(),
{
    if pairs.len() > 0 {
        lemma_pairs_max_bound(pairs.drop_last(), n);
    }
}

/// Grouping keeps the count of levels and puts each node of `pairs` in one of them.
pub proof fn lemma_group_levels(pairs: Seq<(usize, usize)>, count: nat)
    ensures
        group_levels(pairs, count).len() == count,
        forall|l: int| 0 <= l < count ==> #[trigger] group_levels(pairs, count)[l].len() <= pairs.len(),
        forall|l: int, k: int| 0 <= l < count && 0 <= k < group_levels(pairs, count)[l].len() ==> exists|j: int|
            0 <= j < pairs.len() && pairs[j].0 == #[trigger] group_levels(pairs, count)[l][k],
    decreases pairs.len(),
{
    if pairs.len() > 0 {
        let d = pairs.drop_last();
        lemma_group_levels(d, count);
        let g = group_levels(d, count);
        let r = group_levels(pairs, count);
        assert forall|l: int, k: int| 0 <= l < count && 0 <= k < r[l].len() implies exists|j: int|
            0 <= j < pairs.len() && pairs[j].0 == #[trigger] r[l][k] by {
            if k < g[l].len() {
                let j = choose|j: int| 0 <= j < d.len() && d[j].0 == g[l][k];
                assert(pairs[j] == d[j]);
                if pairs.last().1 < count && l == pairs.last().1 {
                    assert(r[l][k] == g[l][k]);
                } else {
                    assert(r[l] == g[l]);
                }
            } else {
                assert(pairs[pairs.len() - 1].0 == r[l][k]);
            }
        }
    } else {
        assert forall|l: int| 0 <= l < count implies #[trigger] group_levels(pairs, count)[l].len() <= pairs.len() by {
        }
    }
}

proof fn lemma_first_root(m: GraphModel, s: Seq<usize>, k: int)
    requires
        0 <= k <= s.len(),
        forall|j: int| 0 <= j < k ==> !is_root(m, #[trigger] s[j] as int),
        k == s.len() || is_root(m, s[k] as int),
    ensures
        first_root(m, s) == k,
    decreases k,
{
    if k > 0 {
        let t = s.drop_first();
        assert forall|j: int| 0 <= j < k - 1 implies !is_root(m, #[trigger] t[j] as int) by {
            assert(t[j] == s[j + 1]);
        }
        if k < s.len() {
            assert(t[k - 1] == s[k]);
        }
        lemma_first_root(m, t, k - 1);
    }
}

pub proof fn lemma_partition_entries(n: nat, subs: Seq<Seq<usize>>)
    requires
        is_partition(n, subs),
    ensures
        forall|a: int, k: int| 0 <= a < subs.len() && 0 <= k < subs[a].len() ==> #[trigger] subs[a][k] < n,
{
    assert forall|a: int, k: int| 0 <= a < subs.len() && 0 <= k < subs[a].len() implies #[trigger] subs[a][k] < n by {
        lemma_flatten_contains(subs, a, k);
        let f = flatten(subs);
        let q = f.index_of(subs[a][k]);
        assert(f[q] < Seq::new(n, |v: int| true).len());
    }
}

proof fn lemma_flatten_contains(subs: Seq<Seq<usize>>, a: int, k: int)
    requires
        0 <= a < subs.len(),
        0 <= k < subs[a].len(),
    ensures
        flatten(subs).contains(subs[a][k]),
    decreases subs.len(),
{
    let d = subs.drop_last();
    if a < subs.len() - 1 {
        lemma_flatten_contains(d, a, k);
        let q = flatten(d).index_of(subs[a][k]);
        assert(flatten(subs)[q] == flatten(d)[q]);
    } else {
        assert(flatten(subs)[flatten(d).len() + k] == subs[a][k]);
    }
}

/// Relies on `FromIterator<char>` for `String` (std): collecting characters
/// keeps each of them, in order.
#[verifier::external_body]
fn chars_to_string(v: &Vec<char>) -> (r: String)
    ensures
        r@ == v@,
{
    v.iter().collect()
}

/// A list without repetition of indices below `n` has at most `n` entries.
pub proof fn lemma_distinct_bound(s: Seq<usize>, n: nat)
    requires
        s.no_duplicates(),
        forall|j: int| 0 <= j < s.len() ==> #[trigger] s[j] < n,
    ensures
        s.len() <= n,
{
    let si = s.map_values(|v: usize| v as int);
    let ri = vstd::set_lib::set_int_range(0, n as int);
    vstd::set_lib::lemma_int_range(0, n as int);
    assert(si.no_duplicates()) by {
        assert forall|i: int, j: int| 0 <= i < si.len() && 0 <= j < si.len() && i != j implies si[i] != si[j] by {
            assert(s[i] != s[j]);
        }
    }
    si.unique_seq_to_set();
    assert(si.to_set().subset_of(ri)) by {
        assert forall|x: int| si.to_set().contains(x) implies ri.contains(x) by {
            let q = si.index_of(x);
            assert(s[q] < n);
        }
    }
    vstd::set_lib::lemma_len_subset(si.to_set(), ri);
}

} // verus!
