//! Connector lines between two adjacent levels: grouping of connections by
//! column, and the Manhattan-routed glyph lines.
use vstd::prelude::*;

verus! {

/// Vertical bar.
pub const V_LINE: char = '│';
/// Horizontal bar.
pub const H_LINE: char = '─';
/// Arrow into a node below.
pub const ARROW_DOWN: char = '↓';
/// Left end of a bar that joins sources above.
pub const CORNER_DR: char = '└';
/// Right end of a bar that joins sources above.
pub const CORNER_DL: char = '┘';
/// Inner source joined from above.
pub const TEE_UP: char = '┴';
/// Inner target fed from below.
pub const TEE_DOWN: char = '┬';
/// Left end of a bar that feeds targets below.
pub const CORNER_UR: char = '┌';
/// Right end of a bar that feeds targets below.
pub const CORNER_UL: char = '┐';

/// Columns grouped by a key column, keys ascending.
pub type Groups = Seq<(usize, Seq<usize>)>;

/// Least entry of a non-empty list.
pub open spec fn seq_min(s: Seq<usize>) -> usize
    decreases s.len(),
{
    if s.len() <= 1 {
        s[0]
    } else {
        let r = seq_min(s.drop_last());
        if s.last() < r {
            s.last()
        } else {
            r
        }
    }
}

/// Greatest entry of a non-empty list.
pub open spec fn seq_max(s: Seq<usize>) -> usize
    decreases s.len(),
{
    if s.len() <= 1 {
        s[0]
    } else {
        let r = seq_max(s.drop_last());
        if s.last() > r {
            s.last()
        } else {
            r
        }
    }
}

/// Position of the first group whose key is not below `k`.
pub open spec fn lower_bound(gs: Groups, k: usize) -> nat
    decreases gs.len(),
{
    if gs.len() == 0 {
        0
    } else if gs[0].0 >= k {
        0
    } else {
        1 + lower_bound(gs.drop_first(), k)
    }
}

/// `v` added to the group of key `k`, which is created in key order when missing.
pub open spec fn add_to_groups(gs: Groups, k: usize, v: usize) -> Groups {
    let p = lower_bound(gs, k) as int;
    if p < gs.len() && gs[p].0 == k {
        gs.update(p, (k, gs[p].1.push(v)))
    } else {
        gs.insert(p, (k, seq![v]))
    }
}

/// The values of `pairs` grouped by key, keys ascending and values in the
/// order of `pairs`.
pub open spec fn groups_of(pairs: Seq<(usize, usize)>) -> Groups
    decreases pairs.len(),
{
    if pairs.len() == 0 {
        seq![]
    } else {
        add_to_groups(groups_of(pairs.drop_last()), pairs.last().0, pairs.last().1)
    }
}

/// `(from, to)` pairs keyed by target column.
pub open spec fn by_target(conns: Seq<(usize, usize)>) -> Seq<(usize, usize)> {
    conns.map_values(|c: (usize, usize)| (c.1, c.0))
}

/// Some group has more than one value.
pub open spec fn some_group_shared(gs: Groups) -> bool {
    exists|a: int| 0 <= a < gs.len() && #[trigger] gs[a].1.len() > 1
}

/// `i` is a value of some group.
pub open spec fn in_some_group(gs: Groups, i: int) -> bool {
    exists|a: int, k: int| 0 <= a < gs.len() && 0 <= k < gs[a].1.len() && #[trigger] gs[a].1[k] == i
}

/// `i` is the key of some group.
pub open spec fn is_group_key(gs: Groups, i: int) -> bool {
    exists|a: int| 0 <= a < gs.len() && #[trigger] gs[a].0 == i
}

/// The bar glyph at column `i` for groups with more than one value: the
/// ends get `left` and `right`, inner values `tee`, the span between `H_LINE`;
/// later groups are drawn over earlier ones, and with `keep_bar` a bar only
/// fills a blank column.
pub open spec fn bar_glyph(gs: Groups, i: int, left: char, right: char, tee: char, keep_bar: bool) -> char
    decreases gs.len(),
{
    if gs.len() == 0 {
        ' '
    } else {
        let prev = bar_glyph(gs.drop_last(), i, left, right, tee, keep_bar);
        let g = gs.last().1;
        if g.len() <= 1 {
            prev
        } else if i == seq_min(g) {
            left
        } else if i == seq_max(g) {
            right
        } else if g.contains(i as usize) {
            tee
        } else if seq_min(g) < i < seq_max(g) {
            if keep_bar && prev != ' ' {
                prev
            } else {
                H_LINE
            }
        } else {
            prev
        }
    }
}

/// A line of the columns `lo..=hi`, each drawn by `f`, then a line break.
pub open spec fn glyph_line(lo: int, hi: int, f: spec_fn(int) -> char) -> Seq<char> {
    Seq::new((hi - lo + 1) as nat, |j: int| f(lo + j)).push('\n')
}

/// `c` when `b`, else a blank.
pub open spec fn mark(b: bool, c: char) -> char {
    if b {
        c
    } else {
        ' '
    }
}

/// The three lines of converging groups (keyed by target): drops under
/// every source, bars joining the sources of each shared target, arrows
/// above every target.
pub open spec fn convergence_lines(gs: Groups, lo: int, hi: int, keep_bar: bool) -> Seq<char> {
    glyph_line(lo, hi, |i: int| mark(in_some_group(gs, i), V_LINE)) + glyph_line(
        lo,
        hi,
        |i: int| bar_glyph(gs, i, CORNER_DR, CORNER_DL, TEE_UP, keep_bar),
    ) + glyph_line(lo, hi, |i: int| mark(is_group_key(gs, i), ARROW_DOWN))
}

/// The three lines of diverging groups (keyed by source): drops under every
/// source, bars spreading over the targets of each shared source, arrows
/// above every target.
pub open spec fn divergence_lines(gs: Groups, lo: int, hi: int, keep_bar: bool) -> Seq<char> {
    glyph_line(lo, hi, |i: int| mark(is_group_key(gs, i), V_LINE)) + glyph_line(
        lo,
        hi,
        |i: int| bar_glyph(gs, i, CORNER_UR, CORNER_UL, TEE_DOWN, keep_bar),
    ) + glyph_line(lo, hi, |i: int| mark(in_some_group(gs, i), ARROW_DOWN))
}

/// Some connection starts at column `i`.
pub open spec fn is_source(conns: Seq<(usize, usize)>, i: int) -> bool {
    exists|k: int| 0 <= k < conns.len() && #[trigger] conns[k].0 == i
}

/// The two lines of plain connections: a drop and an arrow under every source.
pub open spec fn simple_lines(conns: Seq<(usize, usize)>, lo: int, hi: int) -> Seq<char> {
    glyph_line(lo, hi, |i: int| mark(is_source(conns, i), V_LINE)) + glyph_line(
        lo,
        hi,
        |i: int| mark(is_source(conns, i), ARROW_DOWN),
    )
}

/// The groups' values, as a view.
pub open spec fn groups_view(g: Seq<(usize, Vec<usize>)>) -> Groups {
    g.map_values(|p: (usize, Vec<usize>)| (p.0, p.1@))
}

proof fn lemma_lower_bound(gs: Groups, k: usize, p: int)
    requires
        0 <= p <= gs.len(),
        forall|q: int| 0 <= q < p ==> #[trigger] gs[q].0 < k,
        p == gs.len() || gs[p].0 >= k,
    ensures
        lower_bound(gs, k) == p,
    decreases p,
{
    if p > 0 {
        let t = gs.drop_first();
        assert forall|q: int| 0 <= q < p - 1 implies #[trigger] t[q].0 < k by {
            assert(t[q] == gs[q + 1]);
        }
        if p < gs.len() {
            assert(t[p - 1] == gs[p]);
        }
        lemma_lower_bound(t, k, p - 1);
    }
}

/// Adds `v` to the group of key `k`.
fn add_to_groups_exec(gs: &mut Vec<(usize, Vec<usize>)>, k: usize, v: usize)
    ensures
        groups_view(final(gs)@) == add_to_groups(groups_view(old(gs)@), k, v),
{
    let ghost g0 = groups_view(gs@);
    let mut p: usize = 0;
    while p < gs.len() && gs[p].0 < k
        invariant
            p <= gs@.len(),
            g0 == groups_view(gs@),
            forall|q: int| 0 <= q < p ==> #[trigger] g0[q].0 < k,
        decreases gs@.len() - p,
    {
        p = p + 1;
    }
    proof {
        lemma_lower_bound(g0, k, p as int);
    }
    if p < gs.len() && gs[p].0 == k {
        let (key, mut vals) = gs.remove(p);
        vals.push(v);
        gs.insert(p, (key, vals));
        proof {
            assert(groups_view(gs@) =~= g0.update(p as int, (k, g0[p as int].1.push(v))));
        }
    } else {
        let mut vals: Vec<usize> = Vec::new();
        vals.push(v);
        gs.insert(p, (k, vals));
        proof {
            assert(vals@ =~= seq![v]);
            assert(groups_view(gs@) =~= g0.insert(p as int, (k, seq![v])));
        }
    }
}

/// The values of `pairs` grouped by key, keys ascending.
pub fn group_pairs(pairs: &Vec<(usize, usize)>) -> (r: Vec<(usize, Vec<usize>)>)
    ensures
        groups_view(r@) == groups_of(pairs@),
{
    let mut gs: Vec<(usize, Vec<usize>)> = Vec::new();
    let mut i: usize = 0;
    proof {
        assert(groups_view(gs@) =~= seq![]);
    }
    while i < pairs.len()
        invariant
            i <= pairs@.len(),
            groups_view(gs@) == groups_of(pairs@.take(i as int)),
        decreases pairs@.len() - i,
    {
        add_to_groups_exec(&mut gs, pairs[i].0, pairs[i].1);
        proof {
            assert(pairs@.take(i as int + 1).drop_last() =~= pairs@.take(i as int));
        }
        i = i + 1;
    }
    assert(pairs@.take(pairs@.len() as int) =~= pairs@);
    gs
}

/// Least and greatest entry of a non-empty list.
pub fn min_max(s: &Vec<usize>) -> (r: (usize, usize))
    requires
        s@.len() > 0,
    ensures
        r == (seq_min(s@), seq_max(s@)),
{
    let mut lo = s[0];
    let mut hi = s[0];
    let mut k: usize = 1;
    while k < s.len()
        invariant
            1 <= k <= s@.len(),
            lo == seq_min(s@.take(k as int)),
            hi == seq_max(s@.take(k as int)),
        decreases s@.len() - k,
    {
        proof {
            assert(s@.take(k as int + 1).drop_last() =~= s@.take(k as int));
        }
        if s[k] < lo {
            lo = s[k];
        }
        if s[k] > hi {
            hi = s[k];
        }
        k = k + 1;
    }
    assert(s@.take(s@.len() as int) =~= s@);
    (lo, hi)
}

/// Whether `s` holds `x`.
pub fn holds(s: &Vec<usize>, x: usize) -> (r: bool)
    ensures
        r == s@.contains(x),
{
    let mut k: usize = 0;
    while k < s.len()
        invariant
            k <= s@.len(),
            forall|j: int| 0 <= j < k ==> #[trigger] s@[j] != x,
        decreases s@.len() - k,
    {
        if s[k] == x {
            return true;
        }
        k = k + 1;
    }
    false
}

/// The bar glyph at column `i`.
fn bar_glyph_exec(gs: &Vec<(usize, Vec<usize>)>, i: usize, left: char, right: char, tee: char, keep_bar: bool) -> (c: char)
    ensures
        c == bar_glyph(groups_view(gs@), i as int, left, right, tee, keep_bar),
{
    let ghost g = groups_view(gs@);
    let mut c = ' ';
    let mut a: usize = 0;
    while a < gs.len()
        invariant
            a <= gs@.len(),
            g == groups_view(gs@),
            c == bar_glyph(g.take(a as int), i as int, left, right, tee, keep_bar),
        decreases gs@.len() - a,
    {
        proof {
            assert(g.take(a as int + 1).drop_last() =~= g.take(a as int));
            assert(g.take(a as int + 1).last() == g[a as int]);
        }
        let vals = &gs[a].1;
        if vals.len() > 1 {
            let (lo, hi) = min_max(vals);
            if i == lo {
                c = left;
            } else if i == hi {
                c = right;
            } else if holds(vals, i) {
                c = tee;
            } else if lo < i && i < hi {
                if !(keep_bar && c != ' ') {
                    c = H_LINE;
                }
            }
        }
        a = a + 1;
    }
    assert(g.take(gs@.len() as int) =~= g);
    c
}

/// Whether `i` is a value of some group.
fn in_some_group_exec(gs: &Vec<(usize, Vec<usize>)>, i: usize) -> (r: bool)
    ensures
        r == in_some_group(groups_view(gs@), i as int),
{
    let ghost g = groups_view(gs@);
    let mut a: usize = 0;
    while a < gs.len()
        invariant
            a <= gs@.len(),
            g == groups_view(gs@),
            forall|b: int, k: int| 0 <= b < a && 0 <= k < g[b].1.len() ==> #[trigger] g[b].1[k] != i,
        decreases gs@.len() - a,
    {
        if holds(&gs[a].1, i) {
            proof {
                let k = g[a as int].1.index_of(i);
                assert(g[a as int].1[k] == i);
            }
            return true;
        }
        a = a + 1;
    }
    false
}

/// Whether `i` is the key of some group.
fn is_group_key_exec(gs: &Vec<(usize, Vec<usize>)>, i: usize) -> (r: bool)
    ensures
        r == is_group_key(groups_view(gs@), i as int),
{
    let ghost g = groups_view(gs@);
    let mut a: usize = 0;
    while a < gs.len()
        invariant
            a <= gs@.len(),
            g == groups_view(gs@),
            forall|b: int| 0 <= b < a ==> #[trigger] g[b].0 != i,
        decreases gs@.len() - a,
    {
        if gs[a].0 == i {
            assert(g[a as int].0 == i);
            return true;
        }
        a = a + 1;
    }
    false
}

/// Whether some connection starts at column `i`.
fn is_source_exec(conns: &Vec<(usize, usize)>, i: usize) -> (r: bool)
    ensures
        r == is_source(conns@, i as int),
{
    let mut k: usize = 0;
    while k < conns.len()
        invariant
            k <= conns@.len(),
            forall|j: int| 0 <= j < k ==> #[trigger] conns@[j].0 != i,
        decreases conns@.len() - k,
    {
        if conns[k].0 == i {
            return true;
        }
        k = k + 1;
    }
    false
}

/// Which glyph a line shows at a column.
enum LineKind {
    Member(char),
    Key(char),
    Bar(char, char, char, bool),
    Source(char),
}

/// The glyph a line of kind `kind` shows at column `i`.
spec fn line_glyph(kind: LineKind, gs: Groups, conns: Seq<(usize, usize)>, i: int) -> char {
    match kind {
        LineKind::Member(c) => mark(in_some_group(gs, i), c),
        LineKind::Key(c) => mark(is_group_key(gs, i), c),
        LineKind::Bar(l, r, t, keep) => bar_glyph(gs, i, l, r, t, keep),
        LineKind::Source(c) => mark(is_source(conns, i), c),
    }
}

/// Appends the line of columns `lo..=hi` of the given kind.
fn draw_line(
    out: &mut Vec<char>,
    gs: &Vec<(usize, Vec<usize>)>,
    conns: &Vec<(usize, usize)>,
    lo: usize,
    hi: usize,
    kind: LineKind,
)
    requires
        lo <= hi,
    ensures
        final(out)@ == old(out)@ + glyph_line(lo as int, hi as int, |i: int| line_glyph(kind, groups_view(gs@), conns@, i)),
{
    let ghost g = groups_view(gs@);
    let ghost f = |i: int| line_glyph(kind, g, conns@, i);
    let mut i: usize = lo;
    loop
        invariant_except_break
            lo <= i <= hi,
            out@ == old(out)@ + Seq::new((i - lo) as nat, |j: int| f(lo + j)),
        invariant
            g == groups_view(gs@),
            f == (|i: int| line_glyph(kind, g, conns@, i)),
        ensures
            out@ == old(out)@ + Seq::new((hi - lo + 1) as nat, |j: int| f(lo + j)),
        decreases hi - i,
    {
        let c = match kind {
            LineKind::Member(c) => if in_some_group_exec(gs, i) {
                c
            } else {
                ' '
            },
            LineKind::Key(c) => if is_group_key_exec(gs, i) {
                c
            } else {
                ' '
            },
            LineKind::Bar(l, r, t, keep) => bar_glyph_exec(gs, i, l, r, t, keep),
            LineKind::Source(c) => if is_source_exec(conns, i) {
                c
            } else {
                ' '
            },
        };
        out.push(c);
        assert(out@ =~= old(out)@ + Seq::new((i + 1 - lo) as nat, |j: int| f(lo + j)));
        if i == hi {
            break;
        }
        i = i + 1;
    }
    out.push('\n');
    assert(out@ =~= old(out)@ + glyph_line(lo as int, hi as int, f));
}

/// Appends the three lines of converging groups (keyed by target) over the
/// columns `lo..=hi`.
pub fn draw_convergence(out: &mut Vec<char>, gs: &Vec<(usize, Vec<usize>)>, lo: usize, hi: usize, keep_bar: bool)
    requires
        lo <= hi,
    ensures
        final(out)@ == old(out)@ + convergence_lines(groups_view(gs@), lo as int, hi as int, keep_bar),
{
    let none: Vec<(usize, usize)> = Vec::new();
    draw_line(out, gs, &none, lo, hi, LineKind::Member(V_LINE));
    draw_line(out, gs, &none, lo, hi, LineKind::Bar(CORNER_DR, CORNER_DL, TEE_UP, keep_bar));
    draw_line(out, gs, &none, lo, hi, LineKind::Key(ARROW_DOWN));
    proof {
        let g = groups_view(gs@);
        assert((|i: int| line_glyph(LineKind::Member(V_LINE), g, none@, i)) =~= (|i: int| mark(in_some_group(g, i), V_LINE)));
        assert(glyph_line(lo as int, hi as int, |i: int| line_glyph(LineKind::Bar(CORNER_DR, CORNER_DL, TEE_UP, keep_bar), g, none@, i))
            =~= glyph_line(lo as int, hi as int, |i: int| bar_glyph(g, i, CORNER_DR, CORNER_DL, TEE_UP, keep_bar)));
        assert((|i: int| line_glyph(LineKind::Key(ARROW_DOWN), g, none@, i)) =~= (|i: int| mark(is_group_key(g, i), ARROW_DOWN)));
    }
    assert(out@ =~= old(out)@ + convergence_lines(groups_view(gs@), lo as int, hi as int, keep_bar));
}

/// Appends the three lines of diverging groups (keyed by source) over the
/// columns `lo..=hi`.
pub fn draw_divergence(out: &mut Vec<char>, gs: &Vec<(usize, Vec<usize>)>, lo: usize, hi: usize, keep_bar: bool)
    requires
        lo <= hi,
    ensures
        final(out)@ == old(out)@ + divergence_lines(groups_view(gs@), lo as int, hi as int, keep_bar),
{
    let none: Vec<(usize, usize)> = Vec::new();
    draw_line(out, gs, &none, lo, hi, LineKind::Key(V_LINE));
    draw_line(out, gs, &none, lo, hi, LineKind::Bar(CORNER_UR, CORNER_UL, TEE_DOWN, keep_bar));
    draw_line(out, gs, &none, lo, hi, LineKind::Member(ARROW_DOWN));
    proof {
        let g = groups_view(gs@);
        assert((|i: int| line_glyph(LineKind::Key(V_LINE), g, none@, i)) =~= (|i: int| mark(is_group_key(g, i), V_LINE)));
        assert(glyph_line(lo as int, hi as int, |i: int| line_glyph(LineKind::Bar(CORNER_UR, CORNER_UL, TEE_DOWN, keep_bar), g, none@, i))
            =~= glyph_line(lo as int, hi as int, |i: int| bar_glyph(g, i, CORNER_UR, CORNER_UL, TEE_DOWN, keep_bar)));
        assert((|i: int| line_glyph(LineKind::Member(ARROW_DOWN), g, none@, i)) =~= (|i: int| mark(in_some_group(g, i), ARROW_DOWN)));
    }
    assert(out@ =~= old(out)@ + divergence_lines(groups_view(gs@), lo as int, hi as int, keep_bar));
}

/// Appends the two lines of plain connections over the columns `lo..=hi`.
pub fn draw_simple(out: &mut Vec<char>, conns: &Vec<(usize, usize)>, lo: usize, hi: usize)
    requires
        lo <= hi,
    ensures
        final(out)@ == old(out)@ + simple_lines(conns@, lo as int, hi as int),
{
    let none: Vec<(usize, Vec<usize>)> = Vec::new();
    draw_line(out, &none, conns, lo, hi, LineKind::Source(V_LINE));
    draw_line(out, &none, conns, lo, hi, LineKind::Source(ARROW_DOWN));
    proof {
        let g = groups_view(none@);
        assert((|i: int| line_glyph(LineKind::Source(V_LINE), g, conns@, i)) =~= (|i: int| mark(is_source(conns@, i), V_LINE)));
        assert((|i: int| line_glyph(LineKind::Source(ARROW_DOWN), g, conns@, i)) =~= (|i: int| mark(is_source(conns@, i), ARROW_DOWN)));
    }
    assert(out@ =~= old(out)@ + simple_lines(conns@, lo as int, hi as int));
}

} // verus!
