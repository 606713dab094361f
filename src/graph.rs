//! The graph store: nodes with labels, edges, and the indexes derived from them.
use std::collections::HashMap;
use vstd::prelude::*;

verus! {

broadcast use vstd::std_specs::hash::group_hash_axioms;

/// How a graph without cycles is laid out.
#[derive(Clone, Copy, Debug, PartialEq, Eq, Structural)]
pub enum RenderMode {
    /// One level per line, with connectors between the lines.
    Vertical,
    /// A single line `[A] → [B] → [C]`.
    Horizontal,
    /// Horizontal for a single simple chain, vertical otherwise.
    Auto,
}

impl Default for RenderMode {
    fn default() -> (r: RenderMode)
        ensures
            r == RenderMode::Auto,
    {
        RenderMode::Auto
    }
}

/// The decimal digit for `d` (taken modulo ten).
pub open spec fn digit_char(d: nat) -> char {
    let d = d % 10;
    if d == 0 {
        '0'
    } else if d == 1 {
        '1'
    } else if d == 2 {
        '2'
    } else if d == 3 {
        '3'
    } else if d == 4 {
        '4'
    } else if d == 5 {
        '5'
    } else if d == 6 {
        '6'
    } else if d == 7 {
        '7'
    } else if d == 8 {
        '8'
    } else {
        '9'
    }
}

/// The decimal text of `n`, without leading zeros.
pub open spec fn decimal(n: nat) -> Seq<char>
    decreases n,
{
    if n < 10 {
        seq![digit_char(n)]
    } else {
        decimal(n / 10).push(digit_char(n % 10))
    }
}

/// Number of decimal digits of `n` (one for zero).
pub open spec fn digit_count(n: nat) -> nat
    decreases n,
{
    if n < 10 {
        1
    } else {
        1 + digit_count(n / 10)
    }
}

/// `10` to the power `k`.
pub open spec fn pow10(k: nat) -> nat
    decreases k,
{
    if k == 0 {
        1
    } else {
        10 * pow10((k - 1) as nat)
    }
}

pub proof fn lemma_decimal_len(n: nat)
    ensures
        decimal(n).len() == digit_count(n),
        1 <= digit_count(n),
    decreases n,
{
    if n >= 10 {
        lemma_decimal_len(n / 10);
    }
}

proof fn lemma_digit_count_bound(n: nat, k: nat)
    requires
        n < pow10(k),
        k >= 1,
    ensures
        digit_count(n) <= k,
    decreases k,
{
    if n >= 10 {
        if k == 1 {
            assert(pow10(1) == 10) by {
                reveal_with_fuel(pow10, 2);
            }
        } else {
            let p = pow10((k - 1) as nat);
            assert(n / 10 < p) by (nonlinear_arith)
                requires
                    n < 10 * p,
            ;
            lemma_digit_count_bound(n / 10, (k - 1) as nat);
        }
    }
}

pub proof fn lemma_usize_digits(n: usize)
    ensures
        1 <= digit_count(n as nat) <= 20,
{
    lemma_decimal_len(n as nat);
    assert(pow10(20) == 100000000000000000000) by {
        reveal_with_fuel(pow10, 21);
    }
    lemma_digit_count_bound(n as nat, 20);
}

/// Whether a node is drawn in the placeholder form `⟨id⟩`.
pub open spec fn is_placeholder_form(label: Seq<char>, auto: bool) -> bool {
    label.len() == 0 || auto
}

/// The text of a node: `⟨id⟩` for a placeholder or an empty label, `[label]` otherwise.
pub open spec fn node_text(id: usize, label: Seq<char>, auto: bool) -> Seq<char> {
    if is_placeholder_form(label, auto) {
        seq!['⟨'] + decimal(id as nat) + seq!['⟩']
    } else {
        seq!['['] + label + seq![']']
    }
}

/// The display width of a node, in characters.
pub open spec fn node_width(id: usize, label: Seq<char>, auto: bool) -> nat {
    if is_placeholder_form(label, auto) {
        2 + digit_count(id as nat)
    } else {
        2 + label.len()
    }
}

/// The mathematical content of a graph store.
pub struct GraphModel {
    /// Node ids, by node index.
    pub ids: Seq<usize>,
    /// Node labels, by node index.
    pub labels: Seq<Seq<char>>,
    /// Whether a node is a placeholder created by an edge, by node index.
    pub auto: Seq<bool>,
    /// Node index of each known id.
    pub index: Map<usize, usize>,
    /// Child indices of each node, in the order the edges were added.
    pub children: Seq<Seq<usize>>,
    /// Parent indices of each node, in the order the edges were added.
    pub parents: Seq<Seq<usize>>,
    /// Edges as `(from_id, to_id)`, in insertion order.
    pub edges: Seq<(usize, usize)>,
    /// The configured layout mode.
    pub mode: RenderMode,
}

impl GraphModel {
    pub open spec fn len(self) -> nat {
        self.ids.len()
    }

    pub open spec fn has_id(self, id: usize) -> bool {
        self.index.contains_key(id)
    }

    /// The text of the node at index `i`.
    pub open spec fn text(self, i: int) -> Seq<char> {
        node_text(self.ids[i], self.labels[i], self.auto[i])
    }

    /// The display width of the node at index `i`.
    pub open spec fn width(self, i: int) -> nat {
        node_width(self.ids[i], self.labels[i], self.auto[i])
    }

    /// The store's consistency conditions.
    pub open spec fn well_formed(self) -> bool {
        let n = self.ids.len();
        &&& self.labels.len() == n
        &&& self.auto.len() == n
        &&& self.children.len() == n
        &&& self.parents.len() == n
        &&& forall|i: int| 0 <= i < n ==> #[trigger] self.index.contains_key(self.ids[i])
            && self.index[self.ids[i]] == i
        &&& forall|id: usize| #[trigger]
            self.index.contains_key(id) ==> self.index[id] < n && self.ids[self.index[id] as int]
                == id
        &&& forall|i: int, k: int|
            0 <= i < n && 0 <= k < self.children[i].len() ==> #[trigger] self.children[i][k] < n
        &&& forall|i: int, k: int|
            0 <= i < n && 0 <= k < self.parents[i].len() ==> #[trigger] self.parents[i][k] < n
        &&& forall|e: int|
            0 <= e < self.edges.len() ==> self.index.contains_key(#[trigger] self.edges[e].0)
                && self.index.contains_key(self.edges[e].1)
        &&& n <= usize::MAX
        &&& forall|i: int, k: int|
            0 <= i < n && 0 <= k < self.children[i].len() ==> self.parents[#[trigger] self.children[i][k] as int].contains(
                i as usize,
            )
        &&& forall|i: int, k: int|
            0 <= i < n && 0 <= k < self.parents[i].len() ==> self.children[#[trigger] self.parents[i][k] as int].contains(
                i as usize,
            )
    }

    /// The store with one more node appended.
    pub open spec fn append(self, id: usize, label: Seq<char>, auto: bool) -> GraphModel {
        GraphModel {
            ids: self.ids.push(id),
            labels: self.labels.push(label),
            auto: self.auto.push(auto),
            index: self.index.insert(id, self.ids.len() as usize),
            children: self.children.push(seq![]),
            parents: self.parents.push(seq![]),
            ..self
        }
    }

    /// Effect of `add_node`: a known id is relabelled and promoted in place,
    /// an unknown id is appended.
    pub open spec fn add_node(self, id: usize, label: Seq<char>) -> GraphModel {
        if self.has_id(id) {
            let i = self.index[id] as int;
            GraphModel { labels: self.labels.update(i, label), auto: self.auto.update(i, false), ..self }
        } else {
            self.append(id, label, false)
        }
    }

    /// Auto-creation of a placeholder for an unknown id.
    pub open spec fn ensure_node(self, id: usize) -> GraphModel {
        if self.has_id(id) {
            self
        } else {
            self.append(id, seq![], true)
        }
    }

    /// Effect of `add_edge`: both endpoints exist afterwards, the edge is
    /// appended, and the two adjacency lists grow by one entry each.
    pub open spec fn add_edge(self, from: usize, to: usize) -> GraphModel {
        let m = self.ensure_node(from).ensure_node(to);
        let fi = m.index[from] as int;
        let ti = m.index[to] as int;
        GraphModel {
            edges: m.edges.push((from, to)),
            children: m.children.update(fi, m.children[fi].push(ti as usize)),
            parents: m.parents.update(ti, m.parents[ti].push(fi as usize)),
            ..m
        }
    }

    /// Node additions in order.
    pub open spec fn add_nodes(self, nodes: Seq<(usize, Seq<char>)>) -> GraphModel
        decreases nodes.len(),
    {
        if nodes.len() == 0 {
            self
        } else {
            self.add_nodes(nodes.drop_last()).add_node(nodes.last().0, nodes.last().1)
        }
    }

    /// Edge additions in order.
    pub open spec fn add_edges(self, edges: Seq<(usize, usize)>) -> GraphModel
        decreases edges.len(),
    {
        if edges.len() == 0 {
            self
        } else {
            self.add_edges(edges.drop_last()).add_edge(edges.last().0, edges.last().1)
        }
    }
}

/// The empty store with a given mode.
pub open spec fn empty_model(mode: RenderMode) -> GraphModel {
    GraphModel {
        ids: seq![],
        labels: seq![],
        auto: seq![],
        index: Map::empty(),
        children: seq![],
        parents: seq![],
        edges: seq![],
        mode,
    }
}

#[verifier::spinoff_prover]
pub proof fn lemma_append_wf(m: GraphModel, id: usize, label: Seq<char>, auto: bool)
    requires
        m.well_formed(),
        !m.has_id(id),
        m.len() < usize::MAX,
    ensures
        m.append(id, label, auto).well_formed(),
{
    let m2 = m.append(id, label, auto);
    assert(m2.len() == m.len() + 1 && m2.len() <= usize::MAX);
    assert(m2.labels.len() == m2.len() && m2.auto.len() == m2.len() && m2.children.len() == m2.len()
        && m2.parents.len() == m2.len());
    assert forall|x: usize| #[trigger] m2.index.contains_key(x) implies m2.index[x] < m2.len() && m2.ids[m2.index[x] as int]
        == x by {
        if x != id {
            assert(m.index.contains_key(x));
        }
    }
    assert forall|e: int| 0 <= e < m2.edges.len() implies m2.index.contains_key(#[trigger] m2.edges[e].0)
        && m2.index.contains_key(m2.edges[e].1) by {
        assert(m.index.contains_key(m.edges[e].0) && m.index.contains_key(m.edges[e].1));
    }
    assert forall|i: int| 0 <= i < m2.len() implies #[trigger] m2.index.contains_key(m2.ids[i])
        && m2.index[m2.ids[i]] == i by {
        if i < m.len() {
            assert(m.index.contains_key(m.ids[i]));
        }
    }
    assert forall|i: int, k: int|
        0 <= i < m2.len() && 0 <= k < m2.children[i].len() implies #[trigger] m2.children[i][k]
        < m2.len() by {
        if i < m.len() {
            assert(m.children[i][k] < m.len());
        }
    }
    assert forall|i: int, k: int|
        0 <= i < m2.len() && 0 <= k < m2.parents[i].len() implies #[trigger] m2.parents[i][k]
        < m2.len() by {
        if i < m.len() {
            assert(m.parents[i][k] < m.len());
        }
    }
    assert forall|i: int, k: int|
        0 <= i < m2.len() && 0 <= k < m2.children[i].len() implies m2.parents[#[trigger] m2.children[i][k] as int].contains(
            i as usize,
        ) by {
        if i < m.len() {
            let c = m.children[i][k] as int;
            assert(m.parents[c].contains(i as usize));
            assert(c < m.len());
            assert(m2.parents[c] == m.parents[c]);
        }
    }
    assert forall|i: int, k: int|
        0 <= i < m2.len() && 0 <= k < m2.parents[i].len() implies m2.children[#[trigger] m2.parents[i][k] as int].contains(
            i as usize,
        ) by {
        if i < m.len() {
            let c = m.parents[i][k] as int;
            assert(m.children[c].contains(i as usize));
            assert(c < m.len());
            assert(m2.children[c] == m.children[c]);
        }
    }
}

#[verifier::spinoff_prover]
pub proof fn lemma_add_node_wf(m: GraphModel, id: usize, label: Seq<char>)
    requires
        m.well_formed(),
        m.len() < usize::MAX,
    ensures
        m.add_node(id, label).well_formed(),
        m.add_node(id, label).len() <= m.len() + 1,
        m.add_node(id, label).edges == m.edges,
{
    if !m.has_id(id) {
        lemma_append_wf(m, id, label, false);
    }
}

#[verifier::spinoff_prover]
pub proof fn lemma_add_node_wf_exact(m: GraphModel, id: usize, label: Seq<char>)
    requires
        m.well_formed(),
        m.has_id(id),
    ensures
        m.add_node(id, label).well_formed(),
        m.add_node(id, label).len() == m.len(),
        m.add_node(id, label).index == m.index,
{
    let m2 = m.add_node(id, label);
    assert(m2.children == m.children && m2.parents == m.parents && m2.ids == m.ids && m2.index == m.index
        && m2.edges == m.edges && m2.labels.len() == m.labels.len() && m2.auto.len() == m.auto.len());
}

pub proof fn lemma_ensure_wf(m: GraphModel, id: usize)
    requires
        m.well_formed(),
        m.len() < usize::MAX,
    ensures
        m.ensure_node(id).well_formed(),
        m.ensure_node(id).has_id(id),
        m.ensure_node(id).len() <= m.len() + 1,
        forall|k: usize| m.has_id(k) ==> #[trigger] m.ensure_node(id).has_id(k),
{
    if !m.has_id(id) {
        lemma_append_wf(m, id, seq![], true);
    }
}

#[verifier::spinoff_prover]
pub proof fn lemma_add_edge_wf(m: GraphModel, from: usize, to: usize)
    requires
        m.well_formed(),
        m.len() + 2 <= usize::MAX,
    ensures
        m.add_edge(from, to).well_formed(),
        m.add_edge(from, to).len() <= m.len() + 2,
        m.add_edge(from, to).edges.len() == m.edges.len() + 1,
{
    lemma_ensure_wf(m, from);
    let m1 = m.ensure_node(from);
    lemma_ensure_wf(m1, to);
    let m2 = m1.ensure_node(to);
    let r = m.add_edge(from, to);
    let fi = m2.index[from] as int;
    let ti = m2.index[to] as int;
    assert forall|i: int, k: int|
        0 <= i < r.len() && 0 <= k < r.children[i].len() implies #[trigger] r.children[i][k]
        < r.len() by {
        if i != fi || k < m2.children[i].len() {
            assert(m2.children[i][k] < m2.len());
        }
    }
    assert forall|i: int, k: int|
        0 <= i < r.len() && 0 <= k < r.parents[i].len() implies #[trigger] r.parents[i][k]
        < r.len() by {
        if i != ti || k < m2.parents[i].len() {
            assert(m2.parents[i][k] < m2.len());
        }
    }
    assert(r.index == m2.index);
    assert(m2.has_id(from) && m2.has_id(to));
    assert forall|e: int| 0 <= e < r.edges.len() implies r.index.contains_key(
        #[trigger] r.edges[e].0,
    ) && r.index.contains_key(r.edges[e].1) by {
        if e < m.edges.len() {
            assert(m2.edges[e] == m.edges[e]);
            assert(r.edges[e] == m.edges[e]);
            assert(m.has_id(m.edges[e].0) && m.has_id(m.edges[e].1));
            assert(m1.has_id(m.edges[e].0) && m1.has_id(m.edges[e].1));
        } else {
            assert(r.edges[e] == (from, to));
        }
    }
    assert forall|i: int, k: int|
        0 <= i < r.len() && 0 <= k < r.children[i].len() implies r.parents[#[trigger] r.children[i][k] as int].contains(
            i as usize,
        ) by {
        let c = r.children[i][k] as int;
        if i == fi && k == m2.children[i].len() {
            assert(c == ti);
            assert(r.parents[ti] == m2.parents[ti].push(fi as usize));
            assert(r.parents[ti][m2.parents[ti].len() as int] == fi as usize);
        } else {
            assert(m2.children[i][k] == r.children[i][k]);
            assert(m2.parents[c].contains(i as usize));
            let q = m2.parents[c].index_of(i as usize);
            assert(r.parents[c][q] == i as usize);
        }
    }
    assert forall|i: int, k: int|
        0 <= i < r.len() && 0 <= k < r.parents[i].len() implies r.children[#[trigger] r.parents[i][k] as int].contains(
            i as usize,
        ) by {
        let c = r.parents[i][k] as int;
        if i == ti && k == m2.parents[i].len() {
            assert(c == fi);
            assert(r.children[fi] == m2.children[fi].push(ti as usize));
            assert(r.children[fi][m2.children[fi].len() as int] == ti as usize);
        } else {
            assert(m2.parents[i][k] == r.parents[i][k]);
            assert(m2.children[c].contains(i as usize));
            let q = m2.children[c].index_of(i as usize);
            assert(r.children[c][q] == i as usize);
        }
    }
}

/// A directed graph of labelled nodes, rendered as text.
pub struct DAG {
    nodes: Vec<(usize, Vec<char>)>,
    edges: Vec<(usize, usize)>,
    render_mode: RenderMode,
    auto_created: Vec<bool>,
    id_to_index: HashMap<usize, usize>,
    node_widths: Vec<usize>,
    children: Vec<Vec<usize>>,
    parents: Vec<Vec<usize>>,
}

impl View for DAG {
    type V = GraphModel;

    closed spec fn view(&self) -> GraphModel {
        GraphModel {
            ids: self.nodes@.map_values(|p: (usize, Vec<char>)| p.0),
            labels: self.nodes@.map_values(|p: (usize, Vec<char>)| p.1@),
            auto: self.auto_created@,
            index: self.id_to_index@,
            children: self.children@.map_values(|c: Vec<usize>| c@),
            parents: self.parents@.map_values(|c: Vec<usize>| c@),
            edges: self.edges@,
            mode: self.render_mode,
        }
    }
}

impl Default for DAG {
    fn default() -> (r: DAG)
        ensures
            r.wf(),
            r@ == empty_model(RenderMode::Auto),
    {
        DAG::new()
    }
}

impl DAG {
    /// The store is consistent: its model is well formed and the cached
    /// widths are those of the nodes.
    pub open spec fn wf(&self) -> bool {
        &&& self@.well_formed()
        &&& self.widths_cached()
        &&& self@.len() <= usize::MAX
    }

    proof fn lemma_fields(&self)
        ensures
            self@.ids.len() == self.nodes@.len(),
            self@.labels.len() == self.nodes@.len(),
            self@.children.len() == self.children@.len(),
            self@.parents.len() == self.parents@.len(),
            forall|i: int| 0 <= i < self.nodes@.len() ==> self@.ids[i] == #[trigger] self.nodes@[i].0,
            forall|i: int| 0 <= i < self.nodes@.len() ==> self@.labels[i] == #[trigger] self.nodes@[i].1@,
            forall|i: int|
                0 <= i < self.children@.len() ==> self@.children[i] == #[trigger] self.children@[i]@,
            forall|i: int|
                0 <= i < self.parents@.len() ==> self@.parents[i] == #[trigger] self.parents@[i]@,
    {
    }

    /// The cached widths are those of the nodes.
    pub closed spec fn widths_cached(&self) -> bool {
        &&& self.node_widths@.len() == self@.len()
        &&& forall|i: int| 0 <= i < self@.len() ==> #[trigger] self.node_widths@[i] == self@.width(i)
    }

    /// An empty graph with the default (automatic) mode.
    pub fn new() -> (r: DAG)
        ensures
            r.wf(),
            r@ == empty_model(RenderMode::Auto),
    {
        Self::with_mode(RenderMode::Auto)
    }

    /// An empty graph with the given mode.
    pub fn with_mode(mode: RenderMode) -> (r: DAG)
        ensures
            r.wf(),
            r@ == empty_model(mode),
    {
        let r = DAG {
            nodes: Vec::new(),
            edges: Vec::new(),
            render_mode: mode,
            auto_created: Vec::new(),
            id_to_index: HashMap::new(),
            node_widths: Vec::new(),
            children: Vec::new(),
            parents: Vec::new(),
        };
        assert(r@.ids =~= seq![]);
        assert(r@.labels =~= seq![]);
        assert(r@.children =~= seq![]);
        assert(r@.parents =~= seq![]);
        assert(r@.index =~= Map::empty());
        r
    }

    /// A graph built from a node list and an edge list: the same as adding
    /// each node in order, then each edge in order.
    pub fn from_edges(nodes: &[(usize, &str)], edges: &[(usize, usize)]) -> (r: DAG)
        requires
            nodes@.len() + 2 * edges@.len() < usize::MAX,
            forall|k: int| 0 <= k < nodes@.len() ==> #[trigger] nodes@[k].1@.len() + 2 <= usize::MAX,
        ensures
            r.wf(),
            r@ == empty_model(RenderMode::Auto).add_nodes(
                nodes@.map_values(|p: (usize, &str)| (p.0, p.1@)),
            ).add_edges(edges@),
    {
        let mut dag = DAG::new();
        let ghost ns = nodes@.map_values(|p: (usize, &str)| (p.0, p.1@));
        let mut i: usize = 0;
        while i < nodes.len()
            invariant
                i <= nodes@.len(),
                nodes@.len() + 2 * edges@.len() < usize::MAX,
                ns == nodes@.map_values(|p: (usize, &str)| (p.0, p.1@)),
                forall|k: int| 0 <= k < nodes@.len() ==> #[trigger] nodes@[k].1@.len() + 2 <= usize::MAX,
                dag.wf(),
                dag@ == empty_model(RenderMode::Auto).add_nodes(ns.take(i as int)),
                dag@.len() <= i,
                dag@.edges.len() == 0,
            decreases nodes@.len() - i,
        {
            let (id, label) = nodes[i];
            dag.add_node(id, label);
            proof {
                assert(ns.take(i as int + 1).drop_last() =~= ns.take(i as int));
            }
            i = i + 1;
        }
        assert(ns.take(nodes@.len() as int) =~= ns);
        let ghost base = dag@;
        let mut j: usize = 0;
        while j < edges.len()
            invariant
                j <= edges@.len(),
                nodes@.len() + 2 * edges@.len() < usize::MAX,
                dag.wf(),
                dag@ == base.add_edges(edges@.take(j as int)),
                dag@.len() <= nodes@.len() + 2 * j,
            decreases edges@.len() - j,
        {
            let (from, to) = edges[j];
            dag.add_edge(from, to);
            proof {
                assert(edges@.take(j as int + 1).drop_last() =~= edges@.take(j as int));
            }
            j = j + 1;
        }
        assert(edges@.take(edges@.len() as int) =~= edges@);
        dag
    }

    /// Sets the layout mode.
    pub fn set_render_mode(&mut self, mode: RenderMode)
        requires
            old(self).wf(),
        ensures
            final(self).wf(),
            final(self)@ == (GraphModel { mode, ..old(self)@ }),
    {
        self.render_mode = mode;
    }

    /// Adds a node, or relabels and promotes the node that has this id.
    pub fn add_node(&mut self, id: usize, label: &str)
        requires
            old(self).wf(),
            old(self)@.len() < usize::MAX,
            label@.len() + 2 <= usize::MAX,
        ensures
            final(self).wf(),
            final(self)@ == old(self)@.add_node(id, label@),
    {
        let chars = str_to_chars(label);
        let auto = false;
        let width = Self::compute_node_width(id, &chars, auto);
        proof {
            lemma_add_node_wf(self@, id, label@);
        }
        let ghost m0 = self@;
        match self.id_to_index.get(&id) {
            Some(idx_ref) => {
                let idx = *idx_ref;
                self.nodes.set(idx, (id, chars));
                self.auto_created.set(idx, false);
                self.node_widths.set(idx, width);
                proof {
                    let m1 = m0.add_node(id, label@);
                    assert(self@.ids =~= m1.ids);
                    assert(self@.labels =~= m1.labels);
                    assert(self@.children =~= m1.children);
                    assert(self@.parents =~= m1.parents);
                    assert(self@.auto =~= m1.auto);
                }
            },
            None => {
                self.push_node(id, chars, auto, width);
            },
        }
    }

    /// Appends a node that is not yet known.
    fn push_node(&mut self, id: usize, chars: Vec<char>, auto: bool, width: usize)
        requires
            old(self).wf(),
            !old(self)@.has_id(id),
            old(self)@.len() < usize::MAX,
            width == node_width(id, chars@, auto),
        ensures
            final(self).wf(),
            final(self)@ == old(self)@.append(id, chars@, auto),
    {
        let ghost m0 = self@;
        let ghost label = chars@;
        proof {
            lemma_append_wf(m0, id, label, auto);
        }
        let idx = self.nodes.len();
        self.nodes.push((id, chars));
        self.auto_created.push(auto);
        self.id_to_index.insert(id, idx);
        self.node_widths.push(width);
        self.children.push(Vec::new());
        self.parents.push(Vec::new());
        proof {
            let m1 = m0.append(id, label, auto);
            assert(self@.ids =~= m1.ids);
            assert(self@.labels =~= m1.labels);
            assert(self@.children =~= m1.children);
            assert(self@.parents =~= m1.parents);
            assert(self@.auto =~= m1.auto);
            assert forall|i: int| 0 <= i < self@.len() implies #[trigger] self.node_widths@[i]
                == self@.width(i) by {
                if i < m0.len() {
                    assert(self.node_widths@[i] == m0.width(i));
                }
            }
        }
    }

    /// Adds the edge `(from, to)`, creating a placeholder for each unknown endpoint.
    pub fn add_edge(&mut self, from: usize, to: usize)
        requires
            old(self).wf(),
            old(self)@.len() + 2 <= usize::MAX,
        ensures
            final(self).wf(),
            final(self)@ == old(self)@.add_edge(from, to),
    {
        let ghost m0 = self@;
        proof {
            lemma_ensure_wf(m0, from);
            lemma_add_edge_wf(m0, from, to);
        }
        self.ensure_node_exists(from);
        self.ensure_node_exists(to);
        let ghost m2 = self@;
        self.edges.push((from, to));
        let fi = *self.id_to_index.get(&from).unwrap();
        let ti = *self.id_to_index.get(&to).unwrap();
        self.children[fi].push(ti);
        self.parents[ti].push(fi);
        proof {
            let r = m0.add_edge(from, to);
            assert(self@.ids =~= r.ids);
            assert(self@.labels =~= r.labels);
            assert(self@.children =~= r.children);
            assert(self@.parents =~= r.parents);
        }
    }

    /// Creates a placeholder node for `id` when it is unknown.
    fn ensure_node_exists(&mut self, id: usize)
        requires
            old(self).wf(),
            old(self)@.len() < usize::MAX,
        ensures
            final(self).wf(),
            final(self)@ == old(self)@.ensure_node(id),
    {
        if !self.id_to_index.contains_key(&id) {
            let chars: Vec<char> = Vec::new();
            let width = Self::compute_node_width(id, &chars, true);
            self.push_node(id, chars, true, width);
            assert(self@ == old(self)@.ensure_node(id)) by {
                assert(chars@ =~= seq![]);
            }
        }
    }

    /// Whether the node with this id is a placeholder created by an edge.
    pub fn is_auto_created(&self, id: usize) -> (r: bool)
        requires
            self.wf(),
        ensures
            r == (self@.has_id(id) && self@.auto[self@.index[id] as int]),
    {
        proof {
            self.lemma_fields();
        }
        match self.id_to_index.get(&id) {
            Some(i) => {
                assert(self@.index.contains_key(id));
                assert(*i < self@.len());
                self.auto_created[*i]
            },
            None => false,
        }
    }

    /// The nodes as `(id, label)`, by node index.
    pub fn nodes(&self) -> (r: &Vec<(usize, Vec<char>)>)
        ensures
            r@.map_values(|p: (usize, Vec<char>)| p.0) == self@.ids,
            r@.map_values(|p: (usize, Vec<char>)| p.1@) == self@.labels,
    {
        &self.nodes
    }

    /// The id of the node at index `idx`.
    pub fn node_id(&self, idx: usize) -> (r: usize)
        requires
            self.wf(),
            idx < self@.len(),
        ensures
            r == self@.ids[idx as int],
    {
        proof {
            self.lemma_fields();
        }
        self.nodes[idx].0
    }

    /// Number of edges.
    pub fn edge_count(&self) -> (r: usize)
        ensures
            r == self@.edges.len(),
    {
        self.edges.len()
    }

    /// The edge at position `e`, as `(from_id, to_id)`.
    pub fn edge_at(&self, e: usize) -> (r: (usize, usize))
        requires
            e < self@.edges.len(),
        ensures
            r == self@.edges[e as int],
    {
        self.edges[e]
    }

    /// Appends the decimal text of `n`.
    pub fn write_usize(buf: &mut Vec<char>, n: usize)
        ensures
            final(buf)@ == old(buf)@ + decimal(n as nat),
        decreases n,
    {
        if n < 10 {
            buf.push(digit_to_char(n));
        } else {
            Self::write_usize(buf, n / 10);
            buf.push(digit_to_char(n % 10));
            proof {
                assert(decimal(n as nat) == decimal((n / 10) as nat).push(digit_char((n % 10) as nat)));
            }
            assert(buf@ =~= old(buf)@ + decimal(n as nat));
        }
    }

    /// Number of decimal digits of `n`.
    pub fn count_digits(n: usize) -> (r: usize)
        ensures
            r == digit_count(n as nat),
            1 <= r <= 20,
    {
        let mut m = n;
        let mut count: usize = 1;
        proof {
            lemma_usize_digits(n);
            lemma_decimal_len(m as nat);
        }
        while m >= 10
            invariant
                1 <= count <= 20,
                digit_count(n as nat) == count - 1 + digit_count(m as nat),
                digit_count(n as nat) <= 20,
                1 <= digit_count(m as nat),
            decreases m,
        {
            proof {
                lemma_decimal_len((m / 10) as nat);
            }
            m = m / 10;
            count = count + 1;
        }
        count
    }

    /// The display width of a node with this id, label and placeholder flag.
    pub fn compute_node_width(id: usize, label: &Vec<char>, auto: bool) -> (r: usize)
        requires
            label@.len() + 2 <= usize::MAX,
        ensures
            r == node_width(id, label@, auto),
    {
        if label.len() == 0 || auto {
            2 + Self::count_digits(id)
        } else {
            2 + label.len()
        }
    }

    /// Appends the text of the node at index `idx`.
    pub fn write_node(&self, out: &mut Vec<char>, idx: usize)
        requires
            self.wf(),
            idx < self@.len(),
        ensures
            final(out)@ == old(out)@ + self@.text(idx as int),
    {
        let id = self.nodes[idx].0;
        let label = &self.nodes[idx].1;
        if label.len() == 0 || self.auto_created[idx] {
            out.push('⟨');
            Self::write_usize(out, id);
            out.push('⟩');
        } else {
            out.push('[');
            let mut k: usize = 0;
            while k < label.len()
                invariant
                    k <= label@.len(),
                    out@ == old(out)@ + seq!['['] + label@.take(k as int),
                decreases label@.len() - k,
            {
                out.push(label[k]);
                k = k + 1;
                assert(label@.take(k as int) =~= label@.take(k as int - 1).push(label@[k - 1]));
            }
            out.push(']');
            assert(label@.take(label@.len() as int) =~= label@);
        }
        assert(out@ =~= old(out)@ + self@.text(idx as int));
    }

    /// Ids of the children of the node with this id (empty for an unknown id).
    pub fn get_children(&self, node_id: usize) -> (r: Vec<usize>)
        requires
            self.wf(),
        ensures
            self@.has_id(node_id) ==> r@ == self@.children[self@.index[node_id] as int].map_values(
                |c: usize| self@.ids[c as int],
            ),
            !self@.has_id(node_id) ==> r@.len() == 0,
    {
        proof {
            self.lemma_fields();
        }
        match self.id_to_index.get(&node_id) {
            Some(i) => {
                assert(self@.index.contains_key(node_id));
                let c = &self.children[*i];
                assert(c@ == self@.children[*i as int]);
                assert forall|k: int| 0 <= k < c@.len() implies #[trigger] c@[k] < self@.len() by {
                    assert(self@.children[*i as int][k] < self@.len());
                }
                self.ids_of(c)
            },
            None => Vec::new(),
        }
    }

    /// Ids of the parents of the node with this id (empty for an unknown id).
    pub fn get_parents(&self, node_id: usize) -> (r: Vec<usize>)
        requires
            self.wf(),
        ensures
            self@.has_id(node_id) ==> r@ == self@.parents[self@.index[node_id] as int].map_values(
                |c: usize| self@.ids[c as int],
            ),
            !self@.has_id(node_id) ==> r@.len() == 0,
    {
        proof {
            self.lemma_fields();
        }
        match self.id_to_index.get(&node_id) {
            Some(i) => {
                assert(self@.index.contains_key(node_id));
                let c = &self.parents[*i];
                assert(c@ == self@.parents[*i as int]);
                assert forall|k: int| 0 <= k < c@.len() implies #[trigger] c@[k] < self@.len() by {
                    assert(self@.parents[*i as int][k] < self@.len());
                }
                self.ids_of(c)
            },
            None => Vec::new(),
        }
    }

    /// Ids of the nodes at the given indices.
    fn ids_of(&self, idxs: &Vec<usize>) -> (r: Vec<usize>)
        requires
            self.wf(),
            forall|k: int| 0 <= k < idxs@.len() ==> #[trigger] idxs@[k] < self@.len(),
        ensures
            r@ == idxs@.map_values(|c: usize| self@.ids[c as int]),
    {
        let mut r: Vec<usize> = Vec::new();
        let mut k: usize = 0;
        while k < idxs.len()
            invariant
                self.wf(),
                k <= idxs@.len(),
                forall|j: int| 0 <= j < idxs@.len() ==> #[trigger] idxs@[j] < self@.len(),
                r@ == idxs@.take(k as int).map_values(|c: usize| self@.ids[c as int]),
            decreases idxs@.len() - k,
        {
            let c = idxs[k];
            r.push(self.nodes[c].0);
            k = k + 1;
            assert(r@ =~= idxs@.take(k as int).map_values(|c: usize| self@.ids[c as int]));
        }
        assert(idxs@.take(k as int) =~= idxs@);
        r
    }

    /// Child indices of the node at index `idx`.
    pub fn get_children_indices(&self, idx: usize) -> (r: &Vec<usize>)
        requires
            self.wf(),
            idx < self@.len(),
        ensures
            r@ == self@.children[idx as int],
    {
        &self.children[idx]
    }

    /// Parent indices of the node at index `idx`.
    pub fn get_parents_indices(&self, idx: usize) -> (r: &Vec<usize>)
        requires
            self.wf(),
            idx < self@.len(),
        ensures
            r@ == self@.parents[idx as int],
    {
        &self.parents[idx]
    }

    /// The node index of this id, if it is known.
    pub fn node_index(&self, id: usize) -> (r: Option<usize>)
        requires
            self.wf(),
        ensures
            r == (if self@.has_id(id) {
                Some(self@.index[id])
            } else {
                None
            }),
    {
        match self.id_to_index.get(&id) {
            Some(i) => Some(*i),
            None => None,
        }
    }

    /// The cached display width of the node at index `idx` (zero past the end).
    pub fn get_node_width(&self, idx: usize) -> (r: usize)
        requires
            self.wf(),
        ensures
            idx < self@.len() ==> r == self@.width(idx as int),
            idx >= self@.len() ==> r == 0,
    {
        if idx < self.node_widths.len() {
            self.node_widths[idx]
        } else {
            0
        }
    }

    /// Number of nodes.
    pub fn node_count(&self) -> (r: usize)
        ensures
            r == self@.len(),
    {
        self.nodes.len()
    }

    /// The configured layout mode.
    pub fn render_mode(&self) -> (r: RenderMode)
        ensures
            r == self@.mode,
    {
        self.render_mode
    }

    /// A capacity hint for the rendered text: `nodes × 25 + edges × 15 + 200`,
    /// saturated at `usize::MAX`.
    pub fn estimate_size(&self) -> (r: usize)
        ensures
            r as int == (if self@.len() * 25 + self@.edges.len() * 15 + 200 <= usize::MAX {
                self@.len() * 25 + self@.edges.len() * 15 + 200
            } else {
                usize::MAX as nat
            }),
    {
        let total: u128 = self.nodes.len() as u128 * 25 + self.edges.len() as u128 * 15 + 200;
        if total <= usize::MAX as u128 {
            total as usize
        } else {
            usize::MAX
        }
    }
}

/// The decimal digit character for `d < 10`.
pub fn digit_to_char(d: usize) -> (c: char)
    requires
        d < 10,
    ensures
        c == digit_char(d as nat),
{
    if d == 0 {
        '0'
    } else if d == 1 {
        '1'
    } else if d == 2 {
        '2'
    } else if d == 3 {
        '3'
    } else if d == 4 {
        '4'
    } else if d == 5 {
        '5'
    } else if d == 6 {
        '6'
    } else if d == 7 {
        '7'
    } else if d == 8 {
        '8'
    } else {
        '9'
    }
}

/// The characters of a string slice.
pub fn str_to_chars(s: &str) -> (r: Vec<char>)
    ensures
        r@ == s@,
{
    let n = s.unicode_len();
    let mut r: Vec<char> = Vec::new();
    let mut k: usize = 0;
    while k < n
        invariant
            n == s@.len(),
            k <= n,
            r@ == s@.take(k as int),
        decreases n - k,
    {
        r.push(s.get_char(k));
        k = k + 1;
        assert(r@ =~= s@.take(k as int));
    }
    assert(s@.take(n as int) =~= s@);
    r
}

} // verus!
