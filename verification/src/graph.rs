//! Graph data model: vertices paired with a priority value, directed
//! weighted edges, and two interchangeable graph representations.

use vstd::prelude::*;

verus! {

/// Pairs a node identifier with an ordering value (typically a tentative
/// distance). Equality and ordering are defined by `value` only: the
/// priority queue orders candidates purely by priority, `id` is payload.
#[derive(Clone, Copy, Debug)]
pub struct Vertex {
    pub value: i64,
    pub id: usize,
}

impl PartialEq for Vertex {
    fn eq(&self, other: &Vertex) -> (r: bool)
        ensures
            r == (self.value == other.value),
    {
        self.value == other.value
    }
}

impl vstd::std_specs::cmp::PartialEqSpecImpl for Vertex {
    open spec fn obeys_eq_spec() -> bool {
        true
    }

    open spec fn eq_spec(&self, other: &Vertex) -> bool {
        self.value == other.value
    }
}

impl PartialOrd for Vertex {
    fn partial_cmp(&self, other: &Vertex) -> (r: Option<core::cmp::Ordering>) {
        if self.value < other.value {
            Some(core::cmp::Ordering::Less)
        } else if self.value == other.value {
            Some(core::cmp::Ordering::Equal)
        } else {
            Some(core::cmp::Ordering::Greater)
        }
    }
}

impl vstd::std_specs::cmp::PartialOrdSpecImpl for Vertex {
    open spec fn obeys_partial_cmp_spec() -> bool {
        true
    }

    open spec fn partial_cmp_spec(&self, other: &Vertex) -> Option<core::cmp::Ordering> {
        if self.value < other.value {
            Some(core::cmp::Ordering::Less)
        } else if self.value == other.value {
            Some(core::cmp::Ordering::Equal)
        } else {
            Some(core::cmp::Ordering::Greater)
        }
    }
}

/// A directed edge with an integer weight; weights may be negative, which
/// the Bellman-Ford-style algorithm needs for its negative-cycle test.
/// Duplicate edges and self-loops are legal.
#[derive(Clone, Copy, Debug, PartialEq, Eq, Structural)]
pub struct Edge {
    pub weight: i32,
    pub from: usize,
    pub to: usize,
}

impl Edge {
    /// The identifier of the edge's target.
    pub fn id(&self) -> (r: &usize)
        ensures
            *r == self.to,
    {
        &self.to
    }

    /// The edge's weight.
    pub fn weight(&self) -> (r: i32)
        ensures
            r == self.weight,
    {
        self.weight
    }
}

/// The given identifiers with duplicates dropped, keeping the first
/// occurrence of each, in order.
pub open spec fn dedup_first(s: Seq<usize>) -> Seq<usize>
    decreases s.len(),
{
    if s.len() == 0 {
        Seq::empty()
    } else {
        let rest = dedup_first(s.drop_last());
        if rest.contains(s.last()) {
            rest
        } else {
            rest.push(s.last())
        }
    }
}

/// `dedup_first` keeps exactly the identifiers of its input, once each.
pub proof fn lemma_dedup_first(s: Seq<usize>)
    ensures
        dedup_first(s).no_duplicates(),
        forall|k: usize| dedup_first(s).contains(k) <==> s.contains(k),
    decreases s.len(),
{
    if s.len() > 0 {
        lemma_dedup_first(s.drop_last());
        assert forall|k: usize| dedup_first(s).contains(k) implies s.contains(k) by {
            let rest = dedup_first(s.drop_last());
            if rest.contains(k) {
                assert(s.drop_last().contains(k));
                let i = choose|i: int|
                    0 <= i < s.drop_last().len() && s.drop_last()[i] == k;
                assert(s.drop_last()[i] == s[i]);
                assert(s[i] == k);
            } else {
                let d = dedup_first(s);
                let i = choose|i: int| 0 <= i < d.len() && d[i] == k;
                assert(d == rest.push(s.last()));
                if i < rest.len() {
                    assert(rest[i] == k);
                } else {
                    assert(s[s.len() - 1] == k);
                }
            }
        }
        assert forall|k: usize| s.contains(k) implies dedup_first(s).contains(k) by {
            let rest = dedup_first(s.drop_last());
            let i = choose|i: int| 0 <= i < s.len() && s[i] == k;
            if i < s.len() - 1 {
                assert(s.drop_last()[i] == k);
                assert(s.drop_last().contains(k));
                assert(rest.contains(k));
                let w = choose|w: int| 0 <= w < rest.len() && rest[w] == k;
                if !rest.contains(s.last()) {
                    assert(dedup_first(s)[w] == k);
                }
            } else {
                if rest.contains(k) {
                    assert(dedup_first(s) == rest);
                } else {
                    assert(dedup_first(s) == rest.push(s.last()));
                    assert(dedup_first(s)[rest.len() as int] == k);
                }
            }
        }
    }
}

/// In a duplicate-free sequence, `index_of` finds the one slot that holds
/// the needle.
pub proof fn lemma_index_of_unique(s: Seq<usize>, i: int)
    requires
        s.no_duplicates(),
        0 <= i < s.len(),
    ensures
        s.index_of(s[i]) == i,
{
    let j = s.index_of(s[i]);
    assert(0 <= j < s.len() && s[j] == s[i]);
}

/// The adjacency map that a freshly built sparse graph holds: every given
/// node keyed to an empty edge list.
pub open spec fn initial_sparse(nodes: Seq<usize>) -> Map<usize, Seq<Edge>> {
    Map::new(|k: usize| nodes.contains(k), |k: usize| Seq::<Edge>::empty())
}

/// One directed edge appended to its source's list, the source lazily
/// registered if it was unknown.
pub open spec fn sparse_connect_spec(m: Map<usize, Seq<Edge>>, e: Edge) -> Map<usize, Seq<Edge>> {
    if m.contains_key(e.from) {
        m.insert(e.from, m[e.from].push(e))
    } else {
        m.insert(e.from, seq![e])
    }
}

/// The node enumeration after one `connect`: unchanged, or extended by a
/// lazily registered source.
pub open spec fn sparse_connect_order_spec(order: Seq<usize>, from: usize) -> Seq<usize> {
    if order.contains(from) {
        order
    } else {
        order.push(from)
    }
}

/// `sparse_connect_spec` folded over a whole edge sequence, in order.
pub open spec fn sparse_connect_all_spec(m: Map<usize, Seq<Edge>>, edges: Seq<Edge>) -> Map<
    usize,
    Seq<Edge>,
>
    decreases edges.len(),
{
    if edges.len() == 0 {
        m
    } else {
        sparse_connect_spec(sparse_connect_all_spec(m, edges.drop_last()), edges.last())
    }
}

/// `sparse_connect_order_spec` folded over a whole edge sequence.
pub open spec fn sparse_connect_all_order_spec(order: Seq<usize>, edges: Seq<Edge>) -> Seq<usize>
    decreases edges.len(),
{
    if edges.len() == 0 {
        order
    } else {
        sparse_connect_order_spec(
            sparse_connect_all_order_spec(order, edges.drop_last()),
            edges.last().from,
        )
    }
}

/// Sparse adjacency-list graph: node identifiers in first-registration
/// order, each with its ordered list of outgoing edges. The view is the
/// map from identifier to edge list.
pub struct SparseGraph {
    nodes: Vec<usize>,
    lists: Vec<Vec<Edge>>,
}

impl View for SparseGraph {
    type V = Map<usize, Seq<Edge>>;

    closed spec fn view(&self) -> Map<usize, Seq<Edge>> {
        Map::new(
            |k: usize| self.nodes@.contains(k),
            |k: usize| self.lists@[self.nodes@.index_of(k)]@,
        )
    }
}

impl SparseGraph {
    /// The registered node identifiers, in first-registration order.
    pub closed spec fn node_order(&self) -> Seq<usize> {
        self.nodes@
    }

    /// Well-formedness: one edge list per registered node, no identifier
    /// registered twice, and each list holds only edges leaving its node.
    pub closed spec fn wf(&self) -> bool {
        &&& self.nodes@.no_duplicates()
        &&& self.nodes@.len() == self.lists@.len()
        &&& forall|i: int, j: int|
            0 <= i < self.nodes@.len() && 0 <= j < self.lists@[i]@.len()
                ==> (#[trigger] self.lists@[i]@[j]).from == self.nodes@[i]
    }

    /// Every edge in a node's list leaves that node.
    pub proof fn lemma_edge_sources(&self)
        requires
            self.wf(),
        ensures
            forall|k: usize, j: int|
                self@.contains_key(k) && 0 <= j < self@[k].len() ==> (#[trigger] self@[k][j]).from
                    == k,
    {
        assert forall|k: usize, j: int|
            self@.contains_key(k) && 0 <= j < self@[k].len() implies (#[trigger] self@[k][j]).from
            == k by {
            let i = self.nodes@.index_of(k);
            assert(self.nodes@.contains(k));
            assert(0 <= i < self.nodes@.len() && self.nodes@[i] == k);
            assert(self@[k] == self.lists@[i]@);
        }
    }

    /// The view's keys are exactly the enumerated nodes.
    pub proof fn lemma_dom(&self)
        ensures
            forall|k: usize| self@.contains_key(k) <==> self.node_order().contains(k),
            self.node_order().no_duplicates() ==> self.node_order().to_set() =~= self@.dom(),
    {
        if self.node_order().no_duplicates() {
            assert forall|k: usize| #[trigger]
                self.node_order().to_set().contains(k) implies self@.dom().contains(k) by {}
        }
    }

    fn index_of_node(&self, node: usize) -> (r: Option<usize>)
        requires
            self.wf(),
        ensures
            match r {
                Some(i) => i < self.node_order().len() && self.node_order()[i as int] == node,
                None => !self.node_order().contains(node),
            },
    {
        let mut i: usize = 0;
        while i < self.nodes.len()
            invariant
                self.wf(),
                i <= self.nodes@.len(),
                forall|j: int| 0 <= j < i ==> self.nodes@[j] != node,
            decreases self.nodes@.len() - i,
        {
            if self.nodes[i] == node {
                return Some(i);
            }
            i = i + 1;
        }
        None
    }

    /// Appends a directed edge to `v1`'s list; an unregistered source is
    /// lazily created.
    pub fn connect(&mut self, v1: usize, v2: usize, weight: i32)
        requires
            old(self).wf(),
        ensures
            final(self).wf(),
            final(self)@ == sparse_connect_spec(old(self)@, Edge { weight, from: v1, to: v2 }),
            final(self).node_order() == sparse_connect_order_spec(old(self).node_order(), v1),
    {
        let edge = Edge { weight, from: v1, to: v2 };
        let found = self.index_of_node(v1);
        match found {
            Some(i) => {
                self.lists[i].push(edge);
                proof {
                    lemma_index_of_unique(old(self).nodes@, i as int);
                    assert forall|k: usize|
                        #![all_triggers]
                        true implies (self@.contains_key(k) == sparse_connect_spec(
                        old(self)@,
                        edge,
                    ).contains_key(k)) && (self@.contains_key(k) ==> self@[k]
                        == sparse_connect_spec(old(self)@, edge)[k]) by {
                        if self.nodes@.contains(k) {
                            let ik = self.nodes@.index_of(k);
                            assert(0 <= ik < self.nodes@.len() && self.nodes@[ik] == k);
                            if k == v1 {
                                lemma_index_of_unique(self.nodes@, i as int);
                            }
                        }
                    }
                    assert(self@ =~= sparse_connect_spec(old(self)@, edge));
                }
            },
            None => {
                self.nodes.push(v1);
                let mut fresh: Vec<Edge> = Vec::new();
                fresh.push(edge);
                self.lists.push(fresh);
                proof {
                    let n = old(self).nodes@.len() as int;
                    assert(self.nodes@.drop_last() =~= old(self).nodes@);
                    assert forall|a: int, b: int|
                        0 <= a < b < self.nodes@.len() implies self.nodes@[a]
                        != self.nodes@[b] by {
                        if b == n {
                            assert(self.nodes@[a] == old(self).nodes@[a]);
                            assert(old(self).nodes@.contains(old(self).nodes@[a]));
                        }
                    }
                    assert(self.nodes@.no_duplicates());
                    assert(fresh@ =~= seq![edge]);
                    assert(self.nodes@[n] == v1);
                    assert forall|k: usize|
                        #![all_triggers]
                        true implies (self@.contains_key(k) == sparse_connect_spec(
                        old(self)@,
                        edge,
                    ).contains_key(k)) && (self@.contains_key(k) ==> self@[k]
                        == sparse_connect_spec(old(self)@, edge)[k]) by {
                        if self.nodes@.contains(k) {
                            let ik = choose|ik: int|
                                0 <= ik < self.nodes@.len() && self.nodes@[ik] == k;
                            lemma_index_of_unique(self.nodes@, ik);
                            assert(self.nodes@.index_of(k) == ik);
                            if k == v1 {
                                assert(ik == n);
                                assert(self@[k] == fresh@);
                                assert(sparse_connect_spec(old(self)@, edge)[k] =~= seq![edge]);
                            } else {
                                assert(ik < n);
                                assert(old(self).nodes@[ik] == k);
                                assert(old(self).nodes@.contains(k));
                                lemma_index_of_unique(old(self).nodes@, ik);
                                assert(self@[k] == self.lists@[ik]@);
                                assert(old(self)@[k] == old(self).lists@[ik]@);
                            }
                        } else {
                            assert(!old(self).nodes@.contains(k)) by {
                                if old(self).nodes@.contains(k) {
                                    let w = choose|w: int|
                                        0 <= w < old(self).nodes@.len() && old(self).nodes@[w]
                                            == k;
                                    assert(self.nodes@[w] == k);
                                }
                            }
                            assert(k != v1);
                        }
                    }
                    assert(self@ =~= sparse_connect_spec(old(self)@, edge));
                }
            },
        }
    }

    /// Applies `connect` for each edge, in input order.
    pub fn connect_all(&mut self, edges: Vec<Edge>)
        requires
            old(self).wf(),
        ensures
            final(self).wf(),
            final(self)@ == sparse_connect_all_spec(old(self)@, edges@),
            final(self).node_order() == sparse_connect_all_order_spec(
                old(self).node_order(),
                edges@,
            ),
    {
        let mut i: usize = 0;
        while i < edges.len()
            invariant
                self.wf(),
                i <= edges@.len(),
                self@ == sparse_connect_all_spec(old(self)@, edges@.take(i as int)),
                self.node_order() == sparse_connect_all_order_spec(
                    old(self).node_order(),
                    edges@.take(i as int),
                ),
            decreases edges@.len() - i,
        {
            let e = edges[i];
            self.connect(e.from, e.to, e.weight);
            proof {
                assert(edges@.take(i + 1 as int).drop_last() =~= edges@.take(i as int));
                assert(edges@.take(i + 1 as int).last() == edges@[i as int]);
                assert(Edge { weight: e.weight, from: e.from, to: e.to } == e);
            }
            i = i + 1;
        }
        proof {
            assert(edges@.take(edges@.len() as int) =~= edges@);
        }
    }

    /// The outgoing edges of `node`, in insertion order, or `None` for an
    /// identifier that was never registered.
    pub fn neighbors(&self, node: usize) -> (r: Option<&Vec<Edge>>)
        requires
            self.wf(),
        ensures
            match r {
                Some(v) => self@.contains_key(node) && v@ == self@[node],
                None => !self@.contains_key(node),
            },
    {
        let found = self.index_of_node(node);
        match found {
            Some(i) => {
                proof {
                    lemma_index_of_unique(self.nodes@, i as int);
                }
                Some(&self.lists[i])
            },
            None => None,
        }
    }

    /// A copy of the registered node identifiers, in registration order.
    pub fn nodes(&self) -> (r: Vec<usize>)
        requires
            self.wf(),
        ensures
            r@ == self.node_order(),
    {
        let mut r: Vec<usize> = Vec::new();
        let mut i: usize = 0;
        while i < self.nodes.len()
            invariant
                self.wf(),
                i <= self.nodes@.len(),
                r@ == self.nodes@.subrange(0, i as int),
            decreases self.nodes@.len() - i,
        {
            r.push(self.nodes[i]);
            i = i + 1;
            proof {
                assert(r@ =~= self.nodes@.subrange(0, i as int));
            }
        }
        proof {
            assert(r@ =~= self.nodes@);
        }
        r
    }

    /// The number of registered nodes.
    pub fn size(&self) -> (n: usize)
        requires
            self.wf(),
        ensures
            n == self.node_order().len(),
    {
        self.nodes.len()
    }
}

/// Builds a sparse graph in which every given node is registered with an
/// empty edge list.
pub fn build_sparse_graph(nodes: Vec<usize>) -> (g: SparseGraph)
    ensures
        g.wf(),
        g@ == initial_sparse(nodes@),
        g.node_order() == dedup_first(nodes@),
{
    let mut reg: Vec<usize> = Vec::new();
    let mut lists: Vec<Vec<Edge>> = Vec::new();
    let mut i: usize = 0;
    while i < nodes.len()
        invariant
            reg@.no_duplicates(),
            reg@.len() == lists@.len(),
            i <= nodes@.len(),
            reg@ == dedup_first(nodes@.take(i as int)),
            forall|j: int| 0 <= j < lists@.len() ==> lists@[j]@ == Seq::<Edge>::empty(),
        decreases nodes@.len() - i,
    {
        let node = nodes[i];
        proof {
            lemma_dedup_first(nodes@.take(i as int));
            assert(nodes@.take(i + 1 as int).drop_last() =~= nodes@.take(i as int));
            assert(nodes@.take(i + 1 as int).last() == nodes@[i as int]);
        }
        let mut seen = false;
        let mut j: usize = 0;
        while j < reg.len()
            invariant
                j <= reg@.len(),
                seen == exists|p: int| 0 <= p < j && reg@[p] == node,
            decreases reg@.len() - j,
        {
            if reg[j] == node {
                seen = true;
            }
            j = j + 1;
        }
        if !seen {
            reg.push(node);
            lists.push(Vec::new());
        }
        i = i + 1;
    }
    let g = SparseGraph { nodes: reg, lists };
    proof {
        assert(nodes@.take(nodes@.len() as int) =~= nodes@);
        lemma_dedup_first(nodes@);
        assert forall|k: usize|
            #![all_triggers]
            true implies (g@.contains_key(k) == initial_sparse(nodes@).contains_key(k)) && (
        g@.contains_key(k) ==> g@[k] == initial_sparse(nodes@)[k]) by {
            if g.nodes@.contains(k) {
                let ik = g.nodes@.index_of(k);
                assert(0 <= ik < g.nodes@.len() && g.nodes@[ik] == k);
            }
        }
        assert(g@ =~= initial_sparse(nodes@));
    }
    g
}

/// An `n` by `n` matrix of zero weights, meaning "no edge" everywhere.
pub open spec fn zero_matrix(n: nat) -> Seq<Seq<i32>> {
    Seq::new(n, |i: int| Seq::new(n, |j: int| 0i32))
}

/// One edge written into a dense weight matrix: a no-op when either
/// endpoint is unknown, otherwise the cell at (source row, target column)
/// is set to the weight.
pub open spec fn dense_connect_spec(mat: Seq<Seq<i32>>, labels: Seq<usize>, e: Edge) -> Seq<
    Seq<i32>,
> {
    if labels.contains(e.from) && labels.contains(e.to) {
        let i = labels.index_of(e.from);
        let j = labels.index_of(e.to);
        mat.update(i, mat[i].update(j, e.weight))
    } else {
        mat
    }
}

/// `dense_connect_spec` folded over a whole edge sequence, in order.
pub open spec fn dense_connect_all_spec(
    mat: Seq<Seq<i32>>,
    labels: Seq<usize>,
    edges: Seq<Edge>,
) -> Seq<Seq<i32>>
    decreases edges.len(),
{
    if edges.len() == 0 {
        mat
    } else {
        dense_connect_spec(dense_connect_all_spec(mat, labels, edges.drop_last()), labels, edges.last())
    }
}

/// The (column, weight) pairs of the non-zero cells of a matrix row, in
/// ascending column order.
pub open spec fn nonzero_row(row: Seq<i32>) -> Seq<(usize, i32)>
    decreases row.len(),
{
    if row.len() == 0 {
        Seq::empty()
    } else {
        let rest = nonzero_row(row.drop_last());
        if row.last() == 0 {
            rest
        } else {
            rest.push(((row.len() - 1) as usize, row.last()))
        }
    }
}

/// Dense matrix-based graph: each node identifier is assigned a zero-based
/// index in first-seen order, and cell `[i][j]` of the square matrix holds
/// the weight of the edge from node `i` to node `j`, with 0 meaning "no
/// edge" (a genuine zero-weight edge is indistinguishable from absence).
pub struct DenseGraph {
    weights: Vec<Vec<i32>>,
    labels: Vec<usize>,
}

impl DenseGraph {
    /// The registered node identifiers; a node's index is its slot here.
    pub closed spec fn label_seq(&self) -> Seq<usize> {
        self.labels@
    }

    /// The weight matrix.
    pub closed spec fn matrix(&self) -> Seq<Seq<i32>> {
        self.weights@.map_values(|r: Vec<i32>| r@)
    }

    /// Well-formedness: distinct labels and a square matrix with one row
    /// and one column per label.
    pub closed spec fn wf(&self) -> bool {
        &&& self.labels@.no_duplicates()
        &&& self.weights@.len() == self.labels@.len()
        &&& forall|i: int|
            0 <= i < self.weights@.len() ==> (#[trigger] self.weights@[i])@.len()
                == self.labels@.len()
    }

    /// The matrix is square, with one row and one column per label.
    pub proof fn lemma_shape(&self)
        requires
            self.wf(),
        ensures
            self.matrix().len() == self.label_seq().len(),
            forall|i: int|
                0 <= i < self.label_seq().len() ==> (#[trigger] self.matrix()[i]).len()
                    == self.label_seq().len(),
    {
    }

    fn index_of_label(&self, node: usize) -> (r: Option<usize>)
        requires
            self.wf(),
        ensures
            match r {
                Some(i) => i < self.label_seq().len() && self.label_seq()[i as int] == node,
                None => !self.label_seq().contains(node),
            },
    {
        let mut i: usize = 0;
        while i < self.labels.len()
            invariant
                self.wf(),
                i <= self.labels@.len(),
                forall|j: int| 0 <= j < i ==> self.labels@[j] != node,
            decreases self.labels@.len() - i,
        {
            if self.labels[i] == node {
                return Some(i);
            }
            i = i + 1;
        }
        None
    }

    /// Writes the weight of the edge `v1 -> v2` into the matrix; a no-op
    /// when either endpoint is unknown.
    pub fn connect(&mut self, v1: usize, v2: usize, weight: i32)
        requires
            old(self).wf(),
        ensures
            final(self).wf(),
            final(self).label_seq() == old(self).label_seq(),
            final(self).matrix() == dense_connect_spec(
                old(self).matrix(),
                old(self).label_seq(),
                Edge { weight, from: v1, to: v2 },
            ),
    {
        let ghost e = Edge { weight, from: v1, to: v2 };
        let i: usize;
        let j: usize;
        match self.index_of_label(v1) {
            Some(x) => {
                i = x;
            },
            None => {
                return;
            },
        }
        match self.index_of_label(v2) {
            Some(x) => {
                j = x;
            },
            None => {
                return;
            },
        }
        self.weights[i][j] = weight;
        proof {
            lemma_index_of_unique(old(self).labels@, i as int);
            lemma_index_of_unique(old(self).labels@, j as int);
            let m0 = old(self).matrix();
            assert(self.matrix() =~= m0.update(i as int, m0[i as int].update(j as int, weight)))
                by {
                assert(m0[i as int].update(j as int, weight) =~= self.weights@[i as int]@);
            }
        }
    }

    /// Applies `connect` for each edge, in input order.
    pub fn connect_all(&mut self, edges: Vec<Edge>)
        requires
            old(self).wf(),
        ensures
            final(self).wf(),
            final(self).label_seq() == old(self).label_seq(),
            final(self).matrix() == dense_connect_all_spec(
                old(self).matrix(),
                old(self).label_seq(),
                edges@,
            ),
    {
        let mut i: usize = 0;
        while i < edges.len()
            invariant
                self.wf(),
                i <= edges@.len(),
                self.label_seq() == old(self).label_seq(),
                self.matrix() == dense_connect_all_spec(
                    old(self).matrix(),
                    old(self).label_seq(),
                    edges@.take(i as int),
                ),
            decreases edges@.len() - i,
        {
            let e = edges[i];
            self.connect(e.from, e.to, e.weight);
            proof {
                assert(edges@.take(i + 1 as int).drop_last() =~= edges@.take(i as int));
                assert(edges@.take(i + 1 as int).last() == edges@[i as int]);
                assert(Edge { weight: e.weight, from: e.from, to: e.to } == e);
            }
            i = i + 1;
        }
        proof {
            assert(edges@.take(edges@.len() as int) =~= edges@);
        }
    }

    /// The (index, weight) pairs of all non-zero cells in row `node`, in
    /// ascending column order. The argument is a row index, not a node
    /// identifier.
    pub fn neighbors(&self, node: usize) -> (r: Vec<(usize, i32)>)
        requires
            self.wf(),
            node < self.label_seq().len(),
        ensures
            r@ == nonzero_row(self.matrix()[node as int]),
    {
        let ghost row = self.matrix()[node as int];
        let mut r: Vec<(usize, i32)> = Vec::new();
        let n = self.labels.len();
        let mut j: usize = 0;
        while j < n
            invariant
                self.wf(),
                node < self.label_seq().len(),
                n == self.label_seq().len(),
                row == self.matrix()[node as int],
                row.len() == n,
                j <= n,
                r@ == nonzero_row(row.take(j as int)),
            decreases n - j,
        {
            let w = self.weights[node][j];
            proof {
                assert(w == row[j as int]);
                assert(row.take(j + 1 as int).drop_last() =~= row.take(j as int));
                assert(row.take(j + 1 as int).last() == row[j as int]);
            }
            if w != 0 {
                r.push((j, w));
            }
            j = j + 1;
        }
        proof {
            assert(row.take(row.len() as int) =~= row);
        }
        r
    }
}

/// Builds a dense graph: each given node gets a zero-based index in
/// first-seen order, over a square zero-initialized weight matrix.
pub fn build_dense_graph(nodes: Vec<usize>) -> (g: DenseGraph)
    ensures
        g.wf(),
        g.label_seq() == dedup_first(nodes@),
        g.matrix() == zero_matrix(dedup_first(nodes@).len()),
{
    let mut labels: Vec<usize> = Vec::new();
    let mut i: usize = 0;
    while i < nodes.len()
        invariant
            labels@.no_duplicates(),
            i <= nodes@.len(),
            labels@ == dedup_first(nodes@.take(i as int)),
        decreases nodes@.len() - i,
    {
        let node = nodes[i];
        proof {
            lemma_dedup_first(nodes@.take(i as int));
            assert(nodes@.take(i + 1 as int).drop_last() =~= nodes@.take(i as int));
            assert(nodes@.take(i + 1 as int).last() == nodes@[i as int]);
        }
        let mut seen = false;
        let mut j: usize = 0;
        while j < labels.len()
            invariant
                j <= labels@.len(),
                seen == exists|p: int| 0 <= p < j && labels@[p] == node,
            decreases labels@.len() - j,
        {
            if labels[j] == node {
                seen = true;
            }
            j = j + 1;
        }
        if !seen {
            labels.push(node);
        }
        i = i + 1;
    }
    proof {
        assert(nodes@.take(nodes@.len() as int) =~= nodes@);
    }
    let n = labels.len();
    let mut weights: Vec<Vec<i32>> = Vec::new();
    let mut i: usize = 0;
    while i < n
        invariant
            i <= n,
            weights@.len() == i,
            forall|a: int|
                0 <= a < i ==> (#[trigger] weights@[a])@ =~= Seq::new(n as nat, |j: int| 0i32),
        decreases n - i,
    {
        let mut row: Vec<i32> = Vec::new();
        let mut j: usize = 0;
        while j < n
            invariant
                j <= n,
                row@ =~= Seq::new(j as nat, |c: int| 0i32),
            decreases n - j,
        {
            row.push(0);
            proof {
                assert(row@ =~= Seq::new((j + 1) as nat, |c: int| 0i32));
            }
            j = j + 1;
        }
        weights.push(row);
        i = i + 1;
    }
    let g = DenseGraph { weights, labels };
    proof {
        assert(g.matrix() =~= zero_matrix(dedup_first(nodes@).len())) by {
            assert forall|a: int| 0 <= a < g.weights@.len() implies g.matrix()[a]
                =~= zero_matrix(dedup_first(nodes@).len())[a] by {}
        }
    }
    g
}

/// The subsequence of `edges` leaving node `k`, in input order.
pub open spec fn edges_from(edges: Seq<Edge>, k: usize) -> Seq<Edge>
    decreases edges.len(),
{
    if edges.len() == 0 {
        Seq::empty()
    } else {
        let rest = edges_from(edges.drop_last(), k);
        if edges.last().from == k {
            rest.push(edges.last())
        } else {
            rest
        }
    }
}

/// `edges_from` keeps exactly the edges leaving `k`.
pub proof fn lemma_edges_from_contains(edges: Seq<Edge>, k: usize)
    ensures
        forall|e: Edge| #[trigger]
            edges_from(edges, k).contains(e) <==> (edges.contains(e) && e.from == k),
    decreases edges.len(),
{
    if edges.len() > 0 {
        let dl = edges.drop_last();
        lemma_edges_from_contains(dl, k);
        let rest = edges_from(dl, k);
        assert forall|e: Edge| #[trigger]
            edges_from(edges, k).contains(e) implies (edges.contains(e) && e.from == k) by {
            let cur = edges_from(edges, k);
            let x = choose|x: int| 0 <= x < cur.len() && cur[x] == e;
            if edges.last().from == k && x == rest.len() {
                assert(e == edges.last());
                assert(edges[edges.len() - 1] == e);
            } else {
                assert(rest[x] == e);
                assert(rest.contains(e));
                let y = choose|y: int| 0 <= y < dl.len() && dl[y] == e;
                assert(edges[y] == e);
            }
        }
        assert forall|e: Edge| edges.contains(e) && e.from == k implies #[trigger] edges_from(
            edges,
            k,
        ).contains(e) by {
            let x = choose|x: int| 0 <= x < edges.len() && edges[x] == e;
            if x == edges.len() - 1 {
                assert(edges_from(edges, k) == rest.push(e));
                assert(edges_from(edges, k)[rest.len() as int] == e);
            } else {
                assert(dl[x] == e);
                assert(dl.contains(e));
                assert(rest.contains(e));
                let y = choose|y: int| 0 <= y < rest.len() && rest[y] == e;
                assert(edges_from(edges, k)[y] == e);
            }
        }
    }
}

/// After folding `connect` over `edges`, node `k`'s list is whatever it
/// started as, extended by the edges leaving `k`, in order; `k` is keyed
/// exactly when it started keyed or some edge leaves it.
pub proof fn lemma_sparse_connect_all_at(m0: Map<usize, Seq<Edge>>, edges: Seq<Edge>, k: usize)
    ensures
        sparse_connect_all_spec(m0, edges).contains_key(k) <==> (m0.contains_key(k)
            || edges_from(edges, k).len() > 0),
        sparse_connect_all_spec(m0, edges).contains_key(k) ==> sparse_connect_all_spec(m0, edges)[k]
            == (if m0.contains_key(k) {
            m0[k]
        } else {
            Seq::<Edge>::empty()
        }) + edges_from(edges, k),
    decreases edges.len(),
{
    let base: Seq<Edge> = if m0.contains_key(k) {
        m0[k]
    } else {
        Seq::empty()
    };
    if edges.len() == 0 {
        if m0.contains_key(k) {
            assert(base + edges_from(edges, k) =~= m0[k]);
        }
    } else {
        let dl = edges.drop_last();
        let e = edges.last();
        lemma_sparse_connect_all_at(m0, dl, k);
        let m1 = sparse_connect_all_spec(m0, dl);
        if e.from == k {
            assert(edges_from(edges, k) == edges_from(dl, k).push(e));
            if m1.contains_key(k) {
                assert(sparse_connect_all_spec(m0, edges)[k] == m1[k].push(e));
                assert((base + edges_from(dl, k)).push(e) =~= base + edges_from(dl, k).push(e));
            } else {
                assert(sparse_connect_all_spec(m0, edges)[k] == seq![e]);
                assert(base =~= Seq::<Edge>::empty());
                assert(edges_from(dl, k) =~= Seq::<Edge>::empty());
                assert(base + edges_from(edges, k) =~= seq![e]);
            }
        } else {
            assert(edges_from(edges, k) == edges_from(dl, k));
            assert(sparse_connect_all_spec(m0, edges).contains_key(k) == m1.contains_key(k));
            if m1.contains_key(k) {
                assert(sparse_connect_all_spec(m0, edges)[k] == m1[k]);
            }
        }
    }
}

/// The weight of the last edge `f -> t` in `edges`, or `dflt` when there
/// is none: what a dense matrix cell ends up holding.
pub open spec fn last_weight(edges: Seq<Edge>, f: usize, t: usize, dflt: i32) -> i32
    decreases edges.len(),
{
    if edges.len() == 0 {
        dflt
    } else if edges.last().from == f && edges.last().to == t {
        edges.last().weight
    } else {
        last_weight(edges.drop_last(), f, t, dflt)
    }
}

/// Folding `connect` over a square dense matrix preserves its shape.
proof fn lemma_dense_dims(mat: Seq<Seq<i32>>, labels: Seq<usize>, edges: Seq<Edge>)
    requires
        mat.len() == labels.len(),
        forall|a: int| 0 <= a < mat.len() ==> (#[trigger] mat[a]).len() == labels.len(),
    ensures
        dense_connect_all_spec(mat, labels, edges).len() == labels.len(),
        forall|i: int|
            0 <= i < labels.len() ==> (#[trigger] dense_connect_all_spec(mat, labels, edges)[i]).len()
                == labels.len(),
    decreases edges.len(),
{
    if edges.len() > 0 {
        let dl = edges.drop_last();
        let e = edges.last();
        lemma_dense_dims(mat, labels, dl);
        let m1 = dense_connect_all_spec(mat, labels, dl);
        if labels.contains(e.from) && labels.contains(e.to) {
            let fi = labels.index_of(e.from);
            let ti = labels.index_of(e.to);
            assert(0 <= fi < labels.len() && labels[fi] == e.from);
            assert(0 <= ti < labels.len());
            assert forall|i: int| 0 <= i < labels.len() implies (#[trigger] dense_connect_all_spec(
                mat,
                labels,
                edges,
            )[i]).len() == labels.len() by {
                if i == fi {
                    assert(dense_connect_all_spec(mat, labels, edges)[i] == m1[fi].update(
                        ti,
                        e.weight,
                    ));
                }
            }
        }
    }
}

/// After folding `connect` over `edges`, the dense cell `[i][j]` holds
/// the weight of the last edge between its two nodes, or its initial
/// value when there is none.
pub proof fn lemma_dense_connect_all_at(
    mat: Seq<Seq<i32>>,
    labels: Seq<usize>,
    edges: Seq<Edge>,
    i: int,
    j: int,
)
    requires
        labels.no_duplicates(),
        0 <= i < labels.len(),
        0 <= j < labels.len(),
        mat.len() == labels.len(),
        forall|a: int| 0 <= a < mat.len() ==> (#[trigger] mat[a]).len() == labels.len(),
    ensures
        dense_connect_all_spec(mat, labels, edges)[i][j] == last_weight(
            edges,
            labels[i],
            labels[j],
            mat[i][j],
        ),
    decreases edges.len(),
{
    if edges.len() > 0 {
        let dl = edges.drop_last();
        let e = edges.last();
        lemma_dense_connect_all_at(mat, labels, dl, i, j);
        lemma_dense_dims(mat, labels, dl);
        let m1 = dense_connect_all_spec(mat, labels, dl);
        if labels.contains(e.from) && labels.contains(e.to) {
            let fi = labels.index_of(e.from);
            let ti = labels.index_of(e.to);
            assert(0 <= fi < labels.len() && labels[fi] == e.from);
            assert(0 <= ti < labels.len() && labels[ti] == e.to);
            if e.from == labels[i] && e.to == labels[j] {
                lemma_index_of_unique(labels, i);
                lemma_index_of_unique(labels, j);
                assert(fi == i && ti == j);
                assert(dense_connect_all_spec(mat, labels, edges)[i][j] == e.weight);
            } else {
                assert(fi != i || ti != j);
                assert(dense_connect_all_spec(mat, labels, edges)[i][j] == m1[i][j]);
            }
        } else {
            assert(!(e.from == labels[i] && e.to == labels[j]));
        }
    }
}

/// With at most one edge per ordered node pair, the last weight is the
/// one weight: the cell holds `w` exactly when the edge list holds the
/// edge, as long as `w` is not the "no edge" marker 0.
proof fn lemma_last_weight_unique(edges: Seq<Edge>, f: usize, t: usize, w: i32)
    requires
        forall|x: int, y: int|
            0 <= x < y < edges.len() ==> !((#[trigger] edges[x]).from == (#[trigger] edges[y]).from
                && edges[x].to == edges[y].to),
    ensures
        edges.contains(Edge { weight: w, from: f, to: t }) ==> last_weight(edges, f, t, 0) == w,
        (last_weight(edges, f, t, 0) == w && w != 0) ==> edges.contains(
            Edge { weight: w, from: f, to: t },
        ),
    decreases edges.len(),
{
    if edges.len() > 0 {
        let dl = edges.drop_last();
        let e = edges.last();
        assert(forall|x: int, y: int|
            0 <= x < y < dl.len() ==> !((#[trigger] dl[x]).from == (#[trigger] dl[y]).from
                && dl[x].to == dl[y].to)) by {
            assert forall|x: int, y: int|
                0 <= x < y < dl.len() implies !((#[trigger] dl[x]).from == (#[trigger] dl[y]).from
                && dl[x].to == dl[y].to) by {
                assert(dl[x] == edges[x] && dl[y] == edges[y]);
            }
        }
        lemma_last_weight_unique(dl, f, t, w);
        let probe = Edge { weight: w, from: f, to: t };
        if edges.contains(probe) {
            let x = choose|x: int| 0 <= x < edges.len() && edges[x] == probe;
            if x == edges.len() - 1 {
                assert(e == probe);
                assert(last_weight(edges, f, t, 0) == w);
            } else {
                assert(dl[x] == probe);
                assert(dl.contains(probe));
                if e.from == f && e.to == t {
                    assert(edges[x].from == e.from && edges[x].to == e.to);
                    assert(false);
                }
                assert(last_weight(edges, f, t, 0) == last_weight(dl, f, t, 0));
            }
        }
        if last_weight(edges, f, t, 0) == w && w != 0 {
            if e.from == f && e.to == t {
                assert(e == probe);
                assert(edges[edges.len() - 1] == probe);
            } else {
                assert(dl.contains(probe));
                let y = choose|y: int| 0 <= y < dl.len() && dl[y] == probe;
                assert(edges[y] == probe);
            }
        }
    }
}

/// Sparse/dense neighbor equivalence: for a graph built from the same
/// nodes and edges in both representations — every endpoint registered,
/// no zero weights (the dense form cannot hold them), at most one edge
/// per ordered node pair (the dense form keeps only the last) — a
/// neighbor pair `(t, w)` stands in `k`'s sparse edge list exactly when
/// the dense matrix holds `w` in the cell for `k -> t`.
pub proof fn lemma_sparse_dense_neighbors_agree(
    nodes: Seq<usize>,
    edges: Seq<Edge>,
    k: usize,
    t: usize,
    w: i32,
)
    requires
        forall|x: int|
            0 <= x < edges.len() ==> nodes.contains((#[trigger] edges[x]).from) && nodes.contains(
                edges[x].to,
            ),
        forall|x: int|
            0 <= x < edges.len() ==> (#[trigger] edges[x]).weight != 0,
        forall|x: int, y: int|
            0 <= x < y < edges.len() ==> !((#[trigger] edges[x]).from == (#[trigger] edges[y]).from
                && edges[x].to == edges[y].to),
        nodes.contains(k),
        nodes.contains(t),
        w != 0,
    ensures
        ({
            let labels = dedup_first(nodes);
            let smap = sparse_connect_all_spec(initial_sparse(nodes), edges);
            let dmat = dense_connect_all_spec(zero_matrix(labels.len()), labels, edges);
            &&& smap.contains_key(k)
            &&& labels.contains(k) && labels.contains(t)
            &&& (smap[k].contains(Edge { weight: w, from: k, to: t }) <==> dmat[labels.index_of(
                k,
            )][labels.index_of(t)] == w)
        }),
{
    let labels = dedup_first(nodes);
    let smap = sparse_connect_all_spec(initial_sparse(nodes), edges);
    let dmat = dense_connect_all_spec(zero_matrix(labels.len()), labels, edges);
    let probe = Edge { weight: w, from: k, to: t };
    lemma_dedup_first(nodes);
    assert(labels.contains(k) && labels.contains(t));
    let i = labels.index_of(k);
    let j = labels.index_of(t);
    assert(0 <= i < labels.len() && labels[i] == k);
    assert(0 <= j < labels.len() && labels[j] == t);
    lemma_sparse_connect_all_at(initial_sparse(nodes), edges, k);
    assert(initial_sparse(nodes).contains_key(k));
    assert(smap.contains_key(k));
    assert(smap[k] == initial_sparse(nodes)[k] + edges_from(edges, k));
    assert(smap[k] =~= edges_from(edges, k));
    lemma_edges_from_contains(edges, k);
    assert(zero_matrix(labels.len()).len() == labels.len());
    assert(forall|a: int|
        0 <= a < labels.len() ==> (#[trigger] zero_matrix(labels.len())[a]).len() == labels.len());
    lemma_dense_connect_all_at(zero_matrix(labels.len()), labels, edges, i, j);
    assert(zero_matrix(labels.len())[i][j] == 0);
    assert(dmat[i][j] == last_weight(edges, k, t, 0));
    lemma_last_weight_unique(edges, k, t, w);
}

} // verus!
