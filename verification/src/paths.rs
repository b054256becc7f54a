//! Single-source shortest-path algorithms over a sparse graph: a
//! heap-driven relaxation assuming non-negative weights (Dijkstra) and an
//! iterative all-edges relaxation with negative-cycle detection
//! (Bellman-Ford). Both return a distance map in which absence means
//! "not reached".

use crate::graph::Edge;
use crate::graph::SparseGraph;
use crate::graph::Vertex;
use crate::graph::lemma_index_of_unique;
use crate::priority_queue::build_priority_queue;
use vstd::prelude::*;

verus! {

/// A shortest-path distance: finite, or the sentinel for "unboundedly
/// improvable", i.e. reachable from a negative cycle. "Not yet reached"
/// (positive infinity) is modelled by absence from the distance map.
#[derive(Clone, Copy, Debug, PartialEq, Eq, Structural)]
pub enum Dist {
    NegInf,
    Fin(i64),
}

/// A map from node identifier to a distance value, built fresh by each
/// algorithm invocation. Keys are kept in insertion order.
pub struct DistanceMap<V> {
    keys: Vec<usize>,
    vals: Vec<V>,
}

impl<V> View for DistanceMap<V> {
    type V = Map<usize, V>;

    closed spec fn view(&self) -> Map<usize, V> {
        Map::new(
            |k: usize| self.keys@.contains(k),
            |k: usize| self.vals@[self.keys@.index_of(k)],
        )
    }
}

impl<V: Copy> DistanceMap<V> {
    /// Well-formedness: one value per key, no key twice.
    pub closed spec fn wf(&self) -> bool {
        &&& self.keys@.no_duplicates()
        &&& self.keys@.len() == self.vals@.len()
    }

    /// The keys, in insertion order.
    pub closed spec fn key_order(&self) -> Seq<usize> {
        self.keys@
    }

    /// An empty map.
    pub fn new() -> (m: Self)
        ensures
            m.wf(),
            m@ == Map::<usize, V>::empty(),
            m.key_order() == Seq::<usize>::empty(),
    {
        let m = DistanceMap { keys: Vec::new(), vals: Vec::new() };
        proof {
            assert(m@ =~= Map::<usize, V>::empty());
        }
        m
    }

    fn index_of_key(&self, k: usize) -> (r: Option<usize>)
        requires
            self.wf(),
        ensures
            match r {
                Some(i) => i < self.keys@.len() && self.keys@[i as int] == k,
                None => !self.keys@.contains(k),
            },
    {
        let mut i: usize = 0;
        while i < self.keys.len()
            invariant
                self.wf(),
                i <= self.keys@.len(),
                forall|j: int| 0 <= j < i ==> self.keys@[j] != k,
            decreases self.keys@.len() - i,
        {
            if self.keys[i] == k {
                return Some(i);
            }
            i = i + 1;
        }
        None
    }

    /// The value recorded for `k`, or `None` when `k` is absent.
    pub fn get(&self, k: usize) -> (r: Option<V>)
        requires
            self.wf(),
        ensures
            match r {
                Some(v) => self@.contains_key(k) && self@[k] == v,
                None => !self@.contains_key(k),
            },
    {
        match self.index_of_key(k) {
            Some(i) => {
                proof {
                    lemma_index_of_unique(self.keys@, i as int);
                }
                Some(self.vals[i])
            },
            None => None,
        }
    }

    /// Records `v` for `k`, replacing any earlier value.
    pub fn insert(&mut self, k: usize, v: V)
        requires
            old(self).wf(),
        ensures
            final(self).wf(),
            final(self)@ == old(self)@.insert(k, v),
            final(self).key_order() == (if old(self)@.contains_key(k) {
                old(self).key_order()
            } else {
                old(self).key_order().push(k)
            }),
    {
        match self.index_of_key(k) {
            Some(i) => {
                self.vals[i] = v;
                proof {
                    lemma_index_of_unique(self.keys@, i as int);
                    assert forall|x: usize|
                        #![all_triggers]
                        true implies (self@.contains_key(x) == old(self)@.insert(
                        k,
                        v,
                    ).contains_key(x)) && (self@.contains_key(x) ==> self@[x] == old(self)@.insert(
                        k,
                        v,
                    )[x]) by {
                        if self.keys@.contains(x) {
                            let ix = choose|ix: int|
                                0 <= ix < self.keys@.len() && self.keys@[ix] == x;
                            lemma_index_of_unique(self.keys@, ix);
                        }
                    }
                    assert(self@ =~= old(self)@.insert(k, v));
                }
            },
            None => {
                self.keys.push(k);
                self.vals.push(v);
                proof {
                    let n = old(self).keys@.len() as int;
                    assert forall|a: int, b: int|
                        0 <= a < b < self.keys@.len() implies self.keys@[a] != self.keys@[b] by {
                        if b == n {
                            assert(self.keys@[a] == old(self).keys@[a]);
                            assert(old(self).keys@.contains(old(self).keys@[a]));
                        }
                    }
                    assert(self.keys@.no_duplicates());
                    assert forall|x: usize|
                        #![all_triggers]
                        true implies (self@.contains_key(x) == old(self)@.insert(
                        k,
                        v,
                    ).contains_key(x)) && (self@.contains_key(x) ==> self@[x] == old(self)@.insert(
                        k,
                        v,
                    )[x]) by {
                        if self.keys@.contains(x) {
                            let ix = choose|ix: int|
                                0 <= ix < self.keys@.len() && self.keys@[ix] == x;
                            lemma_index_of_unique(self.keys@, ix);
                            if x == k {
                                assert(ix == n);
                            } else {
                                assert(ix < n);
                                assert(old(self).keys@[ix] == x);
                                assert(old(self).keys@.contains(x));
                                lemma_index_of_unique(old(self).keys@, ix);
                            }
                        } else {
                            assert(!old(self).keys@.contains(x)) by {
                                if old(self).keys@.contains(x) {
                                    let w = choose|w: int|
                                        0 <= w < old(self).keys@.len() && old(self).keys@[w] == x;
                                    assert(self.keys@[w] == x);
                                }
                            }
                            assert(x != k) by {
                                assert(self.keys@[n] == k);
                            }
                        }
                    }
                    assert(self@ =~= old(self)@.insert(k, v));
                }
            },
        }
    }

    /// A copy of the keys, in insertion order.
    pub fn keys(&self) -> (r: Vec<usize>)
        requires
            self.wf(),
        ensures
            r@ == self.key_order(),
    {
        let mut r: Vec<usize> = Vec::new();
        let mut i: usize = 0;
        while i < self.keys.len()
            invariant
                self.wf(),
                i <= self.keys@.len(),
                r@ == self.keys@.subrange(0, i as int),
            decreases self.keys@.len() - i,
        {
            r.push(self.keys[i]);
            i = i + 1;
            proof {
                assert(r@ =~= self.keys@.subrange(0, i as int));
            }
        }
        proof {
            assert(r@ =~= self.keys@);
        }
        r
    }

    /// The number of recorded keys.
    pub fn len(&self) -> (n: usize)
        requires
            self.wf(),
        ensures
            n == self.key_order().len(),
    {
        self.keys.len()
    }
}

/// The edge is one of the graph's: its source is registered and the edge
/// stands in that source's list.
pub open spec fn edge_in_graph(m: Map<usize, Seq<Edge>>, e: Edge) -> bool {
    m.contains_key(e.from) && m[e.from].contains(e)
}

/// `es` is a walk through the graph from `s` to `t`: consecutive edges
/// chain, and the empty walk relates a node to itself.
pub open spec fn is_path(m: Map<usize, Seq<Edge>>, es: Seq<Edge>, s: usize, t: usize) -> bool {
    &&& forall|i: int| 0 <= i < es.len() ==> edge_in_graph(m, #[trigger] es[i])
    &&& forall|i: int| 0 <= i < es.len() - 1 ==> (#[trigger] es[i]).to == es[i + 1].from
    &&& (es.len() == 0 ==> s == t)
    &&& (es.len() > 0 ==> es[0].from == s && es[es.len() - 1].to == t)
}

/// The sum of the walk's edge weights.
pub open spec fn path_cost(es: Seq<Edge>) -> int
    decreases es.len(),
{
    if es.len() == 0 {
        0
    } else {
        path_cost(es.drop_last()) + es.last().weight
    }
}

/// Some walk from `s` to `t` costs exactly `c`.
pub open spec fn has_path_cost(m: Map<usize, Seq<Edge>>, s: usize, t: usize, c: int) -> bool {
    exists|es: Seq<Edge>| is_path(m, es, s, t) && path_cost(es) == c
}

/// Some walk leads from `s` to `t`.
pub open spec fn reachable(m: Map<usize, Seq<Edge>>, s: usize, t: usize) -> bool {
    exists|es: Seq<Edge>| is_path(m, es, s, t)
}

/// A walk to an edge's source extends along that edge, adding its weight.
proof fn lemma_path_extend(m: Map<usize, Seq<Edge>>, s: usize, e: Edge, c: int)
    requires
        has_path_cost(m, s, e.from, c),
        edge_in_graph(m, e),
    ensures
        has_path_cost(m, s, e.to, c + e.weight),
{
    let es = choose|es: Seq<Edge>| is_path(m, es, s, e.from) && path_cost(es) == c;
    let es2 = es.push(e);
    assert(es2.drop_last() =~= es);
    assert(es2[es2.len() - 1] == e);
    assert(is_path(m, es2, s, e.to)) by {
        assert forall|i: int| 0 <= i < es2.len() implies edge_in_graph(m, #[trigger] es2[i]) by {
            if i < es.len() {
                assert(es2[i] == es[i]);
            }
        }
        assert forall|i: int| 0 <= i < es2.len() - 1 implies (#[trigger] es2[i]).to == es2[i
            + 1].from by {
            if i < es.len() - 1 {
                assert(es2[i] == es[i] && es2[i + 1] == es[i + 1]);
            } else {
                assert(i == es.len() - 1);
                assert(es2[i] == es[i] && es2[i + 1] == e);
                assert(es[es.len() - 1].to == e.from);
            }
        }
        if es.len() == 0 {
            assert(es2[0] == e && s == e.from);
        } else {
            assert(es2[0] == es[0]);
        }
    }
    assert(path_cost(es2) == c + e.weight);
}

/// A set that holds `s` and is closed under the graph's edges holds every
/// node a walk from `s` can reach.
proof fn lemma_closed_under_edges(
    m: Map<usize, Seq<Edge>>,
    d: Set<usize>,
    es: Seq<Edge>,
    s: usize,
    t: usize,
)
    requires
        d.contains(s),
        forall|e: Edge| edge_in_graph(m, e) && d.contains(e.from) ==> d.contains(#[trigger] e.to),
        is_path(m, es, s, t),
    ensures
        d.contains(t),
    decreases es.len(),
{
    if es.len() > 0 {
        let e = es.last();
        lemma_path_drop_last(m, es, s, t);
        lemma_closed_under_edges(m, d, es.drop_last(), s, e.from);
        assert(edge_in_graph(m, e)) by {
            assert(es[es.len() - 1] == e);
        }
        assert(d.contains(e.to));
    }
}

/// With non-negative weights, every walk costs at least nothing.
pub proof fn lemma_path_cost_nonneg(m: Map<usize, Seq<Edge>>, es: Seq<Edge>)
    requires
        nonnegative_weights(m),
        forall|i: int| 0 <= i < es.len() ==> edge_in_graph(m, #[trigger] es[i]),
    ensures
        path_cost(es) >= 0,
    decreases es.len(),
{
    if es.len() > 0 {
        let dl = es.drop_last();
        assert(forall|i: int| 0 <= i < dl.len() ==> #[trigger] dl[i] == es[i]);
        lemma_path_cost_nonneg(m, dl);
        let e = es.last();
        assert(edge_in_graph(m, e)) by {
            assert(es[es.len() - 1] == e);
        }
        let idx = choose|idx: int| 0 <= idx < m[e.from].len() && m[e.from][idx] == e;
        assert(m[e.from][idx].weight >= 0);
    }
}

/// Walk costs add over concatenation.
proof fn lemma_path_cost_add(a: Seq<Edge>, b: Seq<Edge>)
    ensures
        path_cost(a + b) == path_cost(a) + path_cost(b),
    decreases b.len(),
{
    if b.len() == 0 {
        assert(a + b =~= a);
    } else {
        lemma_path_cost_add(a, b.drop_last());
        assert((a + b).drop_last() =~= a + b.drop_last());
        assert((a + b).last() == b.last());
    }
}

/// A walk splits at any edge into a walk to that edge's source, the edge,
/// and a walk from its target, and the three costs add up.
proof fn lemma_path_split(m: Map<usize, Seq<Edge>>, es: Seq<Edge>, s: usize, t: usize, c: int)
    requires
        is_path(m, es, s, t),
        0 <= c < es.len(),
    ensures
        is_path(m, es.take(c), s, es[c].from),
        is_path(m, es.skip(c + 1), es[c].to, t),
        path_cost(es) == path_cost(es.take(c)) + es[c].weight + path_cost(es.skip(c + 1)),
{
    let pre = es.take(c);
    let post = es.skip(c + 1);
    assert(forall|i: int| 0 <= i < pre.len() ==> #[trigger] pre[i] == es[i]);
    assert(forall|i: int| 0 <= i < post.len() ==> #[trigger] post[i] == es[i + c + 1]);
    assert(is_path(m, pre, s, es[c].from)) by {
        if c > 0 {
            assert(pre[0] == es[0]);
            assert(pre[pre.len() - 1] == es[c - 1]);
            assert(es[c - 1].to == es[c].from);
        }
    }
    assert(is_path(m, post, es[c].to, t)) by {
        if c + 1 < es.len() {
            assert(post[0] == es[c + 1]);
            assert(es[c].to == es[c + 1].from);
            assert(post[post.len() - 1] == es[es.len() - 1]);
        }
    }
    let mid = seq![es[c]] + post;
    assert(pre.len() + mid.len() == es.len());
    assert forall|i: int| 0 <= i < es.len() implies (pre + mid)[i] == es[i] by {
        if i < c {
            assert((pre + mid)[i] == pre[i]);
        } else if i == c {
            assert((pre + mid)[i] == mid[0]);
            assert(mid[0] == es[c]);
        } else {
            assert((pre + mid)[i] == mid[i - c]);
            assert(mid[i - c] == post[i - c - 1]);
        }
    }
    assert(es =~= pre + mid);
    lemma_path_cost_add(pre, mid);
    lemma_path_cost_add(seq![es[c]], post);
    let single = seq![es[c]];
    assert(path_cost(single) == es[c].weight) by {
        assert(single.len() == 1);
        assert(single.last() == es[c]);
        assert(single.drop_last().len() == 0);
        assert(path_cost(single.drop_last()) == 0);
        assert(path_cost(single) == path_cost(single.drop_last()) + single.last().weight);
    }
}

/// A walk that starts inside a node set and ends outside it crosses the
/// boundary: some edge of the walk leaves the set.
proof fn lemma_first_crossing(
    m: Map<usize, Seq<Edge>>,
    es: Seq<Edge>,
    s: usize,
    t: usize,
    vis: Set<usize>,
)
    requires
        is_path(m, es, s, t),
        vis.contains(s),
        !vis.contains(t),
    ensures
        exists|c: int|
            0 <= c < es.len() && vis.contains((#[trigger] es[c]).from) && !vis.contains(es[c].to),
    decreases es.len(),
{
    assert(es.len() > 0);
    let last = es[es.len() - 1];
    if vis.contains(last.from) {
        assert(vis.contains(es[es.len() - 1].from) && !vis.contains(es[es.len() - 1].to));
    } else {
        let dl = es.drop_last();
        assert(forall|i: int| 0 <= i < dl.len() ==> #[trigger] dl[i] == es[i]);
        assert(is_path(m, dl, s, last.from)) by {
            if dl.len() > 0 {
                assert(dl[0] == es[0]);
                assert(dl[dl.len() - 1].to == es[es.len() - 2].to);
                assert(es[es.len() - 2].to == es[es.len() - 1].from);
            }
        }
        lemma_first_crossing(m, dl, s, last.from, vis);
        let c = choose|c: int|
            0 <= c < dl.len() && vis.contains((#[trigger] dl[c]).from) && !vis.contains(dl[c].to);
        assert(vis.contains(es[c].from) && !vis.contains(es[c].to));
    }
}

/// Dropping a walk's last edge leaves a walk to that edge's source.
proof fn lemma_path_drop_last(m: Map<usize, Seq<Edge>>, es: Seq<Edge>, s: usize, t: usize)
    requires
        is_path(m, es, s, t),
        es.len() > 0,
    ensures
        is_path(m, es.drop_last(), s, es.last().from),
{
    let es1 = es.drop_last();
    assert(forall|i: int| 0 <= i < es1.len() ==> #[trigger] es1[i] == es[i]);
    if es1.len() > 0 {
        assert(es1[0] == es[0]);
        assert(es1[es1.len() - 1].to == es[es.len() - 2].to);
        assert(es[es.len() - 2].to == es[es.len() - 1].from);
    }
}

/// A walk's tail from any of its edges onward is a walk from that edge's
/// source.
proof fn lemma_path_skip_at(m: Map<usize, Seq<Edge>>, es: Seq<Edge>, s: usize, t: usize, j: int)
    requires
        is_path(m, es, s, t),
        0 <= j < es.len(),
    ensures
        is_path(m, es.skip(j), es[j].from, t),
{
    let post = es.skip(j);
    assert(forall|i: int| 0 <= i < post.len() ==> #[trigger] post[i] == es[i + j]);
    assert(post[0] == es[j]);
    assert(post[post.len() - 1] == es[es.len() - 1]);
}

/// Two walks that meet at a node concatenate to one walk.
proof fn lemma_path_concat(
    m: Map<usize, Seq<Edge>>,
    a: Seq<Edge>,
    b: Seq<Edge>,
    s: usize,
    mid: usize,
    t: usize,
)
    requires
        is_path(m, a, s, mid),
        is_path(m, b, mid, t),
    ensures
        is_path(m, a + b, s, t),
{
    let c = a + b;
    assert(forall|i: int| 0 <= i < a.len() ==> #[trigger] c[i] == a[i]);
    assert(forall|i: int| a.len() <= i < c.len() ==> #[trigger] c[i] == b[i - a.len()]);
    assert forall|i: int| 0 <= i < c.len() implies edge_in_graph(m, #[trigger] c[i]) by {
        if i < a.len() {
            assert(c[i] == a[i]);
        } else {
            assert(c[i] == b[i - a.len()]);
        }
    }
    assert forall|i: int| 0 <= i < c.len() - 1 implies (#[trigger] c[i]).to == c[i + 1].from by {
        if i + 1 < a.len() {
            assert(c[i] == a[i] && c[i + 1] == a[i + 1]);
        } else if i + 1 == a.len() {
            // the seam: a ends at mid, b starts there
            assert(c[i] == a[a.len() - 1] && c[i + 1] == b[0]);
            assert(a[a.len() - 1].to == mid && b[0].from == mid);
        } else {
            assert(c[i] == b[i - a.len()] && c[i + 1] == b[i + 1 - a.len()]);
        }
    }
    if c.len() > 0 {
        if a.len() > 0 {
            assert(c[0] == a[0]);
        } else {
            assert(c[0] == b[0] && s == mid);
        }
        if b.len() > 0 {
            assert(c[c.len() - 1] == b[b.len() - 1]);
        } else {
            assert(c[c.len() - 1] == a[a.len() - 1] && mid == t);
        }
    }
}

/// With no reachable negative cycle, any walk from the source can be
/// shortened to one of at most as many edges as there are enumerated
/// nodes, at no extra cost: a longer walk repeats an edge source, and the
/// enclosed cycle — non-negative by assumption — can be cut out.
#[verifier::rlimit(100)]
#[verifier::spinoff_prover]
proof fn lemma_shorten_walk(
    m: Map<usize, Seq<Edge>>,
    order: Seq<usize>,
    src: usize,
    es: Seq<Edge>,
    t: usize,
)
    requires
        no_negative_cycle(m, src),
        forall|k: usize| m.contains_key(k) ==> order.contains(k),
        is_path(m, es, src, t),
    ensures
        exists|es2: Seq<Edge>|
            is_path(m, es2, src, t) && path_cost(es2) <= path_cost(es) && es2.len()
                <= order.len(),
    decreases es.len(),
{
    broadcast use vstd::set::group_set_axioms;
    broadcast use vstd::seq_lib::seq_to_set_is_finite;

    if es.len() <= order.len() {
        assert(is_path(m, es, src, t) && path_cost(es) <= path_cost(es) && es.len()
            <= order.len());
    } else {
        let sources = Seq::new(es.len(), |i: int| es[i].from);
        assert forall|i: int| 0 <= i < sources.len() implies order.to_set().contains(
            #[trigger] sources[i],
        ) by {
            assert(edge_in_graph(m, es[i]));
            assert(order.contains(es[i].from));
        }
        assert(!sources.no_duplicates()) by {
            if sources.no_duplicates() {
                sources.unique_seq_to_set();
                order.lemma_cardinality_of_set();
                assert(sources.to_set().subset_of(order.to_set()));
                vstd::set_lib::lemma_len_subset(sources.to_set(), order.to_set());
            }
        }
        let (i0, j0) = choose|i0: int, j0: int|
            0 <= i0 < sources.len() && 0 <= j0 < sources.len() && i0 != j0 && sources[i0]
                == sources[j0];
        let i = if i0 < j0 {
            i0
        } else {
            j0
        };
        let j = if i0 < j0 {
            j0
        } else {
            i0
        };
        let u = es[i].from;
        assert(es[j].from == u);
        lemma_path_split(m, es, src, t, i);
        assert(is_path(m, es.take(i), src, u));
        lemma_path_skip_at(m, es, src, t, j);
        assert(is_path(m, es.skip(j), u, t));
        // the enclosed cycle at u
        let cyc = es.subrange(i, j);
        assert(forall|x: int| 0 <= x < cyc.len() ==> #[trigger] cyc[x] == es[i + x]);
        assert(is_path(m, cyc, u, u)) by {
            assert(cyc[0] == es[i]);
            assert(cyc[cyc.len() - 1] == es[j - 1]);
            assert(es[j - 1].to == es[j].from);
        }
        assert(reachable(m, src, u)) by {
            assert(is_path(m, es.take(i), src, u));
        }
        assert(path_cost(cyc) >= 0);
        // costs split around the cycle
        assert(es.take(j) =~= es.take(i) + cyc);
        assert(es =~= es.take(j) + es.skip(j));
        lemma_path_cost_add(es.take(i), cyc);
        lemma_path_cost_add(es.take(j), es.skip(j));
        let es2 = es.take(i) + es.skip(j);
        lemma_path_concat(m, es.take(i), es.skip(j), src, u, t);
        lemma_path_cost_add(es.take(i), es.skip(j));
        assert(path_cost(es2) <= path_cost(es));
        assert(es2.len() < es.len());
        lemma_shorten_walk(m, order, src, es2, t);
        let es3 = choose|es3: Seq<Edge>|
            is_path(m, es3, src, t) && path_cost(es3) <= path_cost(es2) && es3.len()
                <= order.len();
        assert(is_path(m, es3, src, t) && path_cost(es3) <= path_cost(es) && es3.len()
            <= order.len());
    }
}

/// Any walk shortens to one of at most as many edges as there are
/// enumerated nodes, by cutting the loop a repeated edge source encloses
/// (regardless of that loop's cost).
proof fn lemma_shorten_walk_length(
    m: Map<usize, Seq<Edge>>,
    order: Seq<usize>,
    s0: usize,
    es: Seq<Edge>,
    t: usize,
)
    requires
        forall|k: usize| m.contains_key(k) ==> order.contains(k),
        is_path(m, es, s0, t),
    ensures
        exists|es2: Seq<Edge>| is_path(m, es2, s0, t) && es2.len() <= order.len(),
    decreases es.len(),
{
    broadcast use vstd::set::group_set_axioms;
    broadcast use vstd::seq_lib::seq_to_set_is_finite;

    if es.len() <= order.len() {
        assert(is_path(m, es, s0, t) && es.len() <= order.len());
    } else {
        let sources = Seq::new(es.len(), |i: int| es[i].from);
        assert forall|i: int| 0 <= i < sources.len() implies order.to_set().contains(
            #[trigger] sources[i],
        ) by {
            assert(edge_in_graph(m, es[i]));
            assert(order.contains(es[i].from));
        }
        assert(!sources.no_duplicates()) by {
            if sources.no_duplicates() {
                sources.unique_seq_to_set();
                order.lemma_cardinality_of_set();
                assert(sources.to_set().subset_of(order.to_set()));
                vstd::set_lib::lemma_len_subset(sources.to_set(), order.to_set());
            }
        }
        let (i0, j0) = choose|i0: int, j0: int|
            0 <= i0 < sources.len() && 0 <= j0 < sources.len() && i0 != j0 && sources[i0]
                == sources[j0];
        let i = if i0 < j0 {
            i0
        } else {
            j0
        };
        let j = if i0 < j0 {
            j0
        } else {
            i0
        };
        let u = es[i].from;
        assert(es[j].from == u);
        lemma_path_split(m, es, s0, t, i);
        assert(is_path(m, es.take(i), s0, u));
        lemma_path_skip_at(m, es, s0, t, j);
        assert(is_path(m, es.skip(j), u, t));
        let es2 = es.take(i) + es.skip(j);
        lemma_path_concat(m, es.take(i), es.skip(j), s0, u, t);
        assert(es2.len() < es.len());
        lemma_shorten_walk_length(m, order, s0, es2, t);
    }
}

/// The targets of every edge whose source stands among the first `j`
/// enumerated nodes, one entry per edge.
pub open spec fn targets_prefix(m: Map<usize, Seq<Edge>>, order: Seq<usize>, j: int) -> Seq<usize>
    decreases j,
{
    if j <= 0 {
        Seq::empty()
    } else {
        targets_prefix(m, order, j - 1) + m[order[j - 1]].map_values(|e: Edge| e.to)
    }
}

/// The targets of all the graph's edges, one entry per edge.
pub open spec fn edge_targets(m: Map<usize, Seq<Edge>>, order: Seq<usize>) -> Seq<usize> {
    targets_prefix(m, order, order.len() as int)
}

/// The number of edges in the graph.
pub open spec fn edge_count(m: Map<usize, Seq<Edge>>, order: Seq<usize>) -> int {
    edge_targets(m, order).len() as int
}

/// Longer prefixes list at least as many targets.
proof fn lemma_targets_prefix_mono(m: Map<usize, Seq<Edge>>, order: Seq<usize>, j1: int, j2: int)
    requires
        0 <= j1 <= j2,
    ensures
        targets_prefix(m, order, j1).len() <= targets_prefix(m, order, j2).len(),
    decreases j2 - j1,
{
    if j1 < j2 {
        lemma_targets_prefix_mono(m, order, j1, j2 - 1);
    }
}

/// Each prefix's target list is a prefix of the full target list.
proof fn lemma_targets_prefix_le(m: Map<usize, Seq<Edge>>, order: Seq<usize>, j: int, x: usize)
    requires
        0 <= j <= order.len(),
        targets_prefix(m, order, j).contains(x),
    ensures
        edge_targets(m, order).contains(x),
    decreases order.len() - j,
{
    if j < order.len() {
        let a = targets_prefix(m, order, j);
        let b = targets_prefix(m, order, j + 1);
        let w = choose|w: int| 0 <= w < a.len() && a[w] == x;
        assert(b[w] == x);
        assert(b.contains(x));
        lemma_targets_prefix_le(m, order, j + 1, x);
    }
}

/// The target of any edge of an enumerated source is among the listed
/// edge targets.
proof fn lemma_target_listed(m: Map<usize, Seq<Edge>>, order: Seq<usize>, i: int, e: Edge)
    requires
        0 <= i < order.len(),
        m[order[i]].contains(e),
        e.from == order[i],
    ensures
        edge_targets(m, order).contains(e.to),
{
    let chunk = m[order[i]].map_values(|x: Edge| x.to);
    let k = choose|k: int| 0 <= k < m[order[i]].len() && m[order[i]][k] == e;
    assert(chunk[k] == e.to);
    let a = targets_prefix(m, order, i);
    let b = targets_prefix(m, order, i + 1);
    assert(b == a + chunk);
    assert(b[a.len() + k] == e.to);
    assert(b.contains(e.to));
    lemma_targets_prefix_le(m, order, i + 1, e.to);
}

/// Every edge weight of the graph is non-negative, the precondition under
/// which Dijkstra's distances are meaningful.
pub open spec fn nonnegative_weights(m: Map<usize, Seq<Edge>>) -> bool {
    forall|k: usize, i: int|
        m.contains_key(k) && 0 <= i < m[k].len() ==> (#[trigger] m[k][i]).weight >= 0
}

/// The candidate set every discovered node belongs to: the source plus
/// the edge targets. It has at most one member per edge, plus one.
proof fn lemma_candidate_set_size(tseq: Seq<usize>, src: usize)
    ensures
        tseq.to_set().insert(src).finite(),
        tseq.to_set().insert(src).len() <= tseq.len() + 1,
{
    broadcast use vstd::set::group_set_axioms;
    broadcast use vstd::seq_lib::seq_to_set_is_finite;

    tseq.lemma_cardinality_of_set();
}

/// Recording one fresh candidate keeps the visited list duplicate-free,
/// inside the candidate set, and no longer than that set.
proof fn lemma_visited_grow(pre: Seq<usize>, node: usize, s_all: Set<usize>)
    requires
        pre.no_duplicates(),
        !pre.contains(node),
        forall|u: usize| pre.contains(u) ==> s_all.contains(u),
        s_all.contains(node),
        s_all.finite(),
    ensures
        pre.push(node).no_duplicates(),
        forall|u: usize| pre.push(node).contains(u) ==> s_all.contains(u),
        pre.push(node).len() <= s_all.len(),
{
    broadcast use vstd::set::group_set_axioms;
    broadcast use vstd::seq_lib::seq_to_set_is_finite;

    let post = pre.push(node);
    let n = pre.len() as int;
    assert forall|a: int, b: int| 0 <= a < b < post.len() implies post[a] != post[b] by {
        if b == n {
            assert(post[a] == pre[a]);
            assert(pre.contains(pre[a]));
        }
    }
    assert(post.no_duplicates());
    assert forall|u: usize| post.contains(u) implies s_all.contains(u) by {
        let w = choose|w: int| 0 <= w < post.len() && post[w] == u;
        if w < n {
            assert(pre[w] == u);
            assert(pre.contains(u));
        }
    }
    assert(post.to_set() =~= pre.to_set().insert(node)) by {
        assert forall|x: usize| #[trigger]
            post.to_set().contains(x) implies pre.to_set().insert(node).contains(x) by {
            let w = choose|w: int| 0 <= w < post.len() && post[w] == x;
            if w < n {
                assert(pre[w] == x);
                assert(pre.contains(x));
            }
        }
        assert forall|x: usize| #[trigger]
            pre.to_set().insert(node).contains(x) implies post.to_set().contains(x) by {
            if x == node {
                assert(post[n] == x);
            } else {
                let w = choose|w: int| 0 <= w < pre.len() && pre[w] == x;
                assert(post[w] == x);
            }
            assert(post.contains(x));
        }
    }
    pre.unique_seq_to_set();
    post.unique_seq_to_set();
    vstd::set_lib::lemma_len_subset(post.to_set(), s_all);
}

fn vec_contains(v: &Vec<usize>, x: usize) -> (r: bool)
    ensures
        r == v@.contains(x),
{
    let mut i: usize = 0;
    while i < v.len()
        invariant
            i <= v@.len(),
            forall|j: int| 0 <= j < i ==> v@[j] != x,
        decreases v@.len() - i,
    {
        if v[i] == x {
            return true;
        }
        i = i + 1;
    }
    false
}

/// Heap-driven single-source shortest-path relaxation with lazy deletion:
/// stale queue entries are discarded via the visited list when popped,
/// never removed eagerly. Assumes non-negative weights. Every returned
/// distance is the cost of an actual walk from `src` and no walk costs
/// less, the source itself maps to 0, and every node a walk from `src`
/// reaches gets an entry; unreached nodes stay absent.
pub fn dijkstra(g: &SparseGraph, src: usize) -> (dist: DistanceMap<i64>)
    requires
        g.wf(),
        nonnegative_weights(g@),
        edge_count(g@, g.node_order()) <= 0x7fff_ffff,
    ensures
        dist.wf(),
        dist@.contains_key(src) && dist@[src] == 0,
        forall|k: usize| #[trigger] dist@.contains_key(k) ==> 0 <= dist@[k],
        forall|k: usize| #[trigger]
            dist@.contains_key(k) ==> has_path_cost(g@, src, k, dist@[k] as int),
        forall|k: usize, c: int|
            dist@.contains_key(k) && #[trigger] has_path_cost(g@, src, k, c) ==> dist@[k] <= c,
        forall|k: usize| #[trigger]
            dist@.contains_key(k) ==> k == src || edge_targets(g@, g.node_order()).contains(k),
        forall|t: usize| #[trigger] reachable(g@, src, t) ==> dist@.contains_key(t),
{
    broadcast use vstd::seq_lib::to_multiset_contains;
    broadcast use vstd::multiset::group_multiset_axioms;

    let ghost m = g@;
    let ghost order = g.node_order();
    let ghost tseq = edge_targets(m, order);
    let ghost s_all = tseq.to_set().insert(src);
    let ghost ecount = edge_count(m, order);
    proof {
        lemma_candidate_set_size(tseq, src);
        g.lemma_dom();
        broadcast use vstd::set::group_set_axioms;

        assert(s_all.contains(src));
    }
    let mut to_visit = build_priority_queue(None, None);
    let mut visited: Vec<usize> = Vec::new();
    let mut distances: DistanceMap<i64> = DistanceMap::new();
    distances.insert(src, 0);
    to_visit.push(Vertex { value: 0, id: src });
    proof {
        assert(is_path(m, Seq::<Edge>::empty(), src, src));
        assert(path_cost(Seq::<Edge>::empty()) == 0);
        assert(has_path_cost(m, src, src, 0));
        let seed = Vertex { value: 0, id: src };
        assert(to_visit@.to_multiset().count(seed) > 0);
        assert forall|v: Vertex| #[trigger]
            to_visit@.to_multiset().count(v) > 0 implies v == seed by {
            assert(!Seq::<Vertex>::empty().contains(v));
        }
        assert forall|k: usize| #[trigger] distances@.contains_key(k) implies visited@.contains(k)
            || exists|v: Vertex|
            to_visit@.to_multiset().count(v) > 0 && v.id == k && v.value == distances@[k] by {
            assert(k == src);
            assert(to_visit@.to_multiset().count(seed) > 0 && seed.id == k && seed.value
                == distances@[k]);
        }
    }
    loop
        invariant
            g.wf(),
            nonnegative_weights(m),
            m == g@,
            order == g.node_order(),
            tseq == edge_targets(m, order),
            s_all == tseq.to_set().insert(src),
            ecount == edge_count(m, order),
            0 <= ecount <= 0x7fff_ffff,
            s_all.finite(),
            s_all.len() <= 1 + ecount,
            s_all.contains(src),
            forall|k: usize| m.contains_key(k) <==> order.contains(k),
            to_visit.wf(),
            to_visit.max_size() == Option::<usize>::None,
            distances.wf(),
            visited@.no_duplicates(),
            forall|u: usize| #[trigger] visited@.contains(u) ==> s_all.contains(u),
            visited@.len() <= 1 + ecount,
            visited@.len() > 0 ==> visited@[0] == src,
            visited@.len() == 0 ==> forall|v: Vertex| #[trigger]
                to_visit@.to_multiset().count(v) > 0 ==> v.id == src && v.value == 0,
            forall|v: Vertex| #[trigger]
                to_visit@.to_multiset().count(v) > 0 ==> s_all.contains(v.id) && 0 <= v.value
                    && v.value <= (1 + visited@.len() as int) * 0x7fff_ffff && has_path_cost(
                    m,
                    src,
                    v.id,
                    v.value as int,
                ) && distances@.contains_key(v.id) && distances@[v.id] <= v.value,
            distances@.contains_key(src) && distances@[src] == 0,
            forall|k: usize| #[trigger]
                distances@.contains_key(k) ==> s_all.contains(k) && 0 <= distances@[k]
                    && has_path_cost(m, src, k, distances@[k] as int),
            forall|u: usize| #[trigger] visited@.contains(u) ==> distances@.contains_key(u),
            forall|u: usize, c: int|
                visited@.contains(u) && #[trigger] has_path_cost(m, src, u, c)
                    ==> distances@[u] <= c,
            forall|u: usize, idx: int|
                #![trigger m[u][idx]]
                visited@.contains(u) && m.contains_key(u) && 0 <= idx < m[u].len() ==> {
                    &&& distances@.contains_key(m[u][idx].to)
                    &&& distances@[m[u][idx].to] <= distances@[u] + m[u][idx].weight
                },
            forall|k: usize| #[trigger]
                distances@.contains_key(k) ==> visited@.contains(k) || exists|v: Vertex|
                    to_visit@.to_multiset().count(v) > 0 && v.id == k && v.value
                        == distances@[k],
        ensures
            to_visit@.len() == 0,
            distances.wf(),
            distances@.contains_key(src) && distances@[src] == 0,
            forall|k: usize| #[trigger]
                distances@.contains_key(k) ==> s_all.contains(k) && 0 <= distances@[k]
                    && has_path_cost(m, src, k, distances@[k] as int),
            forall|u: usize, c: int|
                visited@.contains(u) && #[trigger] has_path_cost(m, src, u, c)
                    ==> distances@[u] <= c,
            forall|u: usize, idx: int|
                #![trigger m[u][idx]]
                visited@.contains(u) && m.contains_key(u) && 0 <= idx < m[u].len()
                    ==> distances@.contains_key(m[u][idx].to),
            forall|k: usize| #[trigger]
                distances@.contains_key(k) ==> visited@.contains(k) || exists|v: Vertex|
                    to_visit@.to_multiset().count(v) > 0 && v.id == k && v.value
                        == distances@[k],
        decreases 1 + ecount - visited@.len(), to_visit@.len(),
    {
        let ghost q_pre = to_visit@;
        let ghost dist_pre = distances@;
        let ghost pre_visited = visited@;
        let popped = to_visit.pop();
        match popped {
            None => {
                break ;
            },
            Some(vert) => {
                proof {
                    assert(q_pre[0] == vert);
                    assert(q_pre.contains(vert));
                    vstd::seq_lib::to_multiset_contains(q_pre, vert);
                    assert(q_pre.to_multiset().count(vert) > 0);
                }
                let dist_v = vert.value;
                let node = vert.id;
                let already = vec_contains(&visited, node);
                if already {
                    proof {
                        assert forall|k: usize| #[trigger]
                            distances@.contains_key(k) implies visited@.contains(k) || exists|
                            v: Vertex,
                        |
                            to_visit@.to_multiset().count(v) > 0 && v.id == k && v.value
                                == distances@[k] by {
                            if !visited@.contains(k) {
                                let v = choose|v: Vertex|
                                    q_pre.to_multiset().count(v) > 0 && v.id == k && v.value
                                        == distances@[k];
                                if v == vert {
                                    assert(visited@.contains(k));
                                } else {
                                    assert(to_visit@.to_multiset().count(v) > 0);
                                }
                            }
                        }
                    }
                } else {
                    visited.push(node);
                    proof {
                        g.lemma_edge_sources();
                        lemma_visited_grow(pre_visited, node, s_all);
                        assert(visited@.contains(node)) by {
                            assert(visited@[pre_visited.len() as int] == node);
                        }
                        assert forall|u: usize| #[trigger]
                            pre_visited.contains(u) implies visited@.contains(u) by {
                            let w = choose|w: int|
                                0 <= w < pre_visited.len() && pre_visited[w] == u;
                            assert(visited@[w] == u);
                        }
                        assert forall|u: usize| #[trigger]
                            visited@.contains(u) implies pre_visited.contains(u) || u == node by {
                            let w = choose|w: int| 0 <= w < visited@.len() && visited@[w] == u;
                            if w < pre_visited.len() {
                                assert(pre_visited[w] == u);
                            }
                        }
                        if pre_visited.len() > 0 {
                            assert(visited@[0] == pre_visited[0]);
                        } else {
                            assert(vert.id == src && vert.value == 0);
                            assert(visited@[0] == src);
                        }
                        assert forall|v: Vertex| #[trigger]
                            to_visit@.to_multiset().count(v) > 0 implies s_all.contains(v.id) && 0
                            <= v.value && v.value <= (1 + visited@.len() as int) * 0x7fff_ffff
                            && has_path_cost(m, src, v.id, v.value as int)
                            && distances@.contains_key(v.id) && distances@[v.id]
                            <= v.value by {
                            assert(q_pre.to_multiset().count(v) > 0);
                        }
                        assert forall|k: usize| #[trigger]
                            distances@.contains_key(k) implies visited@.contains(k) || exists|
                            v: Vertex,
                        |
                            to_visit@.to_multiset().count(v) > 0 && v.id == k && v.value
                                == distances@[k] by {
                            if !visited@.contains(k) {
                                let v = choose|v: Vertex|
                                    q_pre.to_multiset().count(v) > 0 && v.id == k && v.value
                                        == distances@[k];
                                assert(v != vert);
                                assert(to_visit@.to_multiset().count(v) > 0);
                            }
                        }
                        // The popped value is the node's current tentative
                        // distance: no smaller live entry existed for it.
                        assert(distances@.contains_key(node));
                        assert(distances@[node] <= dist_v);
                        assert(dist_v <= distances@[node]) by {
                            let wit = choose|wit: Vertex|
                                q_pre.to_multiset().count(wit) > 0 && wit.id == node && wit.value
                                    == dist_pre[node];
                            assert(vert.value <= wit.value);
                        }
                        // No walk to the node costs less than the popped
                        // value: any such walk crosses from the settled
                        // region, and the crossing edge was relaxed.
                        assert forall|c: int| #[trigger] has_path_cost(
                            m,
                            src,
                            node,
                            c,
                        ) implies distances@[node] <= c by {
                            broadcast use vstd::set::group_set_axioms;

                            let es = choose|es: Seq<Edge>|
                                is_path(m, es, src, node) && path_cost(es) == c;
                            if pre_visited.len() == 0 {
                                assert(vert.id == src && vert.value == 0);
                                lemma_path_cost_nonneg(m, es);
                            } else {
                                let vis = pre_visited.to_set();
                                assert(pre_visited.contains(pre_visited[0]));
                                assert(vis.contains(src));
                                assert(!vis.contains(node));
                                lemma_first_crossing(m, es, src, node, vis);
                                let cidx = choose|cidx: int|
                                    0 <= cidx < es.len() && vis.contains(
                                        (#[trigger] es[cidx]).from,
                                    ) && !vis.contains(es[cidx].to);
                                let e = es[cidx];
                                lemma_path_split(m, es, src, node, cidx);
                                let pcost = path_cost(es.take(cidx));
                                assert(pre_visited.contains(e.from));
                                assert(has_path_cost(m, src, e.from, pcost));
                                assert(dist_pre[e.from] <= pcost);
                                assert(edge_in_graph(m, e));
                                let idx2 = choose|idx2: int|
                                    0 <= idx2 < m[e.from].len() && m[e.from][idx2] == e;
                                assert(m[e.from][idx2] == e);
                                assert(dist_pre.contains_key(e.to) && dist_pre[e.to]
                                    <= dist_pre[e.from] + e.weight);
                                if e.to != node {
                                    assert(!pre_visited.contains(e.to));
                                    let wit = choose|wit: Vertex|
                                        q_pre.to_multiset().count(wit) > 0 && wit.id == e.to
                                            && wit.value == dist_pre[e.to];
                                    assert(vert.value <= wit.value);
                                }
                                assert(dist_v <= dist_pre[e.to]);
                                let suffix = es.skip(cidx + 1);
                                assert(forall|i: int|
                                    0 <= i < suffix.len() ==> edge_in_graph(
                                        m,
                                        #[trigger] suffix[i],
                                    ));
                                lemma_path_cost_nonneg(m, suffix);
                                assert(c == pcost + e.weight + path_cost(suffix));
                            }
                        }
                        assert forall|u: usize, c: int|
                            visited@.contains(u) && #[trigger] has_path_cost(
                                m,
                                src,
                                u,
                                c,
                            ) implies distances@[u] <= c by {
                            if !pre_visited.contains(u) {
                                assert(u == node);
                            }
                        }
                    }
                    match g.neighbors(node) {
                        None => {
                            proof {
                                assert(!m.contains_key(node));
                            }
                        },
                        Some(adj) => {
                            let deg = adj.len();
                            let mut i: usize = 0;
                            while i < deg
                                invariant
                                    g.wf(),
                                    nonnegative_weights(m),
                                    m == g@,
                                    order == g.node_order(),
                                    tseq == edge_targets(m, order),
                                    s_all == tseq.to_set().insert(src),
                                    ecount == edge_count(m, order),
                                    0 <= ecount <= 0x7fff_ffff,
                                    s_all.finite(),
                                    s_all.len() <= 1 + ecount,
                                    s_all.contains(src),
                                    forall|k: usize| m.contains_key(k) <==> order.contains(k),
                                    to_visit.wf(),
                                    to_visit.max_size() == Option::<usize>::None,
                                    distances.wf(),
                                    visited@.no_duplicates(),
                                    forall|u: usize| #[trigger]
                                        visited@.contains(u) ==> s_all.contains(u),
                                    visited@.len() <= 1 + ecount,
                                    visited@.len() > 0 && visited@[0] == src,
                                    m.contains_key(node),
                                    visited@.contains(node),
                                    adj@ == m[node],
                                    deg == adj@.len(),
                                    i <= deg,
                                    0 <= dist_v,
                                    dist_v <= visited@.len() as int * 0x7fff_ffff,
                                    has_path_cost(m, src, node, dist_v as int),
                                    distances@.contains_key(node) && distances@[node] == dist_v,
                                    forall|v: Vertex| #[trigger]
                                        to_visit@.to_multiset().count(v) > 0 ==> s_all.contains(
                                            v.id,
                                        ) && 0 <= v.value && v.value <= (1
                                            + visited@.len() as int) * 0x7fff_ffff
                                            && has_path_cost(m, src, v.id, v.value as int)
                                            && distances@.contains_key(v.id) && distances@[v.id]
                                            <= v.value,
                                    distances@.contains_key(src) && distances@[src] == 0,
                                    forall|k: usize| #[trigger]
                                        distances@.contains_key(k) ==> s_all.contains(k) && 0
                                            <= distances@[k] && has_path_cost(
                                            m,
                                            src,
                                            k,
                                            distances@[k] as int,
                                        ),
                                    forall|u: usize| #[trigger]
                                        visited@.contains(u) ==> distances@.contains_key(u),
                                    forall|u: usize, c: int|
                                        visited@.contains(u) && #[trigger] has_path_cost(
                                            m,
                                            src,
                                            u,
                                            c,
                                        ) ==> distances@[u] <= c,
                                    forall|u: usize, idx: int|
                                        #![trigger m[u][idx]]
                                        visited@.contains(u) && m.contains_key(u) && 0 <= idx
                                            < m[u].len() && (u != node || idx < i) ==> {
                                            &&& distances@.contains_key(m[u][idx].to)
                                            &&& distances@[m[u][idx].to] <= distances@[u]
                                                + m[u][idx].weight
                                        },
                                    forall|k: usize| #[trigger]
                                        distances@.contains_key(k) ==> visited@.contains(k)
                                            || exists|v: Vertex|
                                            to_visit@.to_multiset().count(v) > 0 && v.id == k
                                                && v.value == distances@[k],
                                decreases deg - i,
                            {
                                let ghost q_in = to_visit@;
                                let ghost dist_in = distances@;
                                let e = adj[i];
                                proof {
                                    broadcast use vstd::set::group_set_axioms;

                                    g.lemma_edge_sources();
                                    assert(m[node][i as int] == e);
                                    assert(m[node].contains(e));
                                    assert(e.from == node);
                                    assert(edge_in_graph(m, e));
                                    assert(e.weight >= 0);
                                    lemma_path_extend(m, src, e, dist_v as int);
                                    assert(order.contains(node));
                                    let oi = choose|oi: int|
                                        0 <= oi < order.len() && order[oi] == node;
                                    lemma_target_listed(m, order, oi, e);
                                    assert(s_all.contains(e.to));
                                    assert(dist_v + e.weight <= (1 + visited@.len() as int)
                                        * 0x7fff_ffff);
                                    assert((1 + visited@.len() as int) * 0x7fff_ffff <= (2
                                        + ecount) * 0x7fff_ffff);
                                }
                                let w = e.weight;
                                let cand: i64 = dist_v + (w as i64);
                                let cur = distances.get(e.to);
                                let update = match cur {
                                    None => true,
                                    Some(c) => cand < c,
                                };
                                if update {
                                    proof {
                                        // A settled target would already hold a
                                        // minimal distance, no better than this
                                        // candidate walk's cost.
                                        assert(!visited@.contains(e.to)) by {
                                            if visited@.contains(e.to) {
                                                assert(has_path_cost(
                                                    m,
                                                    src,
                                                    e.to,
                                                    dist_v + e.weight,
                                                ));
                                                assert(dist_in[e.to] <= dist_v + e.weight);
                                            }
                                        }
                                        assert(e.to != node);
                                    }
                                    distances.insert(e.to, cand);
                                    let fresh = Vertex { value: cand, id: e.to };
                                    to_visit.push(fresh);
                                    proof {
                                        assert(to_visit@.to_multiset() == q_in.to_multiset()
                                            .insert(fresh));
                                        assert(distances@ == dist_in.insert(e.to, cand));
                                        assert forall|v: Vertex| #[trigger]
                                            to_visit@.to_multiset().count(v)
                                            > 0 implies s_all.contains(v.id) && 0 <= v.value
                                            && v.value <= (1 + visited@.len() as int)
                                            * 0x7fff_ffff && has_path_cost(
                                            m,
                                            src,
                                            v.id,
                                            v.value as int,
                                        ) && distances@.contains_key(v.id) && distances@[v.id]
                                            <= v.value by {
                                            if v != fresh {
                                                assert(q_in.to_multiset().count(v) > 0);
                                                if v.id == e.to {
                                                    assert(dist_in[e.to] <= v.value);
                                                }
                                            }
                                        }
                                        assert forall|k: usize| #[trigger]
                                            distances@.contains_key(k) implies visited@.contains(
                                            k,
                                        ) || exists|v: Vertex|
                                            to_visit@.to_multiset().count(v) > 0 && v.id == k
                                                && v.value == distances@[k] by {
                                            if k == e.to {
                                                assert(to_visit@.to_multiset().count(fresh) > 0
                                                    && fresh.id == k && fresh.value
                                                    == distances@[k]);
                                            } else if !visited@.contains(k) {
                                                let v = choose|v: Vertex|
                                                    q_in.to_multiset().count(v) > 0 && v.id == k
                                                        && v.value == dist_in[k];
                                                assert(to_visit@.to_multiset().count(v) > 0);
                                            }
                                        }
                                        assert forall|u: usize, c: int|
                                            visited@.contains(u) && #[trigger] has_path_cost(
                                                m,
                                                src,
                                                u,
                                                c,
                                            ) implies distances@[u] <= c by {
                                            assert(u != e.to);
                                            assert(distances@[u] == dist_in[u]);
                                        }
                                        assert forall|u: usize, idx: int|
                                            #![trigger m[u][idx]]
                                            visited@.contains(u) && m.contains_key(u) && 0 <= idx
                                                < m[u].len() && (u != node || idx < i
                                                + 1) implies {
                                                &&& distances@.contains_key(m[u][idx].to)
                                                &&& distances@[m[u][idx].to] <= distances@[u]
                                                    + m[u][idx].weight
                                            } by {
                                            assert(u != e.to);
                                            assert(distances@[u] == dist_in[u]);
                                            if u == node && idx == i {
                                                assert(distances@[e.to] == cand);
                                            } else {
                                                assert(dist_in.contains_key(m[u][idx].to));
                                                if m[u][idx].to == e.to {
                                                    assert(distances@[e.to] == cand);
                                                    assert(cand <= dist_in[e.to]);
                                                } else {
                                                    assert(distances@[m[u][idx].to]
                                                        == dist_in[m[u][idx].to]);
                                                }
                                            }
                                        }
                                        assert(distances@[node] == dist_v);
                                    }
                                } else {
                                    proof {
                                        assert(dist_in[e.to] <= dist_v + e.weight);
                                    }
                                }
                                i = i + 1;
                            }
                        },
                    }
                }
            },
        }
    }
    proof {
        assert forall|k: usize| #[trigger]
            distances@.contains_key(k) implies visited@.contains(k) by {
            if !visited@.contains(k) {
                let v = choose|v: Vertex|
                    to_visit@.to_multiset().count(v) > 0 && v.id == k && v.value
                        == distances@[k];
                assert(to_visit@.contains(v));
            }
        }
        assert forall|t: usize| #[trigger] reachable(m, src, t) implies distances@.contains_key(
            t,
        ) by {
            let es = choose|es: Seq<Edge>| is_path(m, es, src, t);
            assert forall|e: Edge|
                edge_in_graph(m, e) && distances@.dom().contains(e.from) implies distances@.dom()
                .contains(#[trigger] e.to) by {
                assert(distances@.contains_key(e.from));
                assert(visited@.contains(e.from));
                let idx = choose|idx: int| 0 <= idx < m[e.from].len() && m[e.from][idx] == e;
                assert(distances@.contains_key(m[e.from][idx].to));
            }
            assert(distances@.dom().contains(src));
            lemma_closed_under_edges(m, distances@.dom(), es, src, t);
        }
        assert forall|k: usize| #[trigger] distances@.contains_key(k) implies k == src
            || edge_targets(m, order).contains(k) by {
            broadcast use vstd::set::group_set_axioms;

            assert(s_all.contains(k));
            if k != src {
                assert(tseq.to_set().contains(k));
            }
        }
        assert forall|k: usize, c: int|
            distances@.contains_key(k) && #[trigger] has_path_cost(m, src, k, c) implies
            distances@[k] <= c by {
            assert(visited@.contains(k));
        }
    }
    distances
}

/// Every finite value in the distance map is the cost of an actual walk
/// from `src` to its key.
pub open spec fn fin_sound(dm: Map<usize, Dist>, m: Map<usize, Seq<Edge>>, src: usize) -> bool {
    forall|k: usize| #[trigger]
        dm.contains_key(k) ==> match dm[k] {
            Dist::Fin(c) => has_path_cost(m, src, k, c as int),
            Dist::NegInf => true,
        }
}

/// Every value in the distance map is finite.
pub open spec fn all_fin(dm: Map<usize, Dist>) -> bool {
    forall|k: usize| #[trigger] dm.contains_key(k) ==> dm[k] is Fin
}

/// The edge would improve its target's tentative distance, reading
/// absence as positive infinity.
pub open spec fn edge_improves(dm: Map<usize, Dist>, e: Edge) -> bool {
    if !dm.contains_key(e.from) {
        false
    } else {
        match dm[e.from] {
            Dist::NegInf => !(dm.contains_key(e.to) && dm[e.to] is NegInf),
            Dist::Fin(v) => {
                if !dm.contains_key(e.to) {
                    true
                } else {
                    match dm[e.to] {
                        Dist::NegInf => false,
                        Dist::Fin(t) => v + e.weight < t,
                    }
                }
            },
        }
    }
}

/// No edge of the graph improves any tentative distance: the map is a
/// fixed point of relaxation.
pub open spec fn stable(dm: Map<usize, Dist>, m: Map<usize, Seq<Edge>>) -> bool {
    forall|e: Edge| #[trigger] edge_in_graph(m, e) ==> !edge_improves(dm, e)
}

/// `a` is at most `b` in the distance order, negative infinity below
/// every finite value.
pub open spec fn dist_le(a: Dist, b: Dist) -> bool {
    match a {
        Dist::NegInf => true,
        Dist::Fin(v) => match b {
            Dist::NegInf => false,
            Dist::Fin(t) => v <= t,
        },
    }
}

/// The distance is at most the integer `c`.
pub open spec fn dist_at_most(a: Dist, c: int) -> bool {
    match a {
        Dist::NegInf => true,
        Dist::Fin(v) => v as int <= c,
    }
}

/// The value one relaxation writes: the source's distance plus the edge
/// weight, with negative infinity absorbing.
pub open spec fn relaxed_value(d: Dist, w: i32) -> Dist {
    match d {
        Dist::NegInf => Dist::NegInf,
        Dist::Fin(v) => Dist::Fin(((v as int) + (w as int)) as i64),
    }
}

/// `a` keeps every key of `b` and is pointwise no larger: relaxation only
/// discovers nodes and lowers distances.
spec fn map_le(a: Map<usize, Dist>, b: Map<usize, Dist>) -> bool {
    forall|k: usize| #[trigger] b.contains_key(k) ==> a.contains_key(k) && dist_le(a[k], b[k])
}

/// Every walk from `src` of at most `p` edges already bounds its target's
/// tentative distance: what `p` full relaxation passes guarantee.
spec fn upper_ok(dm: Map<usize, Dist>, m: Map<usize, Seq<Edge>>, src: usize, p: int) -> bool {
    forall|es: Seq<Edge>, t: usize|
        #[trigger] is_path(m, es, src, t) && es.len() <= p ==> dm.contains_key(t) && dist_at_most(
            dm[t],
            path_cost(es),
        )
}

/// No directed cycle of negative total weight is reachable from `src`:
/// the precondition under which Bellman-Ford owes exact distances.
pub open spec fn no_negative_cycle(m: Map<usize, Seq<Edge>>, src: usize) -> bool {
    forall|a: usize, cyc: Seq<Edge>|
        reachable(m, src, a) && #[trigger] is_path(m, cyc, a, a) ==> path_cost(cyc) >= 0
}

/// Every edge already processed in the current pass (source enumerated
/// before slot `j`, or at slot `j` before edge `k`) has pushed its
/// pass-start bound onto its target.
spec fn pass_processed(
    dm: Map<usize, Dist>,
    start: Map<usize, Dist>,
    m: Map<usize, Seq<Edge>>,
    order: Seq<usize>,
    j: int,
    k: int,
) -> bool {
    forall|jj: int, kk: int|
        #![trigger m[order[jj]][kk]]
        0 <= jj < order.len() && 0 <= kk < m[order[jj]].len() && (jj < j || (jj == j && kk < k))
            ==> ({
            let e = m[order[jj]][kk];
            (start.contains_key(e.from) && start[e.from] is Fin) ==> dm.contains_key(e.to)
                && dist_at_most(dm[e.to], start[e.from]->Fin_0 + e.weight)
        })
}

/// Every finite value in the distance map lies within the bound.
pub open spec fn fin_bounded(dm: Map<usize, Dist>, b: int) -> bool {
    forall|k: usize| #[trigger]
        dm.contains_key(k) ==> match dm[k] {
            Dist::Fin(c) => -b <= c <= b,
            Dist::NegInf => true,
        }
}

/// The number of edges leaving the first `j` enumerated nodes.
pub open spec fn edges_before(m: Map<usize, Seq<Edge>>, order: Seq<usize>, j: int) -> int {
    targets_prefix(m, order, j).len() as int
}

/// One enumerated node's edges extend the prefix count, which never
/// passes the total.
proof fn lemma_edges_before_cap(m: Map<usize, Seq<Edge>>, order: Seq<usize>, j: int)
    requires
        0 <= j < order.len(),
    ensures
        edges_before(m, order, j) + m[order[j]].len() == edges_before(m, order, j + 1),
        edges_before(m, order, j + 1) <= edge_count(m, order),
        0 <= edges_before(m, order, j),
{
    assert(targets_prefix(m, order, j + 1) == targets_prefix(m, order, j)
        + m[order[j]].map_values(|e: Edge| e.to));
    lemma_targets_prefix_mono(m, order, j + 1, order.len() as int);
}

/// The relaxation count `pass * e + eb + k` stays small enough that every
/// accumulated distance fits comfortably in 64 bits.
proof fn lemma_relax_budget(pass: int, n: int, e: int, eb: int, k: int)
    requires
        0 <= pass <= n,
        n <= 0x8000,
        0 <= e <= 0x8000,
        0 <= eb,
        0 <= k,
        eb + k <= e,
    ensures
        0 <= pass * e + eb + k,
        pass * e + eb + k <= 0x4000_8000,
{
    assert(0 <= pass * e) by (nonlinear_arith)
        requires
            0 <= pass,
            0 <= e,
    ;
    assert(pass * e <= n * e) by (nonlinear_arith)
        requires
            0 <= pass <= n,
            0 <= e,
    ;
    assert(n * e <= 0x8000 * 0x8000) by (nonlinear_arith)
        requires
            0 <= n <= 0x8000,
            0 <= e <= 0x8000,
    ;
}

/// Every edge already processed in the detection pass whose target the
/// post-pass map `d0` still lets it improve has that target marked with
/// the sentinel.
spec fn detection_marked(
    dm: Map<usize, Dist>,
    d0: Map<usize, Dist>,
    m: Map<usize, Seq<Edge>>,
    order: Seq<usize>,
    j: int,
    k: int,
) -> bool {
    forall|jj: int, kk: int|
        #![trigger m[order[jj]][kk]]
        0 <= jj < order.len() && 0 <= kk < m[order[jj]].len() && (jj < j || (jj == j && kk < k))
            ==> ({
            let e = m[order[jj]][kk];
            edge_improves(d0, e) ==> dm.contains_key(e.to) && dm[e.to] is NegInf
        })
}

/// One relaxation step: if the edge improves its target's tentative
/// distance, the target is updated — with the relaxed candidate in an
/// ordinary pass, or with the negative-infinity sentinel in the
/// cycle-detection pass (`mark`). Absence counts as positive infinity, so
/// an edge whose source is undiscovered never improves anything.
fn relax_edge(
    dm: &mut DistanceMap<Dist>,
    node: usize,
    e: Edge,
    mark: bool,
    Ghost(m): Ghost<Map<usize, Seq<Edge>>>,
    Ghost(src): Ghost<usize>,
    Ghost(b): Ghost<int>,
)
    requires
        old(dm).wf(),
        old(dm)@.contains_key(src),
        edge_in_graph(m, e),
        e.from == node,
        fin_sound(old(dm)@, m, src),
        fin_bounded(old(dm)@, b),
        0 <= b <= 0x4000_0000_0000_0000,
    ensures
        final(dm).wf(),
        final(dm)@.contains_key(src),
        fin_sound(final(dm)@, m, src),
        fin_bounded(final(dm)@, b + 0x8000_0000),
        forall|k: usize| #[trigger]
            final(dm)@.contains_key(k) ==> old(dm)@.contains_key(k) || k == e.to,
        mark ==> final(dm)@ == (if edge_improves(old(dm)@, e) {
            old(dm)@.insert(e.to, Dist::NegInf)
        } else {
            old(dm)@
        }),
        !mark ==> final(dm)@ == (if edge_improves(old(dm)@, e) {
            old(dm)@.insert(e.to, relaxed_value(old(dm)@[e.from], e.weight))
        } else {
            old(dm)@
        }),
        !mark && all_fin(old(dm)@) ==> all_fin(final(dm)@),
        forall|k: usize| #[trigger]
            old(dm)@.contains_key(k) ==> final(dm)@.contains_key(k) && dist_le(
                final(dm)@[k],
                old(dm)@[k],
            ),
{
    let du = dm.get(node);
    match du {
        None => {},
        Some(d) => {
            let cand: Dist = match d {
                Dist::NegInf => Dist::NegInf,
                Dist::Fin(v) => Dist::Fin(v + (e.weight as i64)),
            };
            let improve: bool = match (cand, dm.get(e.to)) {
                (_, None) => true,
                (Dist::NegInf, Some(Dist::NegInf)) => false,
                (Dist::NegInf, Some(Dist::Fin(_))) => true,
                (Dist::Fin(_), Some(Dist::NegInf)) => false,
                (Dist::Fin(c), Some(Dist::Fin(t))) => c < t,
            };
            proof {
                assert(improve == edge_improves(old(dm)@, e));
                assert(cand == relaxed_value(d, e.weight));
            }
            if improve {
                if mark {
                    dm.insert(e.to, Dist::NegInf);
                    proof {
                        assert forall|k: usize| #[trigger]
                            old(dm)@.contains_key(k) implies dm@.contains_key(k) && dist_le(
                            dm@[k],
                            old(dm)@[k],
                        ) by {
                            if k != e.to {
                                assert(dm@[k] == old(dm)@[k]);
                            }
                        }
                    }
                } else {
                    proof {
                        if d is Fin {
                            let v = d->Fin_0;
                            assert(has_path_cost(m, src, node, v as int));
                            lemma_path_extend(m, src, e, v as int);
                        }
                    }
                    dm.insert(e.to, cand);
                    proof {
                        if all_fin(old(dm)@) {
                            assert forall|k: usize| #[trigger] dm@.contains_key(k) implies dm@[k]
                                is Fin by {
                                if k != e.to {
                                    assert(dm@[k] == old(dm)@[k]);
                                }
                            }
                        }
                        assert forall|k: usize| #[trigger]
                            old(dm)@.contains_key(k) implies dm@.contains_key(k) && dist_le(
                            dm@[k],
                            old(dm)@[k],
                        ) by {
                            if k != e.to {
                                assert(dm@[k] == old(dm)@[k]);
                            } else {
                                assert(dm@[k] == cand);
                            }
                        }
                    }
                }
            }
        },
    }
}

/// Iterative all-edges relaxation (Bellman-Ford): the source starts at 0,
/// every other node at positive infinity (absent), and every edge is
/// relaxed once per node for `|V|` passes. One further pass marks any
/// still-improvable target with the negative-infinity sentinel: such a
/// node is reachable through a negative cycle. When no negative cycle is
/// reachable, the result is exact: every value finite, no edge improvable,
/// the source at 0, every reachable node present, and each distance no
/// larger than any walk's cost (with `fin_sound`, the true shortest
/// distance). The sentinel lands only on edge targets and is not
/// propagated transitively past the immediate edge target within a pass
/// beyond what the pass's own iteration order happens to carry.
pub fn bellman(g: &SparseGraph, src: usize) -> (dist: DistanceMap<Dist>)
    requires
        g.wf(),
        g.node_order().len() <= 0x8000,
        edge_count(g@, g.node_order()) <= 0x8000,
    ensures
        dist.wf(),
        dist@.contains_key(src),
        forall|k: usize| #[trigger]
            dist@.contains_key(k) ==> k == src || edge_targets(g@, g.node_order()).contains(k),
        fin_sound(dist@, g@, src),
        (all_fin(dist@) && stable(dist@, g@)) || (exists|k: usize| #[trigger]
            dist@.contains_key(k) && dist@[k] is NegInf),
        forall|k: usize| #[trigger]
            dist@.contains_key(k) && dist@[k] is NegInf ==> edge_targets(
                g@,
                g.node_order(),
            ).contains(k),
        forall|t: usize| #[trigger] reachable(g@, src, t) ==> dist@.contains_key(t),
        // the result is the post-pass tentative map, overlaid with the
        // sentinel; every edge that still improves that map has its
        // target marked
        exists|d0: Map<usize, Dist>|
            #![trigger all_fin(d0)]
            {
                &&& all_fin(d0)
                &&& fin_sound(d0, g@, src)
                &&& forall|t: usize| #[trigger] reachable(g@, src, t) ==> d0.contains_key(t)
                &&& forall|x: usize| #[trigger]
                    d0.contains_key(x) ==> dist@.contains_key(x) && (dist@[x] == d0[x]
                        || dist@[x] is NegInf)
                &&& forall|x: usize| #[trigger]
                    dist@.contains_key(x) ==> d0.contains_key(x) || dist@[x] is NegInf
                &&& forall|e: Edge|
                    edge_in_graph(g@, e) && #[trigger] edge_improves(d0, e)
                        ==> dist@.contains_key(e.to) && dist@[e.to] is NegInf
            },
        no_negative_cycle(g@, src) ==> {
            &&& all_fin(dist@)
            &&& stable(dist@, g@)
            &&& dist@[src] == Dist::Fin(0)
            &&& forall|t: usize, c: int|
                dist@.contains_key(t) && #[trigger] has_path_cost(g@, src, t, c)
                    ==> dist@[t]->Fin_0 <= c
        },
{
    let ghost m = g@;
    let ghost order = g.node_order();
    let ghost tseq = edge_targets(m, order);
    let ghost ecount = edge_count(m, order);
    proof {
        g.lemma_dom();
    }
    let mut distances: DistanceMap<Dist> = DistanceMap::new();
    distances.insert(src, Dist::Fin(0));
    proof {
        assert(is_path(m, Seq::<Edge>::empty(), src, src));
        assert(path_cost(Seq::<Edge>::empty()) == 0);
        assert(has_path_cost(m, src, src, 0));
        assert(all_fin(distances@));
        assert(dist_le(distances@[src], Dist::Fin(0)));
        assert forall|es: Seq<Edge>, t: usize|
            #[trigger] is_path(m, es, src, t) && es.len() <= 0 implies distances@.contains_key(t)
            && dist_at_most(distances@[t], path_cost(es)) by {
            assert(t == src);
        }
        assert(upper_ok(distances@, m, src, 0));
    }
    let node_list = g.nodes();
    let n = g.size();
    let mut pass: usize = 0;
    while pass < n
        invariant
            g.wf(),
            m == g@,
            order == g.node_order(),
            tseq == edge_targets(m, order),
            ecount == edge_count(m, order),
            0 <= ecount <= 0x8000,
            order.len() <= 0x8000,
            n == order.len(),
            node_list@ == order,
            forall|k: usize| m.contains_key(k) <==> order.contains(k),
            pass <= n,
            distances.wf(),
            distances@.contains_key(src),
            fin_sound(distances@, m, src),
            all_fin(distances@),
            fin_bounded(distances@, (pass as int * ecount) * 0x8000_0000),
            forall|k: usize| #[trigger]
                distances@.contains_key(k) ==> k == src || tseq.contains(k),
            dist_le(distances@[src], Dist::Fin(0)),
            upper_ok(distances@, m, src, pass as int),
        decreases n - pass,
    {
        let ghost pass_start = distances@;
        let mut j: usize = 0;
        while j < node_list.len()
            invariant
                g.wf(),
                m == g@,
                order == g.node_order(),
                tseq == edge_targets(m, order),
                ecount == edge_count(m, order),
                0 <= ecount <= 0x8000,
                order.len() <= 0x8000,
                n == order.len(),
                node_list@ == order,
                forall|k: usize| m.contains_key(k) <==> order.contains(k),
                pass < n,
                j <= n,
                distances.wf(),
                distances@.contains_key(src),
                fin_sound(distances@, m, src),
                all_fin(distances@),
                fin_bounded(
                    distances@,
                    (pass as int * ecount + edges_before(m, order, j as int)) * 0x8000_0000,
                ),
                forall|k: usize| #[trigger]
                    distances@.contains_key(k) ==> k == src || tseq.contains(k),
                all_fin(pass_start),
                pass_start.contains_key(src),
                upper_ok(pass_start, m, src, pass as int),
                map_le(distances@, pass_start),
                pass_processed(distances@, pass_start, m, order, j as int, 0),
                dist_le(distances@[src], Dist::Fin(0)),
            decreases n - j,
        {
            let node = node_list[j];
            proof {
                assert(order[j as int] == node);
                assert(order.contains(node));
            }
            match g.neighbors(node) {
                None => {
                    proof {
                        assert(m.contains_key(node));
                    }
                },
                Some(adj) => {
                    let deg = adj.len();
                    let mut k: usize = 0;
                    while k < deg
                        invariant
                            g.wf(),
                            m == g@,
                            order == g.node_order(),
                            tseq == edge_targets(m, order),
                            ecount == edge_count(m, order),
                            0 <= ecount <= 0x8000,
                            order.len() <= 0x8000,
                            n == order.len(),
                            node_list@ == order,
                            forall|x: usize| m.contains_key(x) <==> order.contains(x),
                            pass < n,
                            j < n,
                            node == order[j as int],
                            m.contains_key(node),
                            adj@ == m[node],
                            deg == adj@.len(),
                            k <= deg,
                            distances.wf(),
                            distances@.contains_key(src),
                            fin_sound(distances@, m, src),
                            all_fin(distances@),
                            fin_bounded(
                                distances@,
                                (pass as int * ecount + edges_before(m, order, j as int)
                                    + k as int) * 0x8000_0000,
                            ),
                            forall|x: usize| #[trigger]
                                distances@.contains_key(x) ==> x == src || tseq.contains(x),
                            all_fin(pass_start),
                            pass_start.contains_key(src),
                            upper_ok(pass_start, m, src, pass as int),
                            map_le(distances@, pass_start),
                            pass_processed(distances@, pass_start, m, order, j as int, k as int),
                            dist_le(distances@[src], Dist::Fin(0)),
                        decreases deg - k,
                    {
                        let e = adj[k];
                        let ghost steps = pass as int * ecount + edges_before(m, order, j as int)
                            + k as int;
                        proof {
                            g.lemma_edge_sources();
                            assert(m[node][k as int] == e);
                            assert(m[node].contains(e));
                            assert(e.from == node);
                            assert(edge_in_graph(m, e));
                            lemma_target_listed(m, order, j as int, e);
                            lemma_edges_before_cap(m, order, j as int);
                            lemma_relax_budget(
                                pass as int,
                                n as int,
                                ecount,
                                edges_before(m, order, j as int),
                                k as int,
                            );
                            assert(0 <= steps * 0x8000_0000 <= 0x4000_0000_0000_0000);
                        }
                        let ghost dist_in = distances@;
                        relax_edge(
                            &mut distances,
                            node,
                            e,
                            false,
                            Ghost(m),
                            Ghost(src),
                            Ghost(steps * 0x8000_0000),
                        );
                        proof {
                            assert forall|x: usize| #[trigger]
                                pass_start.contains_key(x) implies distances@.contains_key(x)
                                && dist_le(distances@[x], pass_start[x]) by {
                                assert(dist_in.contains_key(x) && dist_le(
                                    dist_in[x],
                                    pass_start[x],
                                ));
                                assert(distances@.contains_key(x) && dist_le(
                                    distances@[x],
                                    dist_in[x],
                                ));
                            }
                            assert forall|jj: int, kk: int|
                                #![trigger m[order[jj]][kk]]
                                0 <= jj < order.len() && 0 <= kk < m[order[jj]].len() && (jj < j
                                    || (jj == j && kk < k + 1)) implies ({
                                let ee = m[order[jj]][kk];
                                (pass_start.contains_key(ee.from) && pass_start[ee.from]
                                    is Fin) ==> distances@.contains_key(ee.to) && dist_at_most(
                                    distances@[ee.to],
                                    pass_start[ee.from]->Fin_0 + ee.weight,
                                )
                            }) by {
                                let ee = m[order[jj]][kk];
                                if pass_start.contains_key(ee.from) && pass_start[ee.from]
                                    is Fin {
                                    if jj == j && kk == k {
                                        assert(ee == e);
                                        let sv = pass_start[e.from]->Fin_0;
                                        assert(dist_in.contains_key(e.from) && dist_le(
                                            dist_in[e.from],
                                            pass_start[e.from],
                                        ));
                                        let vv = dist_in[e.from]->Fin_0;
                                        assert(vv <= sv);
                                        assert(-(steps * 0x8000_0000) <= vv as int <= steps
                                            * 0x8000_0000);
                                        if edge_improves(dist_in, e) {
                                            assert(distances@ == dist_in.insert(
                                                e.to,
                                                relaxed_value(dist_in[e.from], e.weight),
                                            ));
                                            assert(distances@[e.to] == Dist::Fin(
                                                ((vv as int) + (e.weight as int)) as i64,
                                            ));
                                            assert(dist_at_most(
                                                distances@[e.to],
                                                sv + e.weight,
                                            ));
                                        } else {
                                            assert(distances@ == dist_in);
                                            assert(dist_in.contains_key(e.to));
                                            assert(dist_at_most(
                                                dist_in[e.to],
                                                sv + e.weight,
                                            ));
                                        }
                                    } else {
                                        assert(dist_in.contains_key(ee.to) && dist_at_most(
                                            dist_in[ee.to],
                                            pass_start[ee.from]->Fin_0 + ee.weight,
                                        ));
                                        assert(distances@.contains_key(ee.to) && dist_le(
                                            distances@[ee.to],
                                            dist_in[ee.to],
                                        ));
                                    }
                                }
                            }
                            assert(dist_le(distances@[src], Dist::Fin(0))) by {
                                assert(dist_le(distances@[src], dist_in[src]));
                            }
                        }
                        k = k + 1;
                    }
                    proof {
                        lemma_edges_before_cap(m, order, j as int);
                    }
                },
            }
            j = j + 1;
        }
        proof {
            assert(edges_before(m, order, n as int) == ecount);
            assert(pass as int * ecount + ecount == (pass as int + 1) * ecount) by (nonlinear_arith);
            assert forall|es: Seq<Edge>, t: usize|
                #[trigger] is_path(m, es, src, t) && es.len() <= pass as int
                    + 1 implies distances@.contains_key(t) && dist_at_most(
                distances@[t],
                path_cost(es),
            ) by {
                if es.len() <= pass as int {
                    assert(pass_start.contains_key(t) && dist_at_most(
                        pass_start[t],
                        path_cost(es),
                    ));
                    assert(distances@.contains_key(t) && dist_le(distances@[t], pass_start[t]));
                } else {
                    let e = es.last();
                    lemma_path_drop_last(m, es, src, t);
                    let es1 = es.drop_last();
                    assert(is_path(m, es1, src, e.from) && es1.len() <= pass as int);
                    assert(pass_start.contains_key(e.from) && dist_at_most(
                        pass_start[e.from],
                        path_cost(es1),
                    ));
                    assert(edge_in_graph(m, e)) by {
                        assert(es[es.len() - 1] == e);
                    }
                    assert(order.contains(e.from));
                    let jj = choose|jj: int| 0 <= jj < order.len() && order[jj] == e.from;
                    let kk = choose|kk: int| 0 <= kk < m[e.from].len() && m[e.from][kk] == e;
                    assert(m[order[jj]][kk] == e);
                    assert(distances@.contains_key(e.to) && dist_at_most(
                        distances@[e.to],
                        pass_start[e.from]->Fin_0 + e.weight,
                    ));
                    assert(e.to == t);
                    assert(path_cost(es) == path_cost(es1) + e.weight);
                }
            }
            assert(upper_ok(distances@, m, src, pass as int + 1));
        }
        pass = pass + 1;
    }
    // One more relaxation pass, purely to detect negative cycles: any
    // edge that still improves its target marks that target as
    // unboundedly improvable.
    let ghost dist_det = distances@;
    proof {
        assert(all_fin(dist_det));
        assert(upper_ok(dist_det, m, src, n as int));
        assert forall|t: usize| #[trigger] reachable(m, src, t) implies dist_det.contains_key(
            t,
        ) by {
            let es = choose|es: Seq<Edge>| is_path(m, es, src, t);
            lemma_shorten_walk_length(m, order, src, es, t);
            let es2 = choose|es2: Seq<Edge>|
                is_path(m, es2, src, t) && es2.len() <= order.len();
            assert(is_path(m, es2, src, t) && es2.len() <= n as int);
        }
        if no_negative_cycle(m, src) {
            assert forall|e: Edge| #[trigger] edge_in_graph(m, e) implies !edge_improves(
                dist_det,
                e,
            ) by {
                if edge_improves(dist_det, e) {
                    assert(dist_det.contains_key(e.from));
                    assert(dist_det[e.from] is Fin);
                    let v = dist_det[e.from]->Fin_0;
                    assert(has_path_cost(m, src, e.from, v as int));
                    lemma_path_extend(m, src, e, v as int);
                    let w1 = choose|w1: Seq<Edge>|
                        is_path(m, w1, src, e.to) && path_cost(w1) == v as int + e.weight;
                    lemma_shorten_walk(m, order, src, w1, e.to);
                    let w2 = choose|w2: Seq<Edge>|
                        is_path(m, w2, src, e.to) && path_cost(w2) <= path_cost(w1) && w2.len()
                            <= order.len();
                    assert(is_path(m, w2, src, e.to) && w2.len() <= n as int);
                    assert(dist_det.contains_key(e.to) && dist_at_most(
                        dist_det[e.to],
                        path_cost(w2),
                    ));
                    assert(false);
                }
            }
            assert(stable(dist_det, m));
            let sv = dist_det[src]->Fin_0;
            assert(has_path_cost(m, src, src, sv as int));
            let c0 = choose|c0: Seq<Edge>|
                is_path(m, c0, src, src) && path_cost(c0) == sv as int;
            assert(reachable(m, src, src)) by {
                assert(is_path(m, Seq::<Edge>::empty(), src, src));
            }
            assert(path_cost(c0) >= 0);
            assert(dist_det[src] == Dist::Fin(0));
        }
        assert(no_negative_cycle(m, src) ==> stable(dist_det, m) && dist_det[src] == Dist::Fin(
            0,
        ));
    }
    let mut j: usize = 0;
    while j < node_list.len()
        invariant
            g.wf(),
            m == g@,
            order == g.node_order(),
            tseq == edge_targets(m, order),
            ecount == edge_count(m, order),
            0 <= ecount <= 0x8000,
            order.len() <= 0x8000,
            n == order.len(),
            node_list@ == order,
            forall|k: usize| m.contains_key(k) <==> order.contains(k),
            j <= n,
            distances.wf(),
            distances@.contains_key(src),
            fin_sound(distances@, m, src),
            fin_bounded(
                distances@,
                (n as int * ecount + edges_before(m, order, j as int)) * 0x8000_0000,
            ),
            forall|k: usize| #[trigger]
                distances@.contains_key(k) ==> k == src || tseq.contains(k),
            all_fin(dist_det),
            fin_sound(dist_det, m, src),
            forall|t: usize| #[trigger] reachable(m, src, t) ==> dist_det.contains_key(t),
            forall|k: usize| #[trigger]
                distances@.contains_key(k) && distances@[k] is NegInf ==> tseq.contains(k),
            forall|x: usize| #[trigger]
                dist_det.contains_key(x) ==> distances@.contains_key(x) && (distances@[x]
                    == dist_det[x] || distances@[x] is NegInf),
            forall|x: usize| #[trigger]
                distances@.contains_key(x) ==> dist_det.contains_key(x) || distances@[x]
                    is NegInf,
            detection_marked(distances@, dist_det, m, order, j as int, 0),
            stable(dist_det, m) ==> distances@ == dist_det,
            (distances@ == dist_det && (forall|jj: int, kk: int|
                0 <= jj < j && 0 <= kk < m[order[jj]].len() ==> !edge_improves(
                    dist_det,
                    #[trigger] m[order[jj]][kk],
                ))) || (exists|x: usize| #[trigger]
                distances@.contains_key(x) && distances@[x] is NegInf),
        decreases n - j,
    {
        let node = node_list[j];
        proof {
            assert(order[j as int] == node);
            assert(order.contains(node));
        }
        match g.neighbors(node) {
            None => {
                proof {
                    assert(m.contains_key(node));
                }
            },
            Some(adj) => {
                let deg = adj.len();
                let mut k: usize = 0;
                while k < deg
                    invariant
                        g.wf(),
                        m == g@,
                        order == g.node_order(),
                        tseq == edge_targets(m, order),
                        ecount == edge_count(m, order),
                        0 <= ecount <= 0x8000,
                        order.len() <= 0x8000,
                        n == order.len(),
                        node_list@ == order,
                        forall|x: usize| m.contains_key(x) <==> order.contains(x),
                        j < n,
                        node == order[j as int],
                        m.contains_key(node),
                        adj@ == m[node],
                        deg == adj@.len(),
                        k <= deg,
                        distances.wf(),
                        distances@.contains_key(src),
                        fin_sound(distances@, m, src),
                        fin_bounded(
                            distances@,
                            (n as int * ecount + edges_before(m, order, j as int) + k as int)
                                * 0x8000_0000,
                        ),
                        forall|x: usize| #[trigger]
                            distances@.contains_key(x) ==> x == src || tseq.contains(x),
                        all_fin(dist_det),
                        fin_sound(dist_det, m, src),
                        forall|t: usize| #[trigger] reachable(m, src, t) ==> dist_det.contains_key(t),
                        forall|x: usize| #[trigger]
                            distances@.contains_key(x) && distances@[x] is NegInf
                                ==> tseq.contains(x),
                        forall|x: usize| #[trigger]
                            dist_det.contains_key(x) ==> distances@.contains_key(x) && (
                            distances@[x] == dist_det[x] || distances@[x] is NegInf),
                        forall|x: usize| #[trigger]
                            distances@.contains_key(x) ==> dist_det.contains_key(x)
                                || distances@[x] is NegInf,
                        detection_marked(distances@, dist_det, m, order, j as int, k as int),
                        stable(dist_det, m) ==> distances@ == dist_det,
                        (distances@ == dist_det && (forall|jj: int, kk: int|
                            0 <= jj < j && 0 <= kk < m[order[jj]].len() ==> !edge_improves(
                                dist_det,
                                #[trigger] m[order[jj]][kk],
                            )) && (forall|kk: int|
                            0 <= kk < k ==> !edge_improves(
                                dist_det,
                                #[trigger] m[node][kk],
                            ))) || (exists|x: usize| #[trigger]
                            distances@.contains_key(x) && distances@[x] is NegInf),
                    decreases deg - k,
                {
                    let e = adj[k];
                    let ghost steps = n as int * ecount + edges_before(m, order, j as int)
                        + k as int;
                    proof {
                        g.lemma_edge_sources();
                        assert(m[node][k as int] == e);
                        assert(m[node].contains(e));
                        assert(e.from == node);
                        assert(edge_in_graph(m, e));
                        lemma_target_listed(m, order, j as int, e);
                        lemma_edges_before_cap(m, order, j as int);
                        lemma_relax_budget(
                            n as int,
                            n as int,
                            ecount,
                            edges_before(m, order, j as int),
                            k as int,
                        );
                        assert(0 <= steps * 0x8000_0000 <= 0x4000_0000_0000_0000);
                    }
                    let ghost dist_in = distances@;
                    relax_edge(
                        &mut distances,
                        node,
                        e,
                        true,
                        Ghost(m),
                        Ghost(src),
                        Ghost(steps * 0x8000_0000),
                    );
                    proof {
                        if stable(dist_det, m) {
                            assert(!edge_improves(dist_in, e));
                            assert(distances@ == dist_det);
                        }
                        assert forall|x: usize| #[trigger]
                            distances@.contains_key(x) && distances@[x]
                            is NegInf implies tseq.contains(x) by {
                            if x != e.to {
                                assert(dist_in.contains_key(x) && dist_in[x] == distances@[x]);
                            }
                        }
                        assert forall|x: usize| #[trigger]
                            dist_det.contains_key(x) implies distances@.contains_key(x) && (
                        distances@[x] == dist_det[x] || distances@[x] is NegInf) by {
                            if x != e.to {
                                assert(dist_in.contains_key(x) && dist_in[x] == distances@[x]);
                            }
                        }
                        assert forall|x: usize| #[trigger]
                            distances@.contains_key(x) implies dist_det.contains_key(x)
                            || distances@[x] is NegInf by {
                            if x != e.to {
                                assert(dist_in.contains_key(x) && dist_in[x] == distances@[x]);
                            }
                        }
                        assert forall|jj: int, kk: int|
                            #![trigger m[order[jj]][kk]]
                            0 <= jj < order.len() && 0 <= kk < m[order[jj]].len() && (jj < j || (
                            jj == j && kk < k + 1)) implies ({
                            let ee = m[order[jj]][kk];
                            edge_improves(dist_det, ee) ==> distances@.contains_key(ee.to)
                                && distances@[ee.to] is NegInf
                        }) by {
                            let ee = m[order[jj]][kk];
                            if edge_improves(dist_det, ee) {
                                if jj == j && kk == k {
                                    assert(ee == e);
                                    if dist_in.contains_key(e.to) && dist_in[e.to] is NegInf {
                                        // the target is already marked and a mark
                                        // never goes away
                                        assert(distances@[e.to] is NegInf);
                                    } else {
                                        assert(edge_improves(dist_in, e)) by {
                                            assert(dist_det.contains_key(e.from));
                                            assert(dist_in.contains_key(e.from));
                                            if !(dist_in[e.from] is NegInf) {
                                                assert(dist_in[e.from] == dist_det[e.from]);
                                                assert(dist_det[e.from] is Fin);
                                                if dist_det.contains_key(e.to) {
                                                    assert(dist_det[e.to] is Fin);
                                                    if dist_in.contains_key(e.to) {
                                                        assert(dist_in[e.to] == dist_det[e.to]);
                                                    }
                                                } else {
                                                    if dist_in.contains_key(e.to) {
                                                        assert(dist_in[e.to] is NegInf);
                                                        assert(false);
                                                    }
                                                }
                                            }
                                        }
                                        assert(distances@ == dist_in.insert(e.to, Dist::NegInf));
                                        assert(distances@[e.to] is NegInf);
                                    }
                                } else {
                                    assert(dist_in.contains_key(ee.to) && dist_in[ee.to]
                                        is NegInf);
                                    if ee.to != e.to {
                                        assert(distances@[ee.to] == dist_in[ee.to]);
                                    } else {
                                        assert(distances@[ee.to] is NegInf);
                                    }
                                }
                            }
                        }
                        if dist_in == dist_det {
                            if edge_improves(dist_in, e) {
                                assert(distances@ == dist_in.insert(e.to, Dist::NegInf));
                                assert(distances@.contains_key(e.to) && distances@[e.to]
                                    is NegInf);
                            } else {
                                assert(distances@ == dist_det);
                                assert(m[node][k as int] == e);
                            }
                        } else {
                            let x = choose|x: usize| #[trigger]
                                dist_in.contains_key(x) && dist_in[x] is NegInf;
                            if edge_improves(dist_in, e) {
                                assert(distances@ == dist_in.insert(e.to, Dist::NegInf));
                                if x == e.to {
                                    assert(distances@[x] is NegInf);
                                } else {
                                    assert(distances@[x] == dist_in[x]);
                                }
                                assert(distances@.contains_key(x) && distances@[x] is NegInf);
                            } else {
                                assert(distances@ == dist_in);
                            }
                        }
                    }
                    k = k + 1;
                }
                proof {
                    lemma_edges_before_cap(m, order, j as int);
                    if distances@ == dist_det {
                        assert forall|jj: int, kk: int|
                            0 <= jj < j + 1 && 0 <= kk < m[order[jj]].len() implies !edge_improves(
                            dist_det,
                            #[trigger] m[order[jj]][kk],
                        ) by {
                            if jj == j {
                                assert(!edge_improves(dist_det, m[node][kk]));
                            }
                        }
                    }
                }
            },
        }
        j = j + 1;
    }
    proof {
        assert forall|e: Edge|
            edge_in_graph(m, e) && #[trigger] edge_improves(
                dist_det,
                e,
            ) implies distances@.contains_key(e.to) && distances@[e.to] is NegInf by {
            assert(order.contains(e.from));
            let jj = choose|jj: int| 0 <= jj < order.len() && order[jj] == e.from;
            let kk = choose|kk: int| 0 <= kk < m[e.from].len() && m[e.from][kk] == e;
            assert(m[order[jj]][kk] == e);
        }
        assert forall|t: usize| #[trigger] reachable(m, src, t) implies distances@.contains_key(
            t,
        ) by {
            assert(dist_det.contains_key(t));
        }
        assert(all_fin(dist_det) && fin_sound(dist_det, m, src) && (forall|t: usize| #[trigger]
            reachable(m, src, t) ==> dist_det.contains_key(t)) && (forall|x: usize| #[trigger]
            dist_det.contains_key(x) ==> distances@.contains_key(x) && (distances@[x]
            == dist_det[x] || distances@[x] is NegInf)) && (forall|x: usize| #[trigger]
            distances@.contains_key(x) ==> dist_det.contains_key(x) || distances@[x] is NegInf)
            && (forall|e: Edge|
            edge_in_graph(m, e) && #[trigger] edge_improves(dist_det, e)
                ==> distances@.contains_key(e.to) && distances@[e.to] is NegInf));
        if distances@ == dist_det {
            if forall|jj: int, kk: int|
                0 <= jj < n && 0 <= kk < m[order[jj]].len() ==> !edge_improves(
                    dist_det,
                    #[trigger] m[order[jj]][kk],
                ) {
                assert forall|e: Edge| #[trigger] edge_in_graph(m, e) implies !edge_improves(
                    distances@,
                    e,
                ) by {
                    assert(order.contains(e.from));
                    let jj = choose|jj: int| 0 <= jj < order.len() && order[jj] == e.from;
                    let kk = choose|kk: int| 0 <= kk < m[e.from].len() && m[e.from][kk] == e;
                    assert(!edge_improves(dist_det, m[order[jj]][kk]));
                }
                assert(stable(distances@, m));
            }
        }
        if no_negative_cycle(m, src) {
            assert(stable(dist_det, m) && dist_det[src] == Dist::Fin(0));
            assert(distances@ == dist_det);
            assert(all_fin(distances@));
            assert(stable(distances@, m));
            assert(distances@[src] == Dist::Fin(0));
            assert forall|e: Edge|
                edge_in_graph(m, e) && distances@.dom().contains(e.from) implies distances@.dom()
                .contains(#[trigger] e.to) by {
                assert(!edge_improves(distances@, e));
            }
            assert forall|t: usize| #[trigger] reachable(
                m,
                src,
                t,
            ) implies distances@.contains_key(t) by {
                let es = choose|es: Seq<Edge>| is_path(m, es, src, t);
                assert(distances@.dom().contains(src));
                lemma_closed_under_edges(m, distances@.dom(), es, src, t);
            }
            assert forall|t: usize, c: int|
                distances@.contains_key(t) && #[trigger] has_path_cost(
                    m,
                    src,
                    t,
                    c,
                ) implies distances@[t]->Fin_0 <= c by {
                let es = choose|es: Seq<Edge>| is_path(m, es, src, t) && path_cost(es) == c;
                lemma_stable_telescope(distances@, m, es, src, t);
            }
        }
    }
    distances
}

/// Telescoping a walk none of whose edges improves the map: the
/// endpoint's distance is at most the start's plus the walk's cost.
proof fn lemma_telescope_edges(
    dm: Map<usize, Dist>,
    m: Map<usize, Seq<Edge>>,
    es: Seq<Edge>,
    a: usize,
    b: usize,
)
    requires
        forall|i: int| 0 <= i < es.len() ==> !edge_improves(dm, #[trigger] es[i]),
        all_fin(dm),
        dm.contains_key(a),
        is_path(m, es, a, b),
    ensures
        dm.contains_key(b),
        dm[b]->Fin_0 <= dm[a]->Fin_0 + path_cost(es),
    decreases es.len(),
{
    if es.len() == 0 {
    } else {
        let e = es.last();
        lemma_path_drop_last(m, es, a, b);
        assert(forall|i: int|
            0 <= i < es.drop_last().len() ==> #[trigger] es.drop_last()[i] == es[i]);
        lemma_telescope_edges(dm, m, es.drop_last(), a, e.from);
        assert(!edge_improves(dm, e)) by {
            assert(es[es.len() - 1] == e);
        }
        assert(dm.contains_key(e.to));
        assert(dm[e.to]->Fin_0 <= dm[e.from]->Fin_0 + e.weight);
    }
}

/// Telescoping a walk across a relaxation fixed point with finite values:
/// the endpoint's distance is at most the start's plus the walk's cost.
/// With the start pinned to 0, this is the minimality of every distance
/// in such a map.
pub proof fn lemma_stable_telescope(
    dm: Map<usize, Dist>,
    m: Map<usize, Seq<Edge>>,
    es: Seq<Edge>,
    a: usize,
    b: usize,
)
    requires
        stable(dm, m),
        all_fin(dm),
        dm.contains_key(a),
        is_path(m, es, a, b),
    ensures
        dm.contains_key(b),
        dm[b]->Fin_0 <= dm[a]->Fin_0 + path_cost(es),
{
    assert forall|i: int| 0 <= i < es.len() implies !edge_improves(dm, #[trigger] es[i]) by {
        assert(edge_in_graph(m, es[i]));
    }
    lemma_telescope_edges(dm, m, es, a, b);
}

/// Negative-cycle detection: against the post-pass map `d0` that the
/// returned map overlays (see `bellman`'s contract), some edge of a
/// reachable negative cycle must still improve — a cycle none of whose
/// edges improves telescopes to a non-negative total — so the direct
/// successor of a cycle edge carries the negative-infinity sentinel.
pub proof fn lemma_negative_cycle_yields_sentinel(
    dm: Map<usize, Dist>,
    d0: Map<usize, Dist>,
    m: Map<usize, Seq<Edge>>,
    src: usize,
    a: usize,
    cyc: Seq<Edge>,
)
    requires
        all_fin(d0),
        forall|t: usize| #[trigger] reachable(m, src, t) ==> d0.contains_key(t),
        forall|e: Edge|
            edge_in_graph(m, e) && #[trigger] edge_improves(d0, e) ==> dm.contains_key(e.to)
                && dm[e.to] is NegInf,
        reachable(m, src, a),
        is_path(m, cyc, a, a),
        path_cost(cyc) < 0,
    ensures
        exists|idx: int|
            0 <= idx < cyc.len() && dm.contains_key((#[trigger] cyc[idx]).to) && dm[cyc[idx].to]
                is NegInf,
{
    if exists|idx: int| 0 <= idx < cyc.len() && edge_improves(d0, #[trigger] cyc[idx]) {
        let idx = choose|idx: int| 0 <= idx < cyc.len() && edge_improves(d0, #[trigger] cyc[idx]);
        assert(edge_in_graph(m, cyc[idx]));
        assert(dm.contains_key(cyc[idx].to) && dm[cyc[idx].to] is NegInf);
    } else {
        assert(d0.contains_key(a));
        lemma_telescope_edges(d0, m, cyc, a, a);
        assert(false);
    }
}

} // verus!
