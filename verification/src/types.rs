//! Core graph types.
//!
//! `BaseGraph` is a stable-index graph: nodes and edges live in slots that are
//! never reused, so a `NodeId` or `EdgeId` keeps naming the same element until
//! that element is removed. The graph is either directed or undirected, chosen
//! by the marker type `Ty`. Two families of operations are offered: plain ones
//! returning `bool` or `Option`, and `try_…` ones returning a `Result` with an
//! exception from `crate::exceptions`.

use vstd::prelude::*;
use std::marker::PhantomData;
use crate::exceptions::{GraphinaException, NodeNotFound};
use crate::walks::connects;

verus! {

/// Marker type for directed graphs.
#[derive(Debug, Clone, Copy, PartialEq, Eq, Hash, Default)]
pub struct Directed;

/// Marker type for undirected graphs.
#[derive(Debug, Clone, Copy, PartialEq, Eq, Hash, Default)]
pub struct Undirected;

/// Chooses whether a graph type is directed.
pub trait GraphConstructor: Sized {
    /// Whether graphs of this kind are directed.
    spec fn spec_is_directed() -> bool;

    /// Returns true if graphs of this kind are directed.
    fn is_directed() -> (b: bool)
        ensures
            b == Self::spec_is_directed(),
    ;
}

impl GraphConstructor for Directed {
    open spec fn spec_is_directed() -> bool {
        true
    }

    fn is_directed() -> (b: bool) {
        true
    }
}

impl GraphConstructor for Undirected {
    open spec fn spec_is_directed() -> bool {
        false
    }

    fn is_directed() -> (b: bool) {
        false
    }
}

/// Identifier of a node: the index of its slot.
#[derive(Debug, Clone, Copy, PartialEq, Eq, Structural, Hash, PartialOrd, Ord)]
pub struct NodeId(pub usize);

impl NodeId {
    /// Returns the numeric part of the node's index.
    pub fn index(&self) -> (i: usize)
        ensures
            i == self.0,
    {
        self.0
    }
}

/// Identifier of an edge: the index of its slot.
#[derive(Debug, Clone, Copy, PartialEq, Eq, Structural, Hash, PartialOrd, Ord)]
pub struct EdgeId(pub usize);

impl EdgeId {
    /// Returns the numeric part of the edge's index.
    pub fn index(&self) -> (i: usize)
        ensures
            i == self.0,
    {
        self.0
    }
}

/// Number of occupied slots.
pub open spec fn count_live<T>(s: Seq<Option<T>>) -> nat
    decreases s.len(),
{
    if s.len() == 0 {
        0
    } else {
        count_live(s.drop_last()) + if s.last() is Some { 1nat } else { 0nat }
    }
}

/// Indices of the occupied slots, in increasing order.
pub open spec fn live_indices<T>(s: Seq<Option<T>>) -> Seq<usize>
    decreases s.len(),
{
    if s.len() == 0 {
        seq![]
    } else if s.last() is Some {
        live_indices(s.drop_last()).push((s.len() - 1) as usize)
    } else {
        live_indices(s.drop_last())
    }
}

/// Targets of the edges with index `lo` or above whose source is `n`,
/// the most recently added edge first.
pub open spec fn out_from<W>(edges: Seq<Option<(usize, usize, W)>>, n: usize, lo: int) -> Seq<usize>
    decreases edges.len() - lo,
{
    if lo < 0 || lo >= edges.len() {
        seq![]
    } else {
        let rest = out_from(edges, n, lo + 1);
        match edges[lo] {
            Some(e) => if e.0 == n { rest.push(e.1) } else { rest },
            None => rest,
        }
    }
}

/// Sources of the edges with index `lo` or above whose target is `n`, leaving
/// out self-loops, the most recently added edge first.
pub open spec fn in_from<W>(edges: Seq<Option<(usize, usize, W)>>, n: usize, lo: int) -> Seq<usize>
    decreases edges.len() - lo,
{
    if lo < 0 || lo >= edges.len() {
        seq![]
    } else {
        let rest = in_from(edges, n, lo + 1);
        match edges[lo] {
            Some(e) => if e.1 == n && e.0 != n { rest.push(e.0) } else { rest },
            None => rest,
        }
    }
}

/// Number of edges with index `lo` or above whose target is `n`, self-loops included.
pub open spec fn count_in<W>(edges: Seq<Option<(usize, usize, W)>>, n: usize, lo: int) -> nat
    decreases edges.len() - lo,
{
    if lo < 0 || lo >= edges.len() {
        0
    } else {
        count_in(edges, n, lo + 1) + match edges[lo] {
            Some(e) => if e.1 == n { 1nat } else { 0nat },
            None => 0nat,
        }
    }
}

/// Edge `e` is present and leads from `u` to `v`.
pub open spec fn edge_between<W>(edges: Seq<Option<(usize, usize, W)>>, e: int, u: usize, v: usize) -> bool {
    &&& 0 <= e < edges.len()
    &&& edges[e] is Some
    &&& edges[e].unwrap().0 == u
    &&& edges[e].unwrap().1 == v
}

/// `count_live` after appending one slot.
pub proof fn lemma_count_push<T>(s: Seq<Option<T>>, x: Option<T>)
    ensures
        count_live(s.push(x)) == count_live(s) + if x is Some { 1nat } else { 0nat },
{
    assert(s.push(x).drop_last() =~= s);
}

/// `count_live` after overwriting one slot.
pub proof fn lemma_count_update<T>(s: Seq<Option<T>>, i: int, x: Option<T>)
    requires
        0 <= i < s.len(),
    ensures
        count_live(s.update(i, x)) + (if s[i] is Some { 1nat } else { 0nat })
            == count_live(s) + (if x is Some { 1nat } else { 0nat }),
    decreases s.len(),
{
    let t = s.update(i, x);
    if i == s.len() - 1 {
        assert(t.drop_last() =~= s.drop_last());
    } else {
        assert(t.drop_last() =~= s.drop_last().update(i, x));
        lemma_count_update(s.drop_last(), i, x);
    }
}

/// `count_live` of an all-empty sequence.
pub proof fn lemma_count_bound<T>(s: Seq<Option<T>>)
    ensures
        count_live(s) <= s.len(),
    decreases s.len(),
{
    if s.len() > 0 {
        lemma_count_bound(s.drop_last());
    }
}

/// `live_indices` lists exactly the occupied slots, in increasing order,
/// and there are `count_live` of them.
pub proof fn lemma_live_indices<T>(s: Seq<Option<T>>)
    requires
        s.len() <= usize::MAX,
    ensures
        live_indices(s).len() == count_live(s),
        forall|k: int| 0 <= k < live_indices(s).len() ==>
            (#[trigger] live_indices(s)[k]) < s.len() && s[live_indices(s)[k] as int] is Some,
        forall|i: int| 0 <= i < s.len() && s[i] is Some ==> #[trigger] live_indices(s).contains(i as usize),
        forall|j: int, k: int| 0 <= j < k < live_indices(s).len() ==>
            (#[trigger] live_indices(s)[j]) < #[trigger] live_indices(s)[k],
    decreases s.len(),
{
    if s.len() > 0 {
        let p = s.drop_last();
        lemma_live_indices(p);
        let lp = live_indices(p);
        let l = live_indices(s);
        if s.last() is Some {
            assert(l == lp.push((s.len() - 1) as usize));
            assert forall|k: int| 0 <= k < l.len() implies
                (#[trigger] l[k]) < s.len() && s[l[k] as int] is Some by {
                if k < lp.len() {
                    assert(l[k] == lp[k]);
                    assert(p[lp[k] as int] is Some);
                }
            }
            assert forall|j: int, k: int| 0 <= j < k < l.len() implies
                (#[trigger] l[j]) < #[trigger] l[k] by {
                assert(l[j] == lp[j]);
                if k < lp.len() {
                    assert(l[k] == lp[k]);
                }
            }
        } else {
            assert(l == lp);
            assert forall|k: int| 0 <= k < l.len() implies
                (#[trigger] l[k]) < s.len() && s[l[k] as int] is Some by {
                assert(p[lp[k] as int] is Some);
            }
        }
        assert forall|i: int| 0 <= i < s.len() && s[i] is Some implies #[trigger] live_indices(s).contains(i as usize) by {
            if i < s.len() - 1 {
                assert(p[i] is Some);
                assert(lp.contains(i as usize));
                let k = choose|k: int| 0 <= k < lp.len() && lp[k] == i as usize;
                assert(live_indices(s)[k] == i as usize);
            } else {
                assert(live_indices(s).last() == i as usize);
            }
        }
    }
}

/// Membership in `out_from`: exactly the targets of edges from `n` at index `lo` or above.
pub proof fn lemma_out_from_contains<W>(edges: Seq<Option<(usize, usize, W)>>, n: usize, lo: int, x: usize)
    requires
        0 <= lo <= edges.len(),
    ensures
        out_from(edges, n, lo).contains(x) <==> exists|e: int| lo <= e && #[trigger] edge_between(edges, e, n, x),
    decreases edges.len() - lo,
{
    if lo < edges.len() {
        lemma_out_from_contains(edges, n, lo + 1, x);
        let rest = out_from(edges, n, lo + 1);
        if edge_between(edges, lo, n, x) {
            assert(out_from(edges, n, lo) == rest.push(x));
            assert(out_from(edges, n, lo).last() == x);
        } else {
            if out_from(edges, n, lo).contains(x) {
                let k = choose|k: int| 0 <= k < out_from(edges, n, lo).len() && out_from(edges, n, lo)[k] == x;
                if k < rest.len() {
                    assert(rest[k] == x);
                } else {
                    assert(false);
                }
            }
            if exists|e: int| lo <= e && #[trigger] edge_between(edges, e, n, x) {
                let e = choose|e: int| lo <= e && #[trigger] edge_between(edges, e, n, x);
                assert(e != lo);
                assert(rest.contains(x));
                let k = choose|k: int| 0 <= k < rest.len() && rest[k] == x;
                assert(out_from(edges, n, lo)[k] == x);
            }
        }
    }
}

/// Membership in `in_from`: exactly the sources other than `n` of edges into `n`
/// at index `lo` or above.
pub proof fn lemma_in_from_contains<W>(edges: Seq<Option<(usize, usize, W)>>, n: usize, lo: int, x: usize)
    requires
        0 <= lo <= edges.len(),
    ensures
        in_from(edges, n, lo).contains(x) <==> x != n && exists|e: int| lo <= e && #[trigger] edge_between(edges, e, x, n),
    decreases edges.len() - lo,
{
    if lo < edges.len() {
        lemma_in_from_contains(edges, n, lo + 1, x);
        let rest = in_from(edges, n, lo + 1);
        if x != n && edge_between(edges, lo, x, n) {
            assert(in_from(edges, n, lo) == rest.push(x));
            assert(in_from(edges, n, lo).last() == x);
        } else {
            if in_from(edges, n, lo).contains(x) {
                let k = choose|k: int| 0 <= k < in_from(edges, n, lo).len() && in_from(edges, n, lo)[k] == x;
                if k < rest.len() {
                    assert(rest[k] == x);
                } else {
                    assert(false);
                }
            }
            if x != n && exists|e: int| lo <= e && #[trigger] edge_between(edges, e, x, n) {
                let e = choose|e: int| lo <= e && #[trigger] edge_between(edges, e, x, n);
                assert(e != lo);
                assert(rest.contains(x));
                let k = choose|k: int| 0 <= k < rest.len() && rest[k] == x;
                assert(in_from(edges, n, lo)[k] == x);
            }
        }
    }
}

/// Base graph structure with node attributes `A`, edge weights `W` and
/// directedness `Ty`.
#[derive(Debug)]
pub struct BaseGraph<A, W, Ty> {
    nodes: Vec<Option<A>>,
    edges: Vec<Option<(usize, usize, W)>>,
    node_total: usize,
    edge_total: usize,
    kind: PhantomData<Ty>,
}

/// Undirected graph.
pub type Graph<A, W> = BaseGraph<A, W, Undirected>;

/// Directed graph.
pub type Digraph<A, W> = BaseGraph<A, W, Directed>;

/// Marker alias for directed graphs.
pub type DigraphMarker = Directed;

/// Marker alias for undirected graphs.
pub type GraphMarker = Undirected;

impl<A, W, Ty: GraphConstructor> BaseGraph<A, W, Ty> {
    /// Node slots: slot `i` holds the attribute of node `i`, if it exists.
    pub closed spec fn node_slots(&self) -> Seq<Option<A>> {
        self.nodes@
    }

    /// Edge slots: slot `e` holds `(source, target, weight)` of edge `e`, if it exists.
    pub closed spec fn edge_slots(&self) -> Seq<Option<(usize, usize, W)>> {
        self.edges@
    }

    /// Whether the graph is directed.
    pub open spec fn directed(&self) -> bool {
        Ty::spec_is_directed()
    }

    /// Node `i` exists.
    pub open spec fn has_node(&self, i: int) -> bool {
        0 <= i < self.node_slots().len() && self.node_slots()[i] is Some
    }

    /// Edge `e` exists.
    pub open spec fn has_edge(&self, e: int) -> bool {
        0 <= e < self.edge_slots().len() && self.edge_slots()[e] is Some
    }

    /// Source of edge `e`.
    pub open spec fn src(&self, e: int) -> usize {
        self.edge_slots()[e].unwrap().0
    }

    /// Target of edge `e`.
    pub open spec fn tgt(&self, e: int) -> usize {
        self.edge_slots()[e].unwrap().1
    }

    /// Weight of edge `e`.
    pub open spec fn weight(&self, e: int) -> W {
        self.edge_slots()[e].unwrap().2
    }

    /// Attribute of node `i`.
    pub open spec fn attr(&self, i: int) -> A {
        self.node_slots()[i].unwrap()
    }

    /// Every edge joins two existing nodes.
    pub open spec fn edges_valid(&self) -> bool {
        forall|e: int| #[trigger] self.has_edge(e) ==> self.has_node(self.src(e) as int)
            && self.has_node(self.tgt(e) as int)
    }

    /// The cached node and edge counts agree with the slots.
    pub closed spec fn counts_match(&self) -> bool {
        &&& self.node_total == count_live(self.nodes@)
        &&& self.edge_total == count_live(self.edges@)
    }

    /// Well-formedness: what every operation keeps.
    pub open spec fn wf(&self) -> bool {
        &&& self.edges_valid()
        &&& self.counts_match()
        &&& self.edge_slots().len() <= usize::MAX / 2
    }

    /// Number of nodes.
    pub open spec fn spec_node_count(&self) -> nat {
        count_live(self.node_slots())
    }

    /// Number of edges.
    pub open spec fn spec_edge_count(&self) -> nat {
        count_live(self.edge_slots())
    }

    /// The neighbors of `n` in the order they are reported: targets of edges
    /// leaving `n`, most recent edge first, then (undirected graphs only)
    /// sources of edges entering `n` other than self-loops, most recent first.
    pub open spec fn neighbor_seq(&self, n: usize) -> Seq<usize> {
        if self.directed() {
            out_from(self.edge_slots(), n, 0)
        } else {
            out_from(self.edge_slots(), n, 0) + in_from(self.edge_slots(), n, 0)
        }
    }

    /// The neighbors of `n` ignoring edge direction.
    pub open spec fn weak_neighbor_seq(&self, n: usize) -> Seq<usize> {
        out_from(self.edge_slots(), n, 0) + in_from(self.edge_slots(), n, 0)
    }

    /// The adjacency relation followed by traversals: `v` is a neighbor of `u`.
    pub open spec fn adj(&self) -> spec_fn(usize, usize) -> bool {
        |u: usize, v: usize| self.neighbor_seq(u).contains(v)
    }

    /// Adjacency ignoring edge direction.
    pub open spec fn weak_adj(&self) -> spec_fn(usize, usize) -> bool {
        |u: usize, v: usize| self.weak_neighbor_seq(u).contains(v)
    }

    /// Adjacency followed along edges (`weak == false`) or ignoring direction.
    pub open spec fn rel(&self, weak: bool) -> spec_fn(usize, usize) -> bool {
        if weak { self.weak_adj() } else { self.adj() }
    }

    /// `b` can be reached from the existing node `a` by following neighbors.
    pub open spec fn reachable(&self, a: usize, b: usize) -> bool {
        self.has_node(a as int) && connects(self.adj(), a, b)
    }

    /// `a` and `b` are joined by a walk that ignores edge direction.
    pub open spec fn weakly_connected(&self, a: usize, b: usize) -> bool {
        self.has_node(a as int) && connects(self.weak_adj(), a, b)
    }

    /// Some edge leads from `u` to `v`.
    pub open spec fn has_edge_between(&self, u: usize, v: usize) -> bool {
        exists|e: int| edge_between(self.edge_slots(), e, u, v)
    }

    /// Number of edges leaving `n`.
    pub open spec fn spec_out_count(&self, n: usize) -> nat {
        out_from(self.edge_slots(), n, 0).len()
    }

    /// Number of edges entering `n`, self-loops included.
    pub open spec fn spec_in_count(&self, n: usize) -> nat {
        count_in(self.edge_slots(), n, 0)
    }

    /// The degree reported for `n`: in + out for directed graphs, the number of
    /// incident edges (a self-loop once) for undirected graphs.
    pub open spec fn spec_degree(&self, n: usize) -> nat {
        if self.directed() {
            self.spec_in_count(n) + self.spec_out_count(n)
        } else {
            self.neighbor_seq(n).len()
        }
    }

    /// Ids of the existing nodes in increasing order.
    pub open spec fn spec_node_ids(&self) -> Seq<usize> {
        live_indices(self.node_slots())
    }

    /// Ids of the existing edges in increasing order.
    pub open spec fn spec_edge_ids(&self) -> Seq<usize> {
        live_indices(self.edge_slots())
    }

    /// `other` has the same nodes and edges as `self`.
    pub open spec fn same_graph(&self, other: &Self) -> bool {
        self.node_slots() == other.node_slots() && self.edge_slots() == other.edge_slots()
    }
}

/// `count_in` is at most the number of slots it looks at.
pub proof fn lemma_count_in_bound<W>(edges: Seq<Option<(usize, usize, W)>>, n: usize, lo: int)
    requires
        0 <= lo <= edges.len(),
    ensures
        count_in(edges, n, lo) <= edges.len() - lo,
    decreases edges.len() - lo,
{
    if lo < edges.len() {
        lemma_count_in_bound(edges, n, lo + 1);
    }
}

/// `out_from` is at most as long as the number of slots it looks at.
pub proof fn lemma_out_from_bound<W>(edges: Seq<Option<(usize, usize, W)>>, n: usize, lo: int)
    requires
        0 <= lo <= edges.len(),
    ensures
        out_from(edges, n, lo).len() <= edges.len() - lo,
    decreases edges.len() - lo,
{
    if lo < edges.len() {
        lemma_out_from_bound(edges, n, lo + 1);
    }
}

/// Number of `true` entries.
pub open spec fn count_true(s: Seq<bool>) -> nat
    decreases s.len(),
{
    if s.len() == 0 {
        0
    } else {
        count_true(s.drop_last()) + if s.last() { 1nat } else { 0nat }
    }
}

/// `count_true` after setting one `false` entry to `true`.
pub proof fn lemma_count_true_set(s: Seq<bool>, i: int)
    requires
        0 <= i < s.len(),
        !s[i],
    ensures
        count_true(s.update(i, true)) == count_true(s) + 1,
    decreases s.len(),
{
    let t = s.update(i, true);
    if i == s.len() - 1 {
        assert(t.drop_last() =~= s.drop_last());
    } else {
        assert(t.drop_last() =~= s.drop_last().update(i, true));
        lemma_count_true_set(s.drop_last(), i);
    }
}

/// `count_true` is at most the length.
pub proof fn lemma_count_true_bound(s: Seq<bool>)
    ensures
        count_true(s) <= s.len(),
    decreases s.len(),
{
    if s.len() > 0 {
        lemma_count_true_bound(s.drop_last());
    }
}

/// `count_true` of an all-`false` sequence.
pub proof fn lemma_count_true_none(s: Seq<bool>)
    requires
        forall|i: int| 0 <= i < s.len() ==> !s[i],
    ensures
        count_true(s) == 0,
    decreases s.len(),
{
    if s.len() > 0 {
        lemma_count_true_none(s.drop_last());
    }
}

/// A marking of occupied slots counts at most the occupied slots, and counts
/// all of them exactly when it marks every occupied slot.
pub proof fn lemma_marked_count<T>(m: Seq<bool>, s: Seq<Option<T>>)
    requires
        m.len() == s.len(),
        forall|i: int| 0 <= i < m.len() && #[trigger] m[i] ==> s[i] is Some,
    ensures
        count_true(m) <= count_live(s),
        count_true(m) == count_live(s) ==> forall|i: int| 0 <= i < s.len() && #[trigger] s[i] is Some ==> m[i],
    decreases s.len(),
{
    if s.len() > 0 {
        let m2 = m.drop_last();
        let s2 = s.drop_last();
        assert forall|i: int| 0 <= i < m2.len() && #[trigger] m2[i] implies s2[i] is Some by {
            assert(m[i]);
        }
        lemma_marked_count(m2, s2);
        if count_true(m) == count_live(s) {
            assert forall|i: int| 0 <= i < s.len() && #[trigger] s[i] is Some implies m[i] by {
                if i < s.len() - 1 {
                    assert(s2[i] is Some);
                    assert(m2[i]);
                }
            }
        }
    }
}

/// Node ids of a sequence of `NodeId`s.
pub open spec fn ids(s: Seq<NodeId>) -> Seq<usize> {
    Seq::new(s.len(), |i: int| s[i].0)
}

impl<A, W, Ty: GraphConstructor> BaseGraph<A, W, Ty> {
    /// In a well-formed graph every neighbor of a node, in either direction, exists.
    pub proof fn lemma_neighbors_exist(&self, n: usize)
        requires
            self.wf(),
        ensures
            forall|x: usize| #[trigger] self.weak_neighbor_seq(n).contains(x) ==> self.has_node(x as int),
            forall|x: usize| #[trigger] self.neighbor_seq(n).contains(x) ==> self.has_node(x as int),
    {
        let es = self.edge_slots();
        assert forall|x: usize| #[trigger] self.weak_neighbor_seq(n).contains(x) implies self.has_node(x as int) by {
            let o = out_from(es, n, 0);
            let i = in_from(es, n, 0);
            lemma_out_from_contains(es, n, 0, x);
            lemma_in_from_contains(es, n, 0, x);
            let k = choose|k: int| 0 <= k < (o + i).len() && (o + i)[k] == x;
            if k < o.len() {
                assert(o.contains(x));
                let e = choose|e: int| 0 <= e && #[trigger] edge_between(es, e, n, x);
                assert(self.has_edge(e));
            } else {
                assert(i[k - o.len()] == x);
                assert(i.contains(x));
                let e = choose|e: int| 0 <= e && #[trigger] edge_between(es, e, x, n);
                assert(self.has_edge(e));
            }
        }
        assert forall|x: usize| #[trigger] self.neighbor_seq(n).contains(x) implies self.has_node(x as int) by {
            if !self.directed() {
                assert(self.neighbor_seq(n) == self.weak_neighbor_seq(n));
            } else {
                lemma_out_from_contains(es, n, 0, x);
                let e = choose|e: int| 0 <= e && #[trigger] edge_between(es, e, n, x);
                assert(self.has_edge(e));
            }
            assert(self.weak_neighbor_seq(n).contains(x) || self.directed());
        }
    }

    /// `v` is a neighbor of `u` exactly when an edge leads from `u` to `v`, or, in an
    /// undirected graph, from `v` to `u`.
    pub proof fn lemma_neighbor_iff_edge(&self, u: usize, v: usize)
        ensures
            self.neighbor_seq(u).contains(v) <==> (self.has_edge_between(u, v)
                || (!self.directed() && self.has_edge_between(v, u))),
            self.weak_neighbor_seq(u).contains(v) <==> (self.has_edge_between(u, v)
                || self.has_edge_between(v, u)),
    {
        let es = self.edge_slots();
        let o = out_from(es, u, 0);
        let i = in_from(es, u, 0);
        lemma_out_from_contains(es, u, 0, v);
        lemma_in_from_contains(es, u, 0, v);
        assert((o + i).contains(v) <==> o.contains(v) || i.contains(v)) by {
            if (o + i).contains(v) {
                let k = choose|k: int| 0 <= k < (o + i).len() && (o + i)[k] == v;
                if k >= o.len() {
                    assert(i[k - o.len()] == v);
                }
            }
            if o.contains(v) {
                let k = choose|k: int| 0 <= k < o.len() && o[k] == v;
                assert((o + i)[k] == v);
            }
            if i.contains(v) {
                let k = choose|k: int| 0 <= k < i.len() && i[k] == v;
                assert((o + i)[k + o.len()] == v);
            }
        }
        if self.has_edge_between(v, u) && v == u {
            assert(self.has_edge_between(u, v));
        }
    }

    /// Creates an empty graph.
    pub fn new() -> (g: Self)
        ensures
            g.wf(),
            g.node_slots() == Seq::<Option<A>>::empty(),
            g.edge_slots() == Seq::<Option<(usize, usize, W)>>::empty(),
    {
        BaseGraph { nodes: Vec::new(), edges: Vec::new(), node_total: 0, edge_total: 0, kind: PhantomData }
    }

    /// Creates an empty graph with room reserved for `nodes` nodes and `edges` edges.
    pub fn with_capacity(nodes: usize, edges: usize) -> (g: Self)
        ensures
            g.wf(),
            g.node_slots() == Seq::<Option<A>>::empty(),
            g.edge_slots() == Seq::<Option<(usize, usize, W)>>::empty(),
    {
        BaseGraph {
            nodes: Vec::with_capacity(nodes),
            edges: Vec::with_capacity(edges),
            node_total: 0,
            edge_total: 0,
            kind: PhantomData,
        }
    }

    /// Returns a builder for constructing a graph with a fluent API.
    pub fn builder() -> (b: GraphBuilder<A, W, Ty>)
        ensures
            b.spec_nodes().len() == 0,
            b.spec_edges().len() == 0,
    {
        GraphBuilder::new()
    }

    /// Returns true if the graph is directed.
    pub fn is_directed(&self) -> (b: bool)
        ensures
            b == self.directed(),
    {
        Ty::is_directed()
    }

    /// Returns the number of nodes in the graph.
    pub fn node_count(&self) -> (n: usize)
        requires
            self.wf(),
        ensures
            n == self.spec_node_count(),
    {
        self.node_total
    }

    /// Returns the number of edges in the graph.
    pub fn edge_count(&self) -> (n: usize)
        requires
            self.wf(),
        ensures
            n == self.spec_edge_count(),
    {
        self.edge_total
    }

    /// Returns true if the graph contains no nodes.
    pub fn is_empty(&self) -> (b: bool)
        requires
            self.wf(),
        ensures
            b == (self.spec_node_count() == 0),
    {
        self.node_total == 0
    }

    /// Returns true if the node exists in the graph.
    pub fn contains_node(&self, node: NodeId) -> (b: bool)
        ensures
            b == self.has_node(node.0 as int),
    {
        node.0 < self.nodes.len() && self.nodes[node.0].is_some()
    }

    /// Returns the attribute of a node, if the node exists.
    pub fn node_attr(&self, node: NodeId) -> (a: Option<&A>)
        ensures
            a is Some <==> self.has_node(node.0 as int),
            a is Some ==> *a.unwrap() == self.attr(node.0 as int),
    {
        if node.0 < self.nodes.len() {
            self.nodes[node.0].as_ref()
        } else {
            None
        }
    }

    /// Returns the weight of an edge, if the edge exists.
    pub fn edge_weight(&self, edge: EdgeId) -> (w: Option<&W>)
        ensures
            w is Some <==> self.has_edge(edge.0 as int),
            w is Some ==> *w.unwrap() == self.weight(edge.0 as int),
    {
        if edge.0 < self.edges.len() {
            match &self.edges[edge.0] {
                Some(e) => Some(&e.2),
                None => None,
            }
        } else {
            None
        }
    }
    /// The attribute of `node`, to change in place; `None` if the node does
    /// not exist. Whatever is written through it becomes the node's
    /// attribute; the graph stays well formed (`lemma_attr_edit_wf`).
    pub fn node_attr_mut(&mut self, node: NodeId) -> (r: Option<&mut A>)
        requires
            old(self).wf(),
        ensures
            final(self).counts_match(),
            final(self).edge_slots() == old(self).edge_slots(),
            r is Some <==> old(self).has_node(node.0 as int),
            r is Some ==> *r.unwrap() == old(self).attr(node.0 as int)
                && final(self).node_slots() == old(self).node_slots().update(node.0 as int, Some(*final(r.unwrap()))),
            r is None ==> final(self).node_slots() == old(self).node_slots(),
    {
        if node.0 < self.nodes.len() {
            proof {
                assert forall|o: Option<A>| o is Some && self.nodes@[node.0 as int] is Some implies
                    #[trigger] count_live(self.nodes@.update(node.0 as int, o)) == count_live(self.nodes@) by {
                    lemma_count_update(self.nodes@, node.0 as int, o);
                }
                assert forall|o: Option<A>, k: int| o is Some && 0 <= k < self.nodes@.len() && self.nodes@[k] is Some
                    implies (#[trigger] self.nodes@.update(node.0 as int, o)[k]) is Some by {}
                if self.nodes@[node.0 as int] is None {
                    assert(self.nodes@.update(node.0 as int, None) =~= self.nodes@);
                }
            }
            self.nodes[node.0].as_mut()
        } else {
            None
        }
    }

    /// The weight of `edge`, to change in place; `None` if the edge does not
    /// exist. Whatever is written through it becomes the edge's weight; the
    /// graph stays well formed (`lemma_attr_edit_wf`).
    pub fn edge_weight_mut(&mut self, edge: EdgeId) -> (r: Option<&mut W>)
        requires
            old(self).wf(),
        ensures
            final(self).counts_match(),
            final(self).node_slots() == old(self).node_slots(),
            r is Some <==> old(self).has_edge(edge.0 as int),
            r is Some ==> *r.unwrap() == old(self).weight(edge.0 as int)
                && final(self).edge_slots() == old(self).edge_slots().update(edge.0 as int,
                    Some((old(self).src(edge.0 as int), old(self).tgt(edge.0 as int), *final(r.unwrap())))),
            r is None ==> final(self).edge_slots() == old(self).edge_slots(),
    {
        if edge.0 < self.edges.len() {
            proof {
                assert forall|o: Option<(usize, usize, W)>| o is Some && self.edges@[edge.0 as int] is Some implies
                    #[trigger] count_live(self.edges@.update(edge.0 as int, o)) == count_live(self.edges@) by {
                    lemma_count_update(self.edges@, edge.0 as int, o);
                }
                if self.edges@[edge.0 as int] is None {
                    assert(self.edges@.update(edge.0 as int, None) =~= self.edges@);
                }
            }
            match self.edges[edge.0].as_mut() {
                Some(t) => Some(&mut t.2),
                None => None,
            }
        } else {
            None
        }
    }

    /// The weight of `edge` (the older name of `edge_weight`).
    pub fn edge_attr(&self, edge: EdgeId) -> (w: Option<&W>)
        ensures
            w is Some <==> self.has_edge(edge.0 as int),
            w is Some ==> *w.unwrap() == self.weight(edge.0 as int),
    {
        self.edge_weight(edge)
    }

    /// The weight of `edge`, to change in place (the older name of
    /// `edge_weight_mut`).
    pub fn edge_attr_mut(&mut self, edge: EdgeId) -> (r: Option<&mut W>)
        requires
            old(self).wf(),
        ensures
            final(self).counts_match(),
            final(self).node_slots() == old(self).node_slots(),
            r is Some <==> old(self).has_edge(edge.0 as int),
            r is Some ==> *r.unwrap() == old(self).weight(edge.0 as int)
                && final(self).edge_slots() == old(self).edge_slots().update(edge.0 as int,
                    Some((old(self).src(edge.0 as int), old(self).tgt(edge.0 as int), *final(r.unwrap())))),
            r is None ==> final(self).edge_slots() == old(self).edge_slots(),
    {
        self.edge_weight_mut(edge)
    }

    /// A graph whose counts match and whose existing nodes and edges are
    /// those of a well-formed graph, attributes and weights aside, is well
    /// formed.
    pub proof fn lemma_attr_edit_wf(g0: Self, g1: Self)
        requires
            g0.wf(),
            g1.counts_match(),
            g1.node_slots().len() == g0.node_slots().len(),
            forall|k: int| 0 <= k < g0.node_slots().len() ==> (#[trigger] g1.node_slots()[k] is Some
                <==> g0.node_slots()[k] is Some),
            g1.edge_slots().len() == g0.edge_slots().len(),
            forall|e: int| 0 <= e < g0.edge_slots().len() ==> (#[trigger] g1.edge_slots()[e] is Some
                <==> g0.edge_slots()[e] is Some) && (g1.edge_slots()[e] is Some
                ==> g1.edge_slots()[e].unwrap().0 == g0.edge_slots()[e].unwrap().0
                && g1.edge_slots()[e].unwrap().1 == g0.edge_slots()[e].unwrap().1),
        ensures
            g1.wf(),
    {
        assert forall|e: int| #[trigger] g1.has_edge(e) implies g1.has_node(g1.src(e) as int)
            && g1.has_node(g1.tgt(e) as int) by {
            assert(g0.has_edge(e));
            assert(g1.node_slots()[g0.src(e) as int] is Some);
            assert(g1.node_slots()[g0.tgt(e) as int] is Some);
        }
    }

    /// Returns the endpoints of an edge, if the edge exists.
    pub fn edge_endpoints(&self, edge: EdgeId) -> (r: Option<(NodeId, NodeId)>)
        ensures
            r is Some <==> self.has_edge(edge.0 as int),
            r is Some ==> r.unwrap().0.0 == self.src(edge.0 as int) && r.unwrap().1.0 == self.tgt(edge.0 as int),
    {
        if edge.0 < self.edges.len() {
            match &self.edges[edge.0] {
                Some(e) => Some((NodeId(e.0), NodeId(e.1))),
                None => None,
            }
        } else {
            None
        }
    }

    /// Adds a node with the given attribute and returns its id.
    pub fn add_node(&mut self, attr: A) -> (id: NodeId)
        requires
            old(self).wf(),
        ensures
            final(self).wf(),
            id.0 == old(self).node_slots().len(),
            final(self).node_slots() == old(self).node_slots().push(Some(attr)),
            final(self).edge_slots() == old(self).edge_slots(),
    {
        let id = self.nodes.len();
        proof {
            lemma_count_push(self.nodes@, Some(attr));
        }
        self.nodes.push(Some(attr));
        let l = self.nodes.len();
        proof {
            lemma_count_bound(self.nodes@);
        }
        self.node_total = self.node_total + 1;
        proof {
            assert forall|e: int| #[trigger] self.has_edge(e) implies self.has_node(self.src(e) as int)
                && self.has_node(self.tgt(e) as int) by {
                assert(old(self).has_edge(e));
            }
        }
        NodeId(id)
    }

    /// Replaces the attribute of an existing node; returns false if the node does not exist.
    pub fn update_node(&mut self, node: NodeId, new_attr: A) -> (ok: bool)
        requires
            old(self).wf(),
        ensures
            final(self).wf(),
            ok == old(self).has_node(node.0 as int),
            ok ==> final(self).node_slots() == old(self).node_slots().update(node.0 as int, Some(new_attr)),
            !ok ==> final(self).node_slots() == old(self).node_slots(),
            final(self).edge_slots() == old(self).edge_slots(),
    {
        if node.0 < self.nodes.len() && self.nodes[node.0].is_some() {
            proof {
                lemma_count_update(self.nodes@, node.0 as int, Some(new_attr));
            }
            self.nodes.set(node.0, Some(new_attr));
            proof {
                assert forall|e: int| #[trigger] self.has_edge(e) implies self.has_node(self.src(e) as int)
                    && self.has_node(self.tgt(e) as int) by {
                    assert(old(self).has_edge(e));
                }
            }
            true
        } else {
            false
        }
    }

    /// Replaces the attribute of an existing node, or reports that it does not exist.
    pub fn try_update_node(&mut self, node: NodeId, new_attr: A) -> (r: Result<(), NodeNotFound>)
        requires
            old(self).wf(),
        ensures
            final(self).wf(),
            r is Ok <==> old(self).has_node(node.0 as int),
            r is Ok ==> final(self).node_slots() == old(self).node_slots().update(node.0 as int, Some(new_attr)),
            r is Err ==> final(self).node_slots() == old(self).node_slots()
                && r->Err_0.message@ == "Node not found during update"@,
            final(self).edge_slots() == old(self).edge_slots(),
    {
        if self.update_node(node, new_attr) {
            Ok(())
        } else {
            Err(NodeNotFound::new("Node not found during update"))
        }
    }

    /// Adds an edge from `source` to `target` with the given weight and returns its id.
    pub fn add_edge(&mut self, source: NodeId, target: NodeId, weight: W) -> (id: EdgeId)
        requires
            old(self).wf(),
            old(self).has_node(source.0 as int),
            old(self).has_node(target.0 as int),
            old(self).edge_slots().len() < usize::MAX / 2,
        ensures
            final(self).wf(),
            id.0 == old(self).edge_slots().len(),
            final(self).edge_slots() == old(self).edge_slots().push(Some((source.0, target.0, weight))),
            final(self).node_slots() == old(self).node_slots(),
    {
        let id = self.edges.len();
        proof {
            lemma_count_push(self.edges@, Some((source.0, target.0, weight)));
        }
        self.edges.push(Some((source.0, target.0, weight)));
        let l = self.edges.len();
        proof {
            lemma_count_bound(self.edges@);
        }
        self.edge_total = self.edge_total + 1;
        proof {
            assert forall|e: int| #[trigger] self.has_edge(e) implies self.has_node(self.src(e) as int)
                && self.has_node(self.tgt(e) as int) by {
                if e < id {
                    assert(old(self).has_edge(e));
                }
            }
        }
        EdgeId(id)
    }

    /// Removes an edge, returning its weight if it existed.
    pub fn remove_edge(&mut self, edge: EdgeId) -> (w: Option<W>)
        requires
            old(self).wf(),
        ensures
            final(self).wf(),
            w is Some <==> old(self).has_edge(edge.0 as int),
            w is Some ==> w.unwrap() == old(self).weight(edge.0 as int)
                && final(self).edge_slots() == old(self).edge_slots().update(edge.0 as int, None),
            w is None ==> final(self).edge_slots() == old(self).edge_slots(),
            final(self).node_slots() == old(self).node_slots(),
    {
        if edge.0 < self.edges.len() && self.edges[edge.0].is_some() {
            let mut slot: Option<(usize, usize, W)> = None;
            proof {
                lemma_count_update(self.edges@, edge.0 as int, None);
            }
            self.edges.set_and_swap(edge.0, &mut slot);
            self.edge_total = self.edge_total - 1;
            proof {
                assert forall|e: int| #[trigger] self.has_edge(e) implies self.has_node(self.src(e) as int)
                    && self.has_node(self.tgt(e) as int) by {
                    assert(old(self).has_edge(e));
                }
            }
            match slot {
                Some(e) => Some(e.2),
                None => None,
            }
        } else {
            None
        }
    }

    /// Removes an edge, returning its weight, or reports that it does not exist.
    pub fn try_remove_edge(&mut self, edge: EdgeId) -> (r: Result<W, GraphinaException>)
        requires
            old(self).wf(),
        ensures
            final(self).wf(),
            r is Ok <==> old(self).has_edge(edge.0 as int),
            r is Ok ==> r->Ok_0 == old(self).weight(edge.0 as int)
                && final(self).edge_slots() == old(self).edge_slots().update(edge.0 as int, None),
            r is Err ==> final(self).edge_slots() == old(self).edge_slots()
                && r->Err_0.message@ == "Edge not found during removal"@,
            final(self).node_slots() == old(self).node_slots(),
    {
        match self.remove_edge(edge) {
            Some(w) => Ok(w),
            None => Err(GraphinaException::new("Edge not found during removal")),
        }
    }

    /// Removes a node and every edge incident to it, returning its attribute if it existed.
    pub fn remove_node(&mut self, node: NodeId) -> (a: Option<A>)
        requires
            old(self).wf(),
        ensures
            final(self).wf(),
            a is Some <==> old(self).has_node(node.0 as int),
            a is Some ==> a.unwrap() == old(self).attr(node.0 as int)
                && final(self).node_slots() == old(self).node_slots().update(node.0 as int, None)
                && final(self).edge_slots().len() == old(self).edge_slots().len()
                && forall|e: int| 0 <= e < old(self).edge_slots().len() ==>
                    #[trigger] final(self).edge_slots()[e] == (if old(self).has_edge(e)
                        && (old(self).src(e) == node.0 || old(self).tgt(e) == node.0) {
                        None
                    } else {
                        old(self).edge_slots()[e]
                    }),
            a is None ==> final(self).same_graph(old(self)),
    {
        if !(node.0 < self.nodes.len() && self.nodes[node.0].is_some()) {
            return None;
        }
        let n = node.0;
        let len = self.edges.len();
        let mut k: usize = 0;
        while k < len
            invariant
                0 <= k <= len,
                len == self.edges@.len(),
                len == old(self).edges@.len(),
                self.nodes@ == old(self).nodes@,
                self.node_total == old(self).node_total,
                self.edge_total == count_live(self.edges@),
                n < self.nodes@.len(),
                self.nodes@[n as int] is Some,
                forall|e: int| 0 <= e < k ==> #[trigger] self.edges@[e] == (if old(self).has_edge(e)
                    && (old(self).src(e) == n || old(self).tgt(e) == n) {
                    None
                } else {
                    old(self).edges@[e]
                }),
                forall|e: int| k <= e < len ==> #[trigger] self.edges@[e] == old(self).edges@[e],
                old(self).wf(),
            decreases len - k,
        {
            let incident = match &self.edges[k] {
                Some(e) => e.0 == n || e.1 == n,
                None => false,
            };
            if incident {
                let mut slot: Option<(usize, usize, W)> = None;
                proof {
                    lemma_count_update(self.edges@, k as int, None);
                }
                self.edges.set_and_swap(k, &mut slot);
                self.edge_total = self.edge_total - 1;
            }
            k = k + 1;
        }
        let mut slot: Option<A> = None;
        proof {
            lemma_count_update(self.nodes@, n as int, None);
        }
        self.nodes.set_and_swap(n, &mut slot);
        self.node_total = self.node_total - 1;
        proof {
            assert forall|e: int| #[trigger] self.has_edge(e) implies self.has_node(self.src(e) as int)
                && self.has_node(self.tgt(e) as int) by {
                assert(old(self).has_edge(e));
                assert(old(self).has_node(old(self).src(e) as int));
                assert(old(self).has_node(old(self).tgt(e) as int));
            }
        }
        slot
    }

    /// Removes a node and its incident edges, returning its attribute, or reports
    /// that it does not exist.
    pub fn try_remove_node(&mut self, node: NodeId) -> (r: Result<A, NodeNotFound>)
        requires
            old(self).wf(),
        ensures
            final(self).wf(),
            r is Ok <==> old(self).has_node(node.0 as int),
            r is Ok ==> r->Ok_0 == old(self).attr(node.0 as int)
                && final(self).node_slots() == old(self).node_slots().update(node.0 as int, None)
                && final(self).edge_slots().len() == old(self).edge_slots().len()
                && forall|e: int| 0 <= e < old(self).edge_slots().len() ==>
                    #[trigger] final(self).edge_slots()[e] == (if old(self).has_edge(e)
                        && (old(self).src(e) == node.0 || old(self).tgt(e) == node.0) {
                        None
                    } else {
                        old(self).edge_slots()[e]
                    }),
            r is Err ==> final(self).same_graph(old(self))
                && r->Err_0.message@ == "Node not found during removal"@,
    {
        match self.remove_node(node) {
            Some(a) => Ok(a),
            None => Err(NodeNotFound::new("Node not found during removal")),
        }
    }

    /// Removes every node and edge. Ids are counted from zero again afterwards.
    pub fn clear(&mut self)
        ensures
            final(self).wf(),
            final(self).node_slots() == Seq::<Option<A>>::empty(),
            final(self).edge_slots() == Seq::<Option<(usize, usize, W)>>::empty(),
    {
        self.nodes = Vec::new();
        self.edges = Vec::new();
        self.node_total = 0;
        self.edge_total = 0;
    }

    /// The neighbor indices of `n`, as `neighbor_seq` lists them.
    pub fn neighbor_indices(&self, n: usize) -> (r: Vec<usize>)
        ensures
            r@ == self.neighbor_seq(n),
    {
        let mut r = self.out_indices(n);
        if !Ty::is_directed() {
            self.append_in_indices(n, &mut r);
        }
        r
    }

    /// The neighbor indices of `n` ignoring direction, as `weak_neighbor_seq` lists them.
    pub fn weak_neighbor_indices(&self, n: usize) -> (r: Vec<usize>)
        ensures
            r@ == self.weak_neighbor_seq(n),
    {
        let mut r = self.out_indices(n);
        self.append_in_indices(n, &mut r);
        r
    }

    fn out_indices(&self, n: usize) -> (r: Vec<usize>)
        ensures
            r@ == out_from(self.edge_slots(), n, 0),
    {
        let mut r: Vec<usize> = Vec::new();
        let mut k = self.edges.len();
        while k > 0
            invariant
                k <= self.edges@.len(),
                r@ == out_from(self.edges@, n, k as int),
            decreases k,
        {
            k = k - 1;
            match &self.edges[k] {
                Some(e) => {
                    if e.0 == n {
                        r.push(e.1);
                    }
                },
                None => {},
            }
        }
        r
    }

    fn append_in_indices(&self, n: usize, r: &mut Vec<usize>)
        ensures
            final(r)@ == old(r)@ + in_from(self.edge_slots(), n, 0),
    {
        let ghost start = r@;
        let mut k = self.edges.len();
        while k > 0
            invariant
                k <= self.edges@.len(),
                r@ == start + in_from(self.edges@, n, k as int),
            decreases k,
        {
            k = k - 1;
            let ghost before = in_from(self.edges@, n, k as int + 1);
            match &self.edges[k] {
                Some(e) => {
                    if e.1 == n && e.0 != n {
                        r.push(e.0);
                        assert(start + before.push(e.0) =~= (start + before).push(e.0));
                    }
                },
                None => {},
            }
        }
    }

    /// Returns the neighbors of a node, as `neighbor_seq` lists them.
    pub fn neighbors(&self, node: NodeId) -> (r: Vec<NodeId>)
        ensures
            ids(r@) == self.neighbor_seq(node.0),
    {
        let raw = self.neighbor_indices(node.0);
        let mut r: Vec<NodeId> = Vec::new();
        let mut i: usize = 0;
        while i < raw.len()
            invariant
                i <= raw@.len(),
                r@.len() == i,
                forall|j: int| 0 <= j < i ==> #[trigger] r@[j].0 == raw@[j],
            decreases raw@.len() - i,
        {
            r.push(NodeId(raw[i]));
            i = i + 1;
        }
        assert(ids(r@) =~= raw@);
        r
    }

    /// Returns the number of edges leaving `node`; for undirected graphs, the
    /// number of incident edges. `None` if the node does not exist.
    pub fn out_degree(&self, node: NodeId) -> (d: Option<usize>)
        ensures
            d is Some <==> self.has_node(node.0 as int),
            d is Some ==> d.unwrap() == self.neighbor_seq(node.0).len(),
    {
        if !self.contains_node(node) {
            return None;
        }
        Some(self.neighbor_indices(node.0).len())
    }

    /// Returns the number of edges entering `node`; for undirected graphs, the degree.
    /// `None` if the node does not exist.
    pub fn in_degree(&self, node: NodeId) -> (d: Option<usize>)
        requires
            self.wf(),
        ensures
            d is Some <==> self.has_node(node.0 as int),
            d is Some ==> d.unwrap() == if self.directed() {
                self.spec_in_count(node.0)
            } else {
                self.spec_degree(node.0)
            },
    {
        if !self.contains_node(node) {
            return None;
        }
        if Ty::is_directed() {
            Some(self.count_in_edges(node.0))
        } else {
            self.degree(node)
        }
    }

    /// Returns the degree of `node`: in-degree plus out-degree for directed graphs,
    /// the number of incident edges for undirected graphs. `None` if the node does not exist.
    pub fn degree(&self, node: NodeId) -> (d: Option<usize>)
        requires
            self.wf(),
        ensures
            d is Some <==> self.has_node(node.0 as int),
            d is Some ==> d.unwrap() == self.spec_degree(node.0),
    {
        if !self.contains_node(node) {
            return None;
        }
        if Ty::is_directed() {
            let i = self.count_in_edges(node.0);
            let o = self.out_indices(node.0).len();
            proof {
                lemma_count_in_bound(self.edge_slots(), node.0, 0);
                lemma_out_from_bound(self.edge_slots(), node.0, 0);
            }
            Some(i + o)
        } else {
            Some(self.neighbor_indices(node.0).len())
        }
    }

    /// Finds the first edge (lowest id) leading from `source` to `target`.
    /// Direction matters even in undirected graphs: the edge must have been
    /// added as `(source, target)`.
    pub fn find_edge(&self, source: NodeId, target: NodeId) -> (r: Option<EdgeId>)
        ensures
            r is Some ==> edge_between(self.edge_slots(), r.unwrap().0 as int, source.0, target.0)
                && forall|e: int| 0 <= e < r.unwrap().0 ==> !edge_between(self.edge_slots(), e, source.0, target.0),
            r is None ==> forall|e: int| !edge_between(self.edge_slots(), e, source.0, target.0),
    {
        let mut k: usize = 0;
        while k < self.edges.len()
            invariant
                k <= self.edges@.len(),
                forall|e: int| 0 <= e < k ==> !edge_between(self.edges@, e, source.0, target.0),
            decreases self.edges@.len() - k,
        {
            match &self.edges[k] {
                Some(e) => {
                    if e.0 == source.0 && e.1 == target.0 {
                        return Some(EdgeId(k));
                    }
                },
                None => {},
            }
            k = k + 1;
        }
        None
    }

    /// Returns true if some edge leads from `source` to `target` (as added).
    pub fn contains_edge(&self, source: NodeId, target: NodeId) -> (b: bool)
        ensures
            b == self.has_edge_between(source.0, target.0),
    {
        let r = self.find_edge(source, target);
        proof {
            if r is Some {
                assert(edge_between(self.edge_slots(), r.unwrap().0 as int, source.0, target.0));
            }
        }
        r.is_some()
    }

    /// Ids of the existing nodes in increasing order.
    pub fn node_ids(&self) -> (r: Vec<NodeId>)
        ensures
            ids(r@) == self.spec_node_ids(),
    {
        let mut r: Vec<NodeId> = Vec::new();
        let mut i: usize = 0;
        while i < self.nodes.len()
            invariant
                i <= self.nodes@.len(),
                ids(r@) == live_indices(self.nodes@.take(i as int)),
            decreases self.nodes@.len() - i,
        {
            let ghost before = r@;
            assert(self.nodes@.take(i as int + 1).drop_last() =~= self.nodes@.take(i as int));
            if self.nodes[i].is_some() {
                r.push(NodeId(i));
                assert(ids(r@) =~= ids(before).push(i));
            }
            i = i + 1;
        }
        assert(self.nodes@.take(i as int) =~= self.nodes@);
        r
    }

    /// Ids of the existing edges in increasing order.
    pub fn edge_ids(&self) -> (r: Vec<EdgeId>)
        ensures
            r@.len() == self.spec_edge_ids().len(),
            forall|k: int| 0 <= k < r@.len() ==> #[trigger] r@[k].0 == self.spec_edge_ids()[k],
    {
        let mut r: Vec<EdgeId> = Vec::new();
        let mut i: usize = 0;
        while i < self.edges.len()
            invariant
                i <= self.edges@.len(),
                r@.len() == live_indices(self.edges@.take(i as int)).len(),
                forall|k: int| 0 <= k < r@.len() ==> #[trigger] r@[k].0 == live_indices(self.edges@.take(i as int))[k],
            decreases self.edges@.len() - i,
        {
            assert(self.edges@.take(i as int + 1).drop_last() =~= self.edges@.take(i as int));
            if self.edges[i].is_some() {
                r.push(EdgeId(i));
            }
            i = i + 1;
        }
        assert(self.edges@.take(i as int) =~= self.edges@);
        r
    }

    /// The existing nodes with their attributes, in increasing id order.
    pub fn nodes(&self) -> (r: Vec<(NodeId, &A)>)
        ensures
            r@.len() == self.spec_node_ids().len(),
            forall|k: int| 0 <= k < r@.len() ==> (#[trigger] r@[k]).0.0 == self.spec_node_ids()[k]
                && *r@[k].1 == self.attr(self.spec_node_ids()[k] as int),
    {
        let mut r: Vec<(NodeId, &A)> = Vec::new();
        let mut i: usize = 0;
        while i < self.nodes.len()
            invariant
                i <= self.nodes@.len(),
                r@.len() == live_indices(self.nodes@.take(i as int)).len(),
                forall|k: int| 0 <= k < r@.len() ==> (#[trigger] r@[k]).0.0 == live_indices(self.nodes@.take(i as int))[k]
                    && *r@[k].1 == self.nodes@[live_indices(self.nodes@.take(i as int))[k] as int].unwrap(),
            decreases self.nodes@.len() - i,
        {
            assert(self.nodes@.take(i as int + 1).drop_last() =~= self.nodes@.take(i as int));
            match &self.nodes[i] {
                Some(a) => {
                    r.push((NodeId(i), a));
                },
                None => {},
            }
            i = i + 1;
        }
        assert(self.nodes@.take(i as int) =~= self.nodes@);
        r
    }

    /// The existing edges as `(source, target, weight)`, in increasing id order.
    pub fn edges(&self) -> (r: Vec<(NodeId, NodeId, &W)>)
        ensures
            r@.len() == self.spec_edge_ids().len(),
            forall|k: int| 0 <= k < r@.len() ==> (#[trigger] r@[k]).0.0 == self.src(self.spec_edge_ids()[k] as int)
                && r@[k].1.0 == self.tgt(self.spec_edge_ids()[k] as int)
                && *r@[k].2 == self.weight(self.spec_edge_ids()[k] as int),
    {
        let mut r: Vec<(NodeId, NodeId, &W)> = Vec::new();
        let mut i: usize = 0;
        while i < self.edges.len()
            invariant
                i <= self.edges@.len(),
                r@.len() == live_indices(self.edges@.take(i as int)).len(),
                forall|k: int| 0 <= k < r@.len() ==> {
                    let e = self.edges@[live_indices(self.edges@.take(i as int))[k] as int].unwrap();
                    (#[trigger] r@[k]).0.0 == e.0 && r@[k].1.0 == e.1 && *r@[k].2 == e.2
                },
            decreases self.edges@.len() - i,
        {
            assert(self.edges@.take(i as int + 1).drop_last() =~= self.edges@.take(i as int));
            match &self.edges[i] {
                Some(e) => {
                    r.push((NodeId(e.0), NodeId(e.1), &e.2));
                },
                None => {},
            }
            i = i + 1;
        }
        assert(self.edges@.take(i as int) =~= self.edges@);
        r
    }

    /// One more than the largest id ever given to a node: every node id is below it.
    pub fn node_bound(&self) -> (n: usize)
        ensures
            n == self.node_slots().len(),
    {
        self.nodes.len()
    }

    /// One past the largest edge index ever handed out.
    pub fn edge_bound(&self) -> (n: usize)
        ensures
            n == self.edge_slots().len(),
    {
        self.edges.len()
    }

    /// A node that does not exist has no neighbors.
    pub proof fn lemma_missing_node_isolated(&self, n: usize)
        requires
            self.wf(),
            !self.has_node(n as int),
        ensures
            self.neighbor_seq(n).len() == 0,
            self.weak_neighbor_seq(n).len() == 0,
    {
        let es = self.edge_slots();
        if out_from(es, n, 0).len() > 0 {
            let x = out_from(es, n, 0)[0];
            lemma_out_from_contains(es, n, 0, x);
            assert(out_from(es, n, 0).contains(x));
            let e = choose|e: int| 0 <= e && #[trigger] edge_between(es, e, n, x);
            assert(self.has_edge(e));
        }
        if in_from(es, n, 0).len() > 0 {
            let x = in_from(es, n, 0)[0];
            lemma_in_from_contains(es, n, 0, x);
            assert(in_from(es, n, 0).contains(x));
            let e = choose|e: int| 0 <= e && #[trigger] edge_between(es, e, x, n);
            assert(self.has_edge(e));
        }
    }

    /// Nodes `x` with `n` among their neighbors: sources of edges into `n` for
    /// directed graphs (in edge order), the neighbors of `n` for undirected graphs.
    pub fn predecessor_indices(&self, n: usize) -> (r: Vec<usize>)
        requires
            self.wf(),
        ensures
            forall|x: usize| #[trigger] r@.contains(x) <==> self.neighbor_seq(x).contains(n),
    {
        if Ty::is_directed() {
            let mut r: Vec<usize> = Vec::new();
            let mut k: usize = 0;
            while k < self.edges.len()
                invariant
                    k <= self.edges@.len(),
                    self.directed(),
                    forall|x: usize| #[trigger] r@.contains(x) <==> exists|e: int| 0 <= e < k
                        && #[trigger] edge_between(self.edges@, e, x, n),
                decreases self.edges@.len() - k,
            {
                let ghost before = r@;
                match &self.edges[k] {
                    Some(e) => {
                        if e.1 == n {
                            r.push(e.0);
                        }
                    },
                    None => {},
                }
                proof {
                    assert forall|x: usize| #[trigger] r@.contains(x) <==> exists|e: int| 0 <= e < k + 1
                        && #[trigger] edge_between(self.edges@, e, x, n) by {
                        if r@.contains(x) {
                            let i = choose|i: int| 0 <= i < r@.len() && r@[i] == x;
                            if i < before.len() {
                                assert(before.contains(x));
                            } else {
                                assert(edge_between(self.edges@, k as int, x, n));
                            }
                        }
                        if exists|e: int| 0 <= e < k + 1 && #[trigger] edge_between(self.edges@, e, x, n) {
                            let e = choose|e: int| 0 <= e < k + 1 && #[trigger] edge_between(self.edges@, e, x, n);
                            if e < k {
                                assert(before.contains(x));
                                let i = choose|i: int| 0 <= i < before.len() && before[i] == x;
                                assert(r@[i] == x);
                            } else {
                                assert(r@.last() == x);
                            }
                        }
                    }
                }
                k = k + 1;
            }
            proof {
                assert forall|x: usize| #[trigger] r@.contains(x) <==> self.neighbor_seq(x).contains(n) by {
                    lemma_out_from_contains(self.edges@, x, 0, n);
                }
            }
            r
        } else {
            let r = self.neighbor_indices(n);
            proof {
                assert forall|x: usize| #[trigger] r@.contains(x) <==> self.neighbor_seq(x).contains(n) by {
                    self.lemma_neighbor_iff_edge(n, x);
                    self.lemma_neighbor_iff_edge(x, n);
                }
            }
            r
        }
    }

    /// Neighbor indices of `n` along edges (`weak == false`) or ignoring direction.
    pub fn step_indices(&self, n: usize, weak: bool) -> (r: Vec<usize>)
        ensures
            forall|x: usize| #[trigger] r@.contains(x) <==> self.rel(weak)(n, x),
            r@ == if weak { self.weak_neighbor_seq(n) } else { self.neighbor_seq(n) },
    {
        if weak {
            self.weak_neighbor_indices(n)
        } else {
            self.neighbor_indices(n)
        }
    }

    /// Ignoring direction, adjacency is symmetric.
    pub proof fn lemma_weak_adj_symmetric(&self)
        ensures
            forall|u: usize, v: usize| #[trigger] self.weak_adj()(u, v) ==> self.weak_adj()(v, u),
    {
        assert forall|u: usize, v: usize| #[trigger] self.weak_adj()(u, v) implies self.weak_adj()(v, u) by {
            self.lemma_neighbor_iff_edge(u, v);
            self.lemma_neighbor_iff_edge(v, u);
        }
    }

    /// The node slots fit in memory: there are at most `usize::MAX`.
    pub proof fn lemma_node_slots_bound(&self)
        ensures
            self.node_slots().len() <= usize::MAX,
    {
        vstd::std_specs::vec::axiom_spec_len(&self.nodes);
    }

    /// In an undirected graph adjacency is symmetric.
    pub proof fn lemma_adj_symmetric_undirected(&self)
        requires
            !self.directed(),
        ensures
            forall|u: usize, v: usize| #[trigger] self.adj()(u, v) ==> self.adj()(v, u),
    {
        assert forall|u: usize, v: usize| #[trigger] self.adj()(u, v) implies self.adj()(v, u) by {
            self.lemma_neighbor_iff_edge(u, v);
            self.lemma_neighbor_iff_edge(v, u);
        }
    }

    /// Every step along edges is also a step ignoring direction.
    pub proof fn lemma_adj_is_weak(&self)
        ensures
            forall|u: usize, v: usize| #[trigger] self.adj()(u, v) ==> self.weak_adj()(u, v),
    {
        assert forall|u: usize, v: usize| #[trigger] self.adj()(u, v) implies self.weak_adj()(u, v) by {
            self.lemma_neighbor_iff_edge(u, v);
        }
    }

    fn count_in_edges(&self, n: usize) -> (c: usize)
        requires
            self.wf(),
        ensures
            c == count_in(self.edge_slots(), n, 0),
    {
        let mut c: usize = 0;
        let mut k = self.edges.len();
        while k > 0
            invariant
                k <= self.edges@.len(),
                self.edges@.len() <= usize::MAX / 2,
                c == count_in(self.edges@, n, k as int),
            decreases k,
        {
            k = k - 1;
            proof {
                lemma_count_in_bound(self.edges@, n, k as int + 1);
            }
            match &self.edges[k] {
                Some(e) => {
                    if e.1 == n {
                        c = c + 1;
                    }
                },
                None => {},
            }
        }
        c
    }
}

/// Returns the elements of `v` in reverse order, so that popping them yields
/// the original order.
pub fn reversed<T>(v: Vec<T>) -> (r: Vec<T>)
    ensures
        r@ == v@.reverse(),
{
    let ghost orig = v@;
    let mut v = v;
    let mut r: Vec<T> = Vec::new();
    while v.len() > 0
        invariant
            v@ == orig.take(v@.len() as int),
            r@.len() + v@.len() == orig.len(),
            forall|i: int| 0 <= i < r@.len() ==> r@[i] == orig[orig.len() - 1 - i],
        decreases v@.len(),
    {
        let ghost before = v@;
        let x = v.pop().unwrap();
        r.push(x);
        assert(v@ =~= orig.take(v@.len() as int));
    }
    assert(r@ =~= orig.reverse());
    r
}

/// Builder for constructing graphs with a fluent API. Edges name nodes by
/// their position among the added nodes, counting from 1: `add_edge(1, 2, w)`
/// joins the first added node to the second.
pub struct GraphBuilder<A, W, Ty> {
    nodes: Vec<A>,
    edges: Vec<(usize, usize, W)>,
    kind: PhantomData<Ty>,
}

impl<A, W, Ty: GraphConstructor> GraphBuilder<A, W, Ty> {
    /// Attributes of the nodes added so far.
    pub closed spec fn spec_nodes(&self) -> Seq<A> {
        self.nodes@
    }

    /// Edges added so far, as `(source position, target position, weight)`,
    /// positions counted from 1.
    pub closed spec fn spec_edges(&self) -> Seq<(usize, usize, W)> {
        self.edges@
    }

    /// Creates an empty builder.
    pub fn new() -> (b: Self)
        ensures
            b.spec_nodes().len() == 0,
            b.spec_edges().len() == 0,
    {
        GraphBuilder { nodes: Vec::new(), edges: Vec::new(), kind: PhantomData }
    }

    /// Adds a node.
    pub fn add_node(self, attr: A) -> (b: Self)
        ensures
            b.spec_nodes() == self.spec_nodes().push(attr),
            b.spec_edges() == self.spec_edges(),
    {
        let mut s = self;
        s.nodes.push(attr);
        s
    }

    /// Adds an edge between the nodes at positions `source` and `target`
    /// (counted from 1).
    pub fn add_edge(self, source: usize, target: usize, weight: W) -> (b: Self)
        ensures
            b.spec_nodes() == self.spec_nodes(),
            b.spec_edges() == self.spec_edges().push((source, target, weight)),
    {
        let mut s = self;
        s.edges.push((source, target, weight));
        s
    }

    /// Consumes the builder and constructs the graph: the node added `i`-th
    /// (from 0) gets id `i`, and edge `k` is the `k`-th added edge, its
    /// endpoints shifted down by one.
    pub fn build(self) -> (g: BaseGraph<A, W, Ty>)
        requires
            forall|k: int| 0 <= k < self.spec_edges().len() ==>
                1 <= (#[trigger] self.spec_edges()[k]).0 <= self.spec_nodes().len()
                && 1 <= self.spec_edges()[k].1 <= self.spec_nodes().len(),
            self.spec_edges().len() < usize::MAX / 2,
        ensures
            g.wf(),
            g.node_slots() == self.spec_nodes().map_values(|a: A| Some(a)),
            g.edge_slots() == self.spec_edges().map_values(|e: (usize, usize, W)| Some(
                ((e.0 - 1) as usize, (e.1 - 1) as usize, e.2),
            )),
    {
        let ghost ns = self.nodes@;
        let ghost es = self.edges@;
        let mut graph: BaseGraph<A, W, Ty> = BaseGraph::with_capacity(self.nodes.len(), self.edges.len());
        let mut pending = reversed(self.nodes);
        while pending.len() > 0
            invariant
                graph.wf(),
                graph.edge_slots().len() == 0,
                graph.node_slots().len() + pending@.len() == ns.len(),
                forall|i: int| 0 <= i < pending@.len() ==> pending@[i] == ns[ns.len() - 1 - i],
                forall|i: int| 0 <= i < graph.node_slots().len() ==> #[trigger] graph.node_slots()[i] == Some(ns[i]),
            decreases pending@.len(),
        {
            let a = pending.pop().unwrap();
            graph.add_node(a);
        }
        assert(graph.node_slots() =~= ns.map_values(|a: A| Some(a)));
        let mut pending = reversed(self.edges);
        while pending.len() > 0
            invariant
                graph.wf(),
                graph.node_slots() == ns.map_values(|a: A| Some(a)),
                graph.edge_slots().len() + pending@.len() == es.len(),
                es.len() < usize::MAX / 2,
                forall|i: int| 0 <= i < pending@.len() ==> pending@[i] == es[es.len() - 1 - i],
                forall|i: int| 0 <= i < graph.edge_slots().len() ==> #[trigger] graph.edge_slots()[i] == Some(
                    ((es[i].0 - 1) as usize, (es[i].1 - 1) as usize, es[i].2),
                ),
                forall|k: int| 0 <= k < es.len() ==> 1 <= (#[trigger] es[k]).0 <= ns.len() && 1 <= es[k].1 <= ns.len(),
            decreases pending@.len(),
        {
            let e = pending.pop().unwrap();
            assert(e == es[graph.edge_slots().len() as int]);
            graph.add_edge(NodeId(e.0 - 1), NodeId(e.1 - 1), e.2);
        }
        assert(graph.edge_slots() =~= es.map_values(|e: (usize, usize, W)| Some(
            ((e.0 - 1) as usize, (e.1 - 1) as usize, e.2),
        )));
        graph
    }
}

} // verus!
