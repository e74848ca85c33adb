//! Subgraph extraction: induced subgraphs, ego networks, filtered copies,
//! k-hop neighbourhoods and connected components.

use vstd::prelude::*;
use crate::builders::ends;
use crate::exceptions::GraphinaException;
use crate::text::{decimal, usize_to_string};
use crate::types::{BaseGraph, GraphConstructor, NodeId, ids};
use crate::walks::{connects, is_walk_in};

verus! {

/// The last position of `u` in `ids`, or -1.
pub open spec fn last_pos(ids: Seq<usize>, u: usize) -> int
    decreases ids.len(),
{
    if ids.len() == 0 {
        -1
    } else if ids.last() == u {
        ids.len() - 1
    } else {
        last_pos(ids.drop_last(), u)
    }
}

/// The edges among the nodes `ids`, in edge order, with each endpoint renamed
/// to its last position in `ids`.
pub open spec fn sub_edges<W>(edges: Seq<Option<(usize, usize, W)>>, ids: Seq<usize>) -> Seq<(usize, usize, W)>
    decreases edges.len(),
{
    if edges.len() == 0 {
        Seq::empty()
    } else {
        let rest = sub_edges(edges.drop_last(), ids);
        match edges.last() {
            Some(e) => if ids.contains(e.0) && ids.contains(e.1) {
                rest.push((last_pos(ids, e.0) as usize, last_pos(ids, e.1) as usize, e.2))
            } else {
                rest
            },
            None => rest,
        }
    }
}

/// `edges` with the slots not marked in `keep` emptied.
pub open spec fn masked<W>(edges: Seq<Option<(usize, usize, W)>>, keep: Seq<bool>) -> Seq<Option<(usize, usize, W)>> {
    Seq::new(edges.len(), |e: int| if keep[e] { edges[e] } else { None })
}

/// `s` copies the nodes `ids` of a graph with node slots `nodes` and edge
/// slots `edges`: node `k` of `s` holds a clone of the attribute of node
/// `ids[k]`, and the edges of `s` are `sub_edges(edges, ids)`, weights cloned.
pub open spec fn copies_on<A: Clone, W: Clone, Ty: GraphConstructor>(
    nodes: Seq<Option<A>>,
    edges: Seq<Option<(usize, usize, W)>>,
    ids: Seq<usize>,
    s: BaseGraph<A, W, Ty>,
) -> bool {
    let es = sub_edges(edges, ids);
    &&& s.wf()
    &&& s.node_slots().len() == ids.len()
    &&& forall|k: int| 0 <= k < ids.len() ==> (#[trigger] s.node_slots()[k]) is Some
        && cloned(nodes[ids[k] as int].unwrap(), s.node_slots()[k].unwrap())
    &&& s.edge_slots().len() == es.len()
    &&& forall|k: int| 0 <= k < es.len() ==> (#[trigger] s.edge_slots()[k]) is Some
        && ends(s.edge_slots()[k]) == (es[k].0, es[k].1) && cloned(es[k].2, s.edge_slots()[k].unwrap().2)
}

/// `s` is the subgraph of `g` on the nodes `ids`: node `k` of `s` holds a
/// clone of the attribute of node `ids[k]`, and the edges of `s` are the
/// edges of `g` among those nodes (`sub_edges`), weights cloned.
pub open spec fn is_subgraph_on<A: Clone, W: Clone, Ty: GraphConstructor>(
    g: BaseGraph<A, W, Ty>,
    ids: Seq<usize>,
    s: BaseGraph<A, W, Ty>,
) -> bool {
    copies_on(g.node_slots(), g.edge_slots(), ids, s)
}

/// The message for a node of a subgraph request that is not in the graph.
pub open spec fn missing_node_message(index: usize) -> Seq<char> {
    "Node "@ + decimal(index as nat) + " not found in graph"@
}

/// A vector of `n` `true`s.
pub(crate) fn all_true(n: usize) -> (v: Vec<bool>)
    ensures
        v@.len() == n,
        forall|i: int| 0 <= i < n ==> #[trigger] v@[i],
{
    let mut v: Vec<bool> = Vec::new();
    while v.len() < n
        invariant
            v@.len() <= n,
            forall|i: int| 0 <= i < v@.len() ==> #[trigger] v@[i],
        decreases n - v@.len(),
    {
        v.push(true);
    }
    v
}

/// `sub_edges` grows by at most one edge per slot.
proof fn lemma_sub_edges_len<W>(edges: Seq<Option<(usize, usize, W)>>, ids: Seq<usize>)
    ensures
        sub_edges(edges, ids).len() <= edges.len(),
    decreases edges.len(),
{
    if edges.len() > 0 {
        lemma_sub_edges_len(edges.drop_last(), ids);
    }
}

/// `last_pos` names a position holding `u` exactly when `u` occurs.
proof fn lemma_last_pos(ids: Seq<usize>, u: usize)
    ensures
        ids.contains(u) ==> 0 <= last_pos(ids, u) < ids.len() && ids[last_pos(ids, u)] == u,
        !ids.contains(u) ==> last_pos(ids, u) == -1,
    decreases ids.len(),
{
    if ids.len() > 0 {
        lemma_last_pos(ids.drop_last(), u);
        if ids.last() != u && ids.contains(u) {
            let p = choose|p: int| 0 <= p < ids.len() && ids[p] == u;
            assert(ids.drop_last()[p] == u);
        }
        if !ids.contains(u) {
            assert(!ids.drop_last().contains(u)) by {
                if ids.drop_last().contains(u) {
                    let p = choose|p: int| 0 <= p < ids.drop_last().len() && ids.drop_last()[p] == u;
                    assert(ids[p] == u);
                }
            }
        }
    }
}

impl<A: Clone, W: Clone, Ty: GraphConstructor> BaseGraph<A, W, Ty> {
    /// Extracts the subgraph on the given nodes: a new graph with one node per
    /// entry of `nodes` (a clone of its attribute, in the given order) and a
    /// copy of every edge whose endpoints are both listed. A node listed twice
    /// is copied twice, and edges attach to its last copy. Fails on the first
    /// listed node that is not in the graph.
    pub fn subgraph(&self, nodes: &[NodeId]) -> (r: Result<Self, GraphinaException>)
        requires
            self.wf(),
        ensures
            r is Err <==> exists|k: int| 0 <= k < nodes@.len() && !self.has_node(nodes@[k].0 as int),
            r is Err ==> exists|k: int| 0 <= k < nodes@.len() && !self.has_node(nodes@[k].0 as int)
                && (forall|j: int| 0 <= j < k ==> self.has_node(nodes@[j].0 as int))
                && r->Err_0.message@ == missing_node_message(nodes@[k].0),
            r is Ok ==> is_subgraph_on(*self, ids(nodes@), r->Ok_0),
    {
        let mut k: usize = 0;
        while k < nodes.len()
            invariant
                k <= nodes@.len(),
                forall|j: int| 0 <= j < k ==> self.has_node(nodes@[j].0 as int),
            decreases nodes@.len() - k,
        {
            if !self.contains_node(nodes[k]) {
                let idx = nodes[k].index();
                let s = String::from_str("Node ");
                let s = s.concat(usize_to_string(idx).as_str());
                let s = s.concat(" not found in graph");
                return Err(GraphinaException { message: s });
            }
            k = k + 1;
        }
        let keep = all_true(self.edge_bound());
        let s = self.copy_nodes(nodes, &keep);
        proof {
            assert(masked(self.edge_slots(), keep@) =~= self.edge_slots());
        }
        Ok(s)
    }

    /// Copies the nodes `nodes`, all of which are in the graph, with the edges
    /// among them that `keep` marks.
    fn copy_nodes(&self, nodes: &[NodeId], keep: &Vec<bool>) -> (s: Self)
        requires
            self.wf(),
            keep@.len() == self.edge_slots().len(),
            forall|k: int| 0 <= k < nodes@.len() ==> self.has_node(#[trigger] nodes@[k].0 as int),
        ensures
            copies_on(self.node_slots(), masked(self.edge_slots(), keep@), ids(nodes@), s),
    {
        let ghost idv = ids(nodes@);
        let ghost es = sub_edges(masked(self.edge_slots(), keep@), idv);
        let mut result: Self = Self::with_capacity(nodes.len(), self.edge_count());
        let attrs = self.cloned_attrs(nodes);
        let mut pending = crate::types::reversed(attrs);
        let ghost all = pending@.reverse();
        while pending.len() > 0
            invariant
                result.wf(),
                result.edge_slots().len() == 0,
                all.len() == idv.len(),
                forall|j: int| 0 <= j < idv.len() ==> cloned(self.node_slots()[idv[j] as int].unwrap(), #[trigger] all[j]),
                result.node_slots().len() + pending@.len() == all.len(),
                forall|i: int| 0 <= i < pending@.len() ==> pending@[i] == all[all.len() - 1 - i],
                forall|j: int| 0 <= j < result.node_slots().len() ==> #[trigger] result.node_slots()[j] == Some(all[j]),
            decreases pending@.len(),
        {
            let a = pending.pop().unwrap();
            result.add_node(a);
        }
        let map = self.position_map(nodes);
        let list = self.mapped_edges(&map, keep, Ghost(idv));
        proof {
            lemma_sub_edges_len(masked(self.edge_slots(), keep@), idv);
        }
        let mut pending = crate::types::reversed(list);
        let ghost elist = pending@.reverse();
        while pending.len() > 0
            invariant
                result.wf(),
                result.node_slots().len() == idv.len(),
                forall|j: int| 0 <= j < idv.len() ==> (#[trigger] result.node_slots()[j]) is Some
                    && cloned(self.node_slots()[idv[j] as int].unwrap(), result.node_slots()[j].unwrap()),
                elist.len() == es.len(),
                es.len() <= self.edge_slots().len(),
                self.wf(),
                forall|j: int| 0 <= j < es.len() ==> (#[trigger] elist[j]).0 == es[j].0 && elist[j].1 == es[j].1
                    && cloned(es[j].2, elist[j].2) && elist[j].0 < idv.len() && elist[j].1 < idv.len(),
                result.edge_slots().len() + pending@.len() == elist.len(),
                forall|i: int| 0 <= i < pending@.len() ==> pending@[i] == elist[elist.len() - 1 - i],
                forall|j: int| 0 <= j < result.edge_slots().len() ==> #[trigger] result.edge_slots()[j] == Some(elist[j]),
            decreases pending@.len(),
        {
            let e = pending.pop().unwrap();
            let ghost j = result.edge_slots().len() as int;
            assert(e == elist[j]);
            proof {
                assert(result.node_slots()[e.0 as int] is Some);
                assert(result.node_slots()[e.1 as int] is Some);
            }
            result.add_edge(NodeId(e.0), NodeId(e.1), e.2);
        }
        result
    }

    /// Clones of the attributes of `nodes`, all of which are in the graph.
    pub(crate) fn cloned_attrs(&self, nodes: &[NodeId]) -> (r: Vec<A>)
        requires
            forall|k: int| 0 <= k < nodes@.len() ==> self.has_node(#[trigger] nodes@[k].0 as int),
        ensures
            r@.len() == nodes@.len(),
            forall|j: int| 0 <= j < nodes@.len() ==> cloned(self.node_slots()[nodes@[j].0 as int].unwrap(), #[trigger] r@[j]),
    {
        let mut r: Vec<A> = Vec::new();
        let mut k: usize = 0;
        while k < nodes.len()
            invariant
                k <= nodes@.len(),
                r@.len() == k,
                forall|j: int| 0 <= j < nodes@.len() ==> self.has_node(#[trigger] nodes@[j].0 as int),
                forall|j: int| 0 <= j < k ==> cloned(self.node_slots()[nodes@[j].0 as int].unwrap(), #[trigger] r@[j]),
            decreases nodes@.len() - k,
        {
            assert(self.has_node(nodes@[k as int].0 as int));
            let attr = self.node_attr(nodes[k]).unwrap();
            r.push(attr.clone());
            k = k + 1;
        }
        r
    }

    /// For each node index, its last position in `nodes` (all of which are in
    /// the graph), if it occurs there.
    pub(crate) fn position_map(&self, nodes: &[NodeId]) -> (map: Vec<Option<usize>>)
        requires
            forall|k: int| 0 <= k < nodes@.len() ==> self.has_node(#[trigger] nodes@[k].0 as int),
        ensures
            map@.len() == self.node_slots().len(),
            forall|y: usize| y < map@.len() ==> #[trigger] map@[y as int] == if ids(nodes@).contains(y) {
                Some(last_pos(ids(nodes@), y) as usize)
            } else {
                None::<usize>
            },
    {
        let ghost idv = ids(nodes@);
        let bound = self.node_bound();
        let mut map: Vec<Option<usize>> = Vec::new();
        let mut x: usize = 0;
        while x < bound
            invariant
                x <= bound,
                map@.len() == x,
                forall|y: int| 0 <= y < x ==> #[trigger] map@[y] is None,
            decreases bound - x,
        {
            map.push(None);
            x = x + 1;
        }
        let mut k: usize = 0;
        while k < nodes.len()
            invariant
                idv == ids(nodes@),
                bound == self.node_slots().len(),
                k <= nodes@.len(),
                forall|j: int| 0 <= j < nodes@.len() ==> self.has_node(#[trigger] nodes@[j].0 as int),
                map@.len() == bound,
                forall|y: usize| y < bound ==> #[trigger] map@[y as int] == if idv.take(k as int).contains(y) {
                    Some(last_pos(idv.take(k as int), y) as usize)
                } else {
                    None::<usize>
                },
            decreases nodes@.len() - k,
        {
            let node = nodes[k];
            assert(self.has_node(nodes@[k as int].0 as int));
            proof {
                let t0 = idv.take(k as int);
                let t1 = idv.take(k as int + 1);
                assert(t1.drop_last() =~= t0);
                assert(t1.last() == node.0);
                assert forall|y: usize| y < bound && y != node.0 implies (t1.contains(y) <==> t0.contains(y)) by {
                    if t1.contains(y) {
                        let p = choose|p: int| 0 <= p < t1.len() && t1[p] == y;
                        assert(t0[p] == y);
                    }
                    if t0.contains(y) {
                        let p = choose|p: int| 0 <= p < t0.len() && t0[p] == y;
                        assert(t1[p] == y);
                    }
                }
                assert(t1.contains(node.0)) by {
                    assert(t1[k as int] == node.0);
                }
            }
            map.set(node.0, Some(k));
            k = k + 1;
        }
        proof {
            assert(idv.take(nodes@.len() as int) =~= idv);
        }
        map
    }

    /// The edges marked by `keep` whose endpoints both have a position in
    /// `map`, in edge order, renamed by `map`, weights cloned.
    pub(crate) fn mapped_edges(&self, map: &Vec<Option<usize>>, keep: &Vec<bool>, Ghost(idv): Ghost<Seq<usize>>)
        -> (r: Vec<(usize, usize, W)>)
        requires
            self.wf(),
            keep@.len() == self.edge_slots().len(),
            map@.len() == self.node_slots().len(),
            forall|y: usize| y < map@.len() ==> #[trigger] map@[y as int] == if idv.contains(y) {
                Some(last_pos(idv, y) as usize)
            } else {
                None::<usize>
            },
        ensures
            r@.len() == sub_edges(masked(self.edge_slots(), keep@), idv).len(),
            forall|j: int| 0 <= j < r@.len() ==> (#[trigger] r@[j]).0 == sub_edges(masked(self.edge_slots(), keep@), idv)[j].0
                && r@[j].1 == sub_edges(masked(self.edge_slots(), keep@), idv)[j].1
                && cloned(sub_edges(masked(self.edge_slots(), keep@), idv)[j].2, r@[j].2)
                && r@[j].0 < idv.len() && r@[j].1 < idv.len(),
    {
        let ghost kept = masked(self.edge_slots(), keep@);
        let ebound = self.edge_bound();
        let mut r: Vec<(usize, usize, W)> = Vec::new();
        let mut e: usize = 0;
        while e < ebound
            invariant
                self.wf(),
                ebound == self.edge_slots().len(),
                e <= ebound,
                kept == masked(self.edge_slots(), keep@),
                keep@.len() == ebound,
                map@.len() == self.node_slots().len(),
                forall|y: usize| y < map@.len() ==> #[trigger] map@[y as int] == if idv.contains(y) {
                    Some(last_pos(idv, y) as usize)
                } else {
                    None::<usize>
                },
                r@.len() == sub_edges(kept.take(e as int), idv).len(),
                forall|j: int| 0 <= j < r@.len() ==> (#[trigger] r@[j]).0 == sub_edges(kept.take(e as int), idv)[j].0
                    && r@[j].1 == sub_edges(kept.take(e as int), idv)[j].1
                    && cloned(sub_edges(kept.take(e as int), idv)[j].2, r@[j].2)
                    && r@[j].0 < idv.len() && r@[j].1 < idv.len(),
            decreases ebound - e,
        {
            let ghost es0 = kept.take(e as int);
            let ghost es1 = kept.take(e as int + 1);
            proof {
                assert(es1.drop_last() =~= es0);
            }
            let endpoints = if keep[e] { self.edge_endpoints(crate::types::EdgeId(e)) } else { None };
            match endpoints {
                Some((u, v)) => {
                    let w = self.edge_weight(crate::types::EdgeId(e)).unwrap();
                    proof {
                        assert(self.has_node(u.0 as int) && self.has_node(v.0 as int));
                    }
                    match (map[u.0], map[v.0]) {
                        (Some(nu), Some(nv)) => {
                            proof {
                                lemma_last_pos(idv, u.0);
                                lemma_last_pos(idv, v.0);
                            }
                            let ghost before = r@;
                            r.push((nu, nv, w.clone()));
                            proof {
                                assert forall|j: int| 0 <= j < r@.len() implies (#[trigger] r@[j]).0 == sub_edges(es1, idv)[j].0
                                    && r@[j].1 == sub_edges(es1, idv)[j].1
                                    && cloned(sub_edges(es1, idv)[j].2, r@[j].2)
                                    && r@[j].0 < idv.len() && r@[j].1 < idv.len() by {
                                    if j < before.len() {
                                        assert(r@[j] == before[j]);
                                    }
                                }
                            }
                        },
                        _ => {
                            proof {
                                assert(!(idv.contains(u.0) && idv.contains(v.0)));
                            }
                        },
                    }
                },
                None => {},
            }
            e = e + 1;
        }
        proof {
            assert(kept.take(ebound as int) =~= kept);
        }
        r
    }
}

/// Some walk of at most `k` steps along the graph's neighbour relation leads
/// from `s` to `x`.
pub open spec fn within_hops<A, W, Ty: GraphConstructor>(g: BaseGraph<A, W, Ty>, s: usize, x: usize, k: nat) -> bool {
    exists|w: Seq<usize>| #[trigger] is_walk_in(g.adj(), w) && w[0] == s && w.last() == x && w.len() <= k + 1
}

/// A walk of at most `k + 1` steps is either short enough already or ends with
/// a step from a node within `k` steps.
pub(crate) proof fn lemma_within_last_step<A, W, Ty: GraphConstructor>(g: BaseGraph<A, W, Ty>, s: usize, x: usize, k: nat)
    requires
        within_hops(g, s, x, k + 1),
    ensures
        within_hops(g, s, x, k) || exists|p: usize| within_hops(g, s, p, k) && #[trigger] g.adj()(p, x),
{
    let w = choose|w: Seq<usize>| #[trigger] is_walk_in(g.adj(), w) && w[0] == s && w.last() == x && w.len() <= k + 2;
    if w.len() <= k + 1 {
    } else {
        let w2 = w.drop_last();
        let p = w2.last();
        assert(is_walk_in(g.adj(), w2)) by {
            assert forall|i: int| 0 <= i < w2.len() - 1 implies g.adj()(#[trigger] w2[i], w2[i + 1]) by {
                assert(w2[i] == w[i] && w2[i + 1] == w[i + 1]);
            }
        }
        assert(within_hops(g, s, p, k));
        assert(g.adj()(w[w.len() - 2], w[w.len() - 1]));
    }
}

/// A step from a node within `k` steps reaches a node within `k + 1` steps.
pub(crate) proof fn lemma_within_extend<A, W, Ty: GraphConstructor>(g: BaseGraph<A, W, Ty>, s: usize, p: usize, x: usize, k: nat)
    requires
        within_hops(g, s, p, k),
        g.adj()(p, x),
    ensures
        within_hops(g, s, x, k + 1),
{
    let w = choose|w: Seq<usize>| #[trigger] is_walk_in(g.adj(), w) && w[0] == s && w.last() == p && w.len() <= k + 1;
    let w2 = w.push(x);
    assert forall|i: int| 0 <= i < w2.len() - 1 implies g.adj()(#[trigger] w2[i], w2[i + 1]) by {
        if i < w.len() - 1 {
            assert(w2[i] == w[i] && w2[i + 1] == w[i + 1]);
        } else {
            assert(w2[i] == p && w2[i + 1] == x);
        }
    }
    assert(is_walk_in(g.adj(), w2));
}

/// A walk within `k` steps is within `k + 1` steps, and within `k` steps means
/// connected.
pub(crate) proof fn lemma_within_weaken<A, W, Ty: GraphConstructor>(g: BaseGraph<A, W, Ty>, s: usize, x: usize, k: nat)
    requires
        within_hops(g, s, x, k),
    ensures
        within_hops(g, s, x, k + 1),
        connects(g.adj(), s, x),
{
    let w = choose|w: Seq<usize>| #[trigger] is_walk_in(g.adj(), w) && w[0] == s && w.last() == x && w.len() <= k + 1;
    assert(is_walk_in(g.adj(), w));
}

/// Node indices as node ids.
fn to_ids(v: Vec<usize>) -> (r: Vec<NodeId>)
    ensures
        ids(r@) == v@,
{
    let mut r: Vec<NodeId> = Vec::new();
    let mut i: usize = 0;
    while i < v.len()
        invariant
            i <= v@.len(),
            r@.len() == i,
            forall|j: int| 0 <= j < i ==> #[trigger] r@[j].0 == v@[j],
        decreases v@.len() - i,
    {
        r.push(NodeId(v[i]));
        i = i + 1;
    }
    assert(ids(r@) =~= v@);
    r
}

/// The nodes within `k` steps of the existing node `start`, breadth-first:
/// `start` first, then each level in discovery order.
fn k_hop_indices<A, W, Ty: GraphConstructor>(g: &BaseGraph<A, W, Ty>, start: usize, k: usize) -> (r: Vec<usize>)
    requires
        g.wf(),
        g.has_node(start as int),
    ensures
        r@.len() > 0 && r@[0] == start,
        r@.no_duplicates(),
        forall|x: usize| #[trigger] r@.contains(x) <==> within_hops(*g, start, x, k as nat),
        forall|j: int| 0 <= j < r@.len() ==> g.has_node(#[trigger] r@[j] as int),
{
    let bound = g.node_bound();
    let mut visited = crate::traversal::falses(bound);
    let mut result: Vec<usize> = Vec::new();
    visited.set(start, true);
    result.push(start);
    proof {
        let w = seq![start];
        assert(is_walk_in(g.adj(), w));
        assert forall|x: usize| #[trigger] result@.contains(x) <==> within_hops(*g, start, x, 0) by {
            if within_hops(*g, start, x, 0) {
                let w2 = choose|w: Seq<usize>| #[trigger] is_walk_in(g.adj(), w) && w[0] == start && w.last() == x && w.len() <= 1;
                assert(result@[0] == x);
            }
            if result@.contains(x) {
                assert(within_hops(*g, start, x, 0));
            }
        }
    }
    let mut level_start: usize = 0;
    let mut depth: usize = 0;
    while depth < k && level_start < result.len()
        invariant
            g.wf(),
            g.has_node(start as int),
            bound == g.node_slots().len(),
            depth <= k,
            visited@.len() == bound,
            forall|v: int| 0 <= v < bound ==> (#[trigger] visited@[v] <==> result@.contains(v as usize)),
            result@.len() > 0 && result@[0] == start,
            result@.no_duplicates(),
            forall|j: int| 0 <= j < result@.len() ==> g.has_node(#[trigger] result@[j] as int),
            level_start <= result@.len(),
            forall|x: usize| #[trigger] result@.contains(x) <==> within_hops(*g, start, x, depth as nat),
            forall|p: int, v: usize| 0 <= p < level_start && #[trigger] g.adj()(result@[p], v) ==> result@.contains(v),
        decreases k - depth,
    {
        let level_end = result.len();
        let ghost old_result = result@;
        let mut idx = level_start;
        while idx < level_end
            invariant
                g.wf(),
                bound == g.node_slots().len(),
                level_start <= idx <= level_end,
                level_end == old_result.len(),
                depth < k,
                visited@.len() == bound,
                forall|v: int| 0 <= v < bound ==> (#[trigger] visited@[v] <==> result@.contains(v as usize)),
                result@.len() >= level_end,
                forall|j: int| 0 <= j < level_end ==> #[trigger] result@[j] == old_result[j],
                result@.len() > 0 && result@[0] == start,
                result@.no_duplicates(),
                forall|j: int| 0 <= j < result@.len() ==> g.has_node(#[trigger] result@[j] as int),
                forall|x: usize| #[trigger] old_result.contains(x) <==> within_hops(*g, start, x, depth as nat),
                forall|x: usize| #[trigger] result@.contains(x) ==> within_hops(*g, start, x, (depth + 1) as nat),
                forall|x: usize| old_result.contains(x) ==> #[trigger] result@.contains(x),
                forall|p: int, v: usize| 0 <= p < idx && #[trigger] g.adj()(result@[p], v) ==> result@.contains(v),
            decreases level_end - idx,
        {
            let u = result[idx];
            let nbrs = g.neighbor_indices(u);
            proof {
                g.lemma_neighbors_exist(u);
                assert(old_result[idx as int] == u);
                assert(old_result.contains(u));
            }
            let mut t: usize = 0;
            while t < nbrs.len()
                invariant
                    g.wf(),
                    bound == g.node_slots().len(),
                    nbrs@ == g.neighbor_seq(u),
                    forall|x: usize| #[trigger] g.neighbor_seq(u).contains(x) ==> g.has_node(x as int),
                    within_hops(*g, start, u, depth as nat),
                    level_start <= idx < level_end,
                    level_end == old_result.len(),
                    result@[idx as int] == u,
                    t <= nbrs@.len(),
                    visited@.len() == bound,
                    forall|v: int| 0 <= v < bound ==> (#[trigger] visited@[v] <==> result@.contains(v as usize)),
                    result@.len() >= level_end,
                    forall|j: int| 0 <= j < level_end ==> #[trigger] result@[j] == old_result[j],
                    result@.len() > 0 && result@[0] == start,
                    result@.no_duplicates(),
                    forall|j: int| 0 <= j < result@.len() ==> g.has_node(#[trigger] result@[j] as int),
                    forall|x: usize| #[trigger] result@.contains(x) ==> within_hops(*g, start, x, (depth + 1) as nat),
                    forall|x: usize| old_result.contains(x) ==> #[trigger] result@.contains(x),
                    forall|p: int, v: usize| 0 <= p < idx && #[trigger] g.adj()(result@[p], v) ==> result@.contains(v),
                    forall|q: int| 0 <= q < t ==> result@.contains(#[trigger] nbrs@[q]),
                decreases nbrs@.len() - t,
            {
                let v = nbrs[t];
                proof {
                    assert(g.neighbor_seq(u).contains(v));
                }
                if !visited[v] {
                    let ghost before = result@;
                    proof {
                        lemma_within_extend(*g, start, u, v, depth as nat);
                    }
                    visited.set(v, true);
                    result.push(v);
                    proof {
                        assert forall|a: int, b: int| 0 <= a < result@.len() && 0 <= b < result@.len() && a != b
                            implies result@[a] != result@[b] by {
                            if a < before.len() && b < before.len() {
                                assert(result@[a] == before[a] && result@[b] == before[b]);
                            } else if a < before.len() {
                                assert(result@[a] == before[a]);
                                assert(!before.contains(v));
                            } else {
                                assert(result@[b] == before[b]);
                                assert(!before.contains(v));
                            }
                        }
                        assert forall|x: usize| #[trigger] result@.contains(x) implies within_hops(*g, start, x, (depth + 1) as nat) by {
                            if x != v {
                                let p = choose|p: int| 0 <= p < result@.len() && result@[p] == x;
                                assert(before[p] == x);
                                assert(before.contains(x));
                            }
                        }
                        assert forall|x: usize| before.contains(x) implies #[trigger] result@.contains(x) by {
                            let p = choose|p: int| 0 <= p < before.len() && before[p] == x;
                            assert(result@[p] == x);
                        }
                        assert forall|x: usize| old_result.contains(x) implies #[trigger] result@.contains(x) by {
                            assert(before.contains(x));
                        }
                        assert forall|vv: int| 0 <= vv < bound implies (#[trigger] visited@[vv] <==> result@.contains(vv as usize)) by {
                            if vv != v as int {
                                assert(before.contains(vv as usize) ==> result@.contains(vv as usize));
                                if result@.contains(vv as usize) {
                                    let p = choose|p: int| 0 <= p < result@.len() && result@[p] == vv as usize;
                                    assert(before[p] == vv as usize);
                                }
                            } else {
                                assert(result@[before.len() as int] == v);
                            }
                        }
                        assert forall|q: int| 0 <= q < t + 1 implies result@.contains(#[trigger] nbrs@[q]) by {
                            if q < t {
                                assert(before.contains(nbrs@[q]));
                            } else {
                                assert(result@[before.len() as int] == v);
                            }
                        }
                        assert forall|p: int, w: usize| 0 <= p < idx && #[trigger] g.adj()(result@[p], w) implies result@.contains(w) by {
                            assert(result@[p] == before[p]);
                            assert(before.contains(w));
                        }
                    }
                }
                t = t + 1;
            }
            proof {
                assert forall|p: int, v: usize| 0 <= p < idx + 1 && #[trigger] g.adj()(result@[p], v) implies result@.contains(v) by {
                    if p == idx {
                        assert(nbrs@.contains(v));
                        let q = choose|q: int| 0 <= q < nbrs@.len() && nbrs@[q] == v;
                    }
                }
            }
            idx = idx + 1;
        }
        proof {
            assert forall|x: usize| within_hops(*g, start, x, (depth + 1) as nat) implies #[trigger] result@.contains(x) by {
                lemma_within_last_step(*g, start, x, depth as nat);
                if within_hops(*g, start, x, depth as nat) {
                    assert(old_result.contains(x));
                } else {
                    let p = choose|p: usize| within_hops(*g, start, p, depth as nat) && #[trigger] g.adj()(p, x);
                    assert(old_result.contains(p));
                    let q = choose|q: int| 0 <= q < old_result.len() && old_result[q] == p;
                    assert(result@[q] == p);
                }
            }
        }
        level_start = level_end;
        depth = depth + 1;
    }
    proof {
        if depth < k {
            assert(level_start == result@.len());
            assert forall|x: usize| within_hops(*g, start, x, k as nat) implies #[trigger] result@.contains(x) by {
                let set = |y: usize| result@.contains(y);
                assert forall|a: usize, b: usize| set(a) && #[trigger] g.adj()(a, b) implies set(b) by {
                    let p = choose|p: int| 0 <= p < result@.len() && result@[p] == a;
                }
                let w = choose|w: Seq<usize>| #[trigger] is_walk_in(g.adj(), w) && w[0] == start && w.last() == x && w.len() <= k + 1;
                assert(connects(g.adj(), start, x));
                assert(set(start)) by {
                    assert(result@[0] == start);
                }
                crate::walks::lemma_closed_contains_connected(g.adj(), set, start, x);
            }
            assert forall|x: usize| #[trigger] result@.contains(x) implies within_hops(*g, start, x, k as nat) by {
                let w = choose|w: Seq<usize>| #[trigger] is_walk_in(g.adj(), w) && w[0] == start && w.last() == x && w.len() <= depth + 1;
                assert(w.len() <= k + 1);
            }
        }
    }
    result
}

/// The nodes weakly connected to the existing node `start`, in the order a
/// depth-first search with an explicit stack first visits them.
fn component_indices<A, W, Ty: GraphConstructor>(g: &BaseGraph<A, W, Ty>, start: usize) -> (r: Vec<usize>)
    requires
        g.wf(),
        g.has_node(start as int),
    ensures
        r@.len() > 0 && r@[0] == start,
        r@.no_duplicates(),
        forall|x: usize| #[trigger] r@.contains(x) <==> g.weakly_connected(start, x),
        forall|j: int| 0 <= j < r@.len() ==> g.has_node(#[trigger] r@[j] as int),
{
    let bound = g.node_bound();
    let mut visited = crate::traversal::falses(bound);
    let mut stack: Vec<usize> = Vec::new();
    let mut result: Vec<usize> = Vec::new();
    stack.push(start);
    proof {
        crate::walks::lemma_connects_refl(g.weak_adj(), start);
        crate::types::lemma_count_true_none(visited@);
    }
    while stack.len() > 0
        invariant
            g.wf(),
            g.has_node(start as int),
            bound == g.node_slots().len(),
            visited@.len() == bound,
            forall|v: int| 0 <= v < bound ==> (#[trigger] visited@[v] <==> result@.contains(v as usize)),
            result@.no_duplicates(),
            result@.len() == 0 ==> stack@ == seq![start],
            result@.len() > 0 ==> result@[0] == start,
            forall|j: int| 0 <= j < result@.len() ==> g.has_node(#[trigger] result@[j] as int)
                && g.weakly_connected(start, result@[j]),
            forall|j: int| 0 <= j < stack@.len() ==> g.has_node(#[trigger] stack@[j] as int)
                && g.weakly_connected(start, stack@[j]),
            forall|u: usize, v: usize| #[trigger] result@.contains(u) && #[trigger] g.weak_adj()(u, v)
                ==> result@.contains(v) || stack@.contains(v),
        decreases bound - count_true_of(visited@), stack@.len(),
    {
        let ghost stack0 = stack@;
        let ghost visited0 = visited@;
        let node = stack.pop().unwrap();
        let ghost popped = stack@;
        proof {
            assert(stack0 =~= popped.push(node));
            assert forall|v: usize| #[trigger] stack0.contains(v) implies popped.contains(v) || v == node by {
                let p = choose|p: int| 0 <= p < stack0.len() && stack0[p] == v;
                if p < popped.len() {
                    assert(popped[p] == v);
                }
            }
        }
        proof {
            crate::types::lemma_count_true_bound(visited@);
        }
        if !visited[node] {
            proof {
                crate::types::lemma_count_true_set(visited@, node as int);
            }
            visited.set(node, true);
            proof {
                assert(visited@ == visited0.update(node as int, true));
                assert(count_true_of(visited@) == count_true_of(visited0) + 1);
                crate::types::lemma_count_true_bound(visited@);
            }
            let ghost before = result@;
            result.push(node);
            let nbrs = g.weak_neighbor_indices(node);
            proof {
                assert(result@[before.len() as int] == node);
                assert forall|u: usize, v: usize| #[trigger] result@.contains(u) && u != node && #[trigger] g.weak_adj()(u, v)
                    implies result@.contains(v) || popped.contains(v) || v == node by {
                    let p = choose|p: int| 0 <= p < result@.len() && result@[p] == u;
                    assert(before[p] == u);
                    assert(before.contains(u));
                    assert(before.contains(v) || stack0.contains(v));
                    if before.contains(v) {
                        let q = choose|q: int| 0 <= q < before.len() && before[q] == v;
                        assert(result@[q] == v);
                    }
                }
                g.lemma_neighbors_exist(node);
                assert forall|x: usize| #[trigger] nbrs@.contains(x) implies g.weakly_connected(start, x) by {
                    crate::walks::lemma_connects_step(g.weak_adj(), start, node, x);
                }
                assert forall|a: int, b: int| 0 <= a < result@.len() && 0 <= b < result@.len() && a != b
                    implies result@[a] != result@[b] by {
                    if a < before.len() && b < before.len() {
                        assert(result@[a] == before[a] && result@[b] == before[b]);
                    } else if a < before.len() {
                        assert(result@[a] == before[a]);
                        assert(!before.contains(node));
                    } else {
                        assert(result@[b] == before[b]);
                        assert(!before.contains(node));
                    }
                }
                assert forall|v: int| 0 <= v < bound implies (#[trigger] visited@[v] <==> result@.contains(v as usize)) by {
                    if v != node as int {
                        if before.contains(v as usize) {
                            let p = choose|p: int| 0 <= p < before.len() && before[p] == v as usize;
                            assert(result@[p] == v as usize);
                        }
                        if result@.contains(v as usize) {
                            let p = choose|p: int| 0 <= p < result@.len() && result@[p] == v as usize;
                            assert(before[p] == v as usize);
                        }
                    } else {
                        assert(result@[before.len() as int] == node);
                    }
                }
            }
            let mut t: usize = 0;
            while t < nbrs.len()
                invariant
                    g.wf(),
                    g.has_node(start as int),
                    bound == g.node_slots().len(),
                    nbrs@ == g.weak_neighbor_seq(node),
                    forall|x: usize| #[trigger] nbrs@.contains(x) ==> g.has_node(x as int) && g.weakly_connected(start, x),
                    t <= nbrs@.len(),
                    visited@.len() == bound,
                    forall|v: int| 0 <= v < bound ==> (#[trigger] visited@[v] <==> result@.contains(v as usize)),
                    result@.len() > 0 && result@[0] == start,
                    result@.last() == node,
                    result@.contains(node),
                    stack@.len() >= popped.len(),
                    forall|j: int| 0 <= j < popped.len() ==> #[trigger] stack@[j] == popped[j],
                    forall|j: int| 0 <= j < stack@.len() ==> g.has_node(#[trigger] stack@[j] as int)
                        && g.weakly_connected(start, stack@[j]),
                    forall|u: usize, v: usize| #[trigger] result@.contains(u) && u != node && #[trigger] g.weak_adj()(u, v)
                        ==> result@.contains(v) || popped.contains(v) || v == node,
                    forall|q: int| 0 <= q < t ==> result@.contains(#[trigger] nbrs@[q]) || stack@.contains(nbrs@[q]),
                decreases nbrs@.len() - t,
            {
                let v = nbrs[t];
                proof {
                    assert(nbrs@.contains(v));
                }
                if !visited[v] {
                    let ghost sbefore = stack@;
                    stack.push(v);
                    proof {
                        assert forall|q: int| 0 <= q < t + 1 implies result@.contains(#[trigger] nbrs@[q]) || stack@.contains(nbrs@[q]) by {
                            if q < t {
                                if sbefore.contains(nbrs@[q]) {
                                    let p = choose|p: int| 0 <= p < sbefore.len() && sbefore[p] == nbrs@[q];
                                    assert(stack@[p] == nbrs@[q]);
                                }
                            } else {
                                assert(stack@[sbefore.len() as int] == v);
                            }
                        }
                    }
                } else {
                    proof {
                        assert(result@.contains(v));
                    }
                }
                t = t + 1;
            }
            proof {
                assert forall|u: usize, v: usize| #[trigger] result@.contains(u) && #[trigger] g.weak_adj()(u, v)
                    implies result@.contains(v) || stack@.contains(v) by {
                    if u == node {
                        assert(nbrs@.contains(v));
                        let q = choose|q: int| 0 <= q < nbrs@.len() && nbrs@[q] == v;
                    } else {
                        if popped.contains(v) {
                            let p = choose|p: int| 0 <= p < popped.len() && popped[p] == v;
                            assert(stack@[p] == v);
                        }
                    }
                }
            }
        } else {
            proof {
                assert forall|u: usize, v: usize| #[trigger] result@.contains(u) && #[trigger] g.weak_adj()(u, v)
                    implies result@.contains(v) || stack@.contains(v) by {
                    assert(result@.contains(v) || stack0.contains(v));
                    if v == node {
                        assert(visited@[node as int]);
                    }
                }
            }
        }
    }
    proof {
        let set = |y: usize| result@.contains(y);
        assert forall|a: usize, b: usize| set(a) && #[trigger] g.weak_adj()(a, b) implies set(b) by {
            assert(result@.contains(a) && g.weak_adj()(a, b));
        }
        assert forall|x: usize| #[trigger] result@.contains(x) <==> g.weakly_connected(start, x) by {
            if g.weakly_connected(start, x) {
                assert(set(start)) by {
                    assert(result@[0] == start);
                }
                crate::walks::lemma_closed_contains_connected(g.weak_adj(), set, start, x);
            }
            if result@.contains(x) {
                let p = choose|p: int| 0 <= p < result@.len() && result@[p] == x;
            }
        }
    }
    result
}

/// `count_true`, as a termination measure.
spec fn count_true_of(s: Seq<bool>) -> int {
    crate::types::count_true(s) as int
}

impl<A: Clone, W: Clone, Ty: GraphConstructor> BaseGraph<A, W, Ty> {
    /// Creates the subgraph induced by the given nodes; the same as
    /// `subgraph` on them.
    pub fn induced_subgraph(&self, nodes: &Vec<NodeId>) -> (r: Result<Self, GraphinaException>)
        requires
            self.wf(),
        ensures
            r is Err <==> exists|k: int| 0 <= k < nodes@.len() && !self.has_node(nodes@[k].0 as int),
            r is Err ==> exists|k: int| 0 <= k < nodes@.len() && !self.has_node(nodes@[k].0 as int)
                && (forall|j: int| 0 <= j < k ==> self.has_node(nodes@[j].0 as int))
                && r->Err_0.message@ == missing_node_message(nodes@[k].0),
            r is Ok ==> is_subgraph_on(*self, ids(nodes@), r->Ok_0),
    {
        self.subgraph(nodes.as_slice())
    }

    /// The nodes within `k` steps of `start` along neighbour links: `start`
    /// first, then breadth-first. Empty when `start` is not in the graph.
    pub fn k_hop_neighbors(&self, start: NodeId, k: usize) -> (r: Vec<NodeId>)
        requires
            self.wf(),
        ensures
            !self.has_node(start.0 as int) ==> r@.len() == 0,
            self.has_node(start.0 as int) ==> r@.len() > 0 && r@[0] == start
                && ids(r@).no_duplicates()
                && forall|x: usize| #[trigger] ids(r@).contains(x) <==> within_hops(*self, start.0, x, k as nat),
    {
        if !self.contains_node(start) {
            return Vec::new();
        }
        let r = to_ids(k_hop_indices(self, start.0, k));
        proof {
            assert(r@[0].0 == start.0);
        }
        r
    }

    /// The ego network of `center`: the subgraph on the nodes within `radius`
    /// steps of it, listed breadth-first from `center`. Fails when `center` is
    /// not in the graph.
    pub fn ego_graph(&self, center: NodeId, radius: usize) -> (r: Result<Self, GraphinaException>)
        requires
            self.wf(),
        ensures
            r is Err <==> !self.has_node(center.0 as int),
            r is Err ==> r->Err_0.message@ == "Center node "@ + decimal(center.0 as nat) + " not found"@,
            r is Ok ==> exists|ns: Seq<usize>| #![trigger is_subgraph_on(*self, ns, r->Ok_0)]
                ns.len() > 0 && ns[0] == center.0 && ns.no_duplicates()
                && (forall|x: usize| #[trigger] ns.contains(x) <==> within_hops(*self, center.0, x, radius as nat))
                && is_subgraph_on(*self, ns, r->Ok_0),
    {
        if !self.contains_node(center) {
            let s = String::from_str("Center node ");
            let s = s.concat(usize_to_string(center.index()).as_str());
            let s = s.concat(" not found");
            return Err(GraphinaException { message: s });
        }
        let found = k_hop_indices(self, center.0, radius);
        let ghost ns = found@;
        let nodes = to_ids(found);
        let keep = all_true(self.edge_bound());
        proof {
            assert forall|k: int| 0 <= k < nodes@.len() implies self.has_node(#[trigger] nodes@[k].0 as int) by {
                assert(ids(nodes@)[k] == nodes@[k].0);
                assert(ns[k] == nodes@[k].0);
            }
        }
        let g = self.copy_nodes(nodes.as_slice(), &keep);
        proof {
            assert(masked(self.edge_slots(), keep@) =~= self.edge_slots());
            assert(is_subgraph_on(*self, ns, g));
        }
        let r: Result<Self, GraphinaException> = Ok(g);
        proof {
            assert(is_subgraph_on(*self, ns, r->Ok_0));
        }
        r
    }

    /// The nodes weakly connected to `start` (for undirected graphs, its
    /// connected component), `start` first, in depth-first order. Empty when
    /// `start` is not in the graph.
    pub fn connected_component(&self, start: NodeId) -> (r: Vec<NodeId>)
        requires
            self.wf(),
        ensures
            !self.has_node(start.0 as int) ==> r@.len() == 0,
            self.has_node(start.0 as int) ==> r@.len() > 0 && r@[0] == start
                && ids(r@).no_duplicates()
                && forall|x: usize| #[trigger] ids(r@).contains(x) <==> self.weakly_connected(start.0, x),
            forall|k: int| 0 <= k < r@.len() ==> self.has_node(#[trigger] r@[k].0 as int),
    {
        if !self.contains_node(start) {
            return Vec::new();
        }
        let found = component_indices(self, start.0);
        let ghost f = found@;
        let r = to_ids(found);
        proof {
            assert(r@[0].0 == start.0);
            assert forall|k: int| 0 <= k < r@.len() implies self.has_node(#[trigger] r@[k].0 as int) by {
                assert(ids(r@)[k] == r@[k].0);
                assert(f[k] == r@[k].0);
            }
        }
        r
    }

    /// The subgraph on the component of `start` (see `connected_component`).
    /// Fails when `start` is not in the graph: the component is then empty and
    /// the subgraph has no nodes.
    pub fn component_subgraph(&self, start: NodeId) -> (r: Result<Self, GraphinaException>)
        requires
            self.wf(),
        ensures
            r is Ok,
            !self.has_node(start.0 as int) ==> is_subgraph_on(*self, Seq::<usize>::empty(), r->Ok_0),
            self.has_node(start.0 as int) ==> exists|ns: Seq<usize>| #![trigger is_subgraph_on(*self, ns, r->Ok_0)]
                ns.len() > 0 && ns[0] == start.0 && ns.no_duplicates()
                && (forall|x: usize| #[trigger] ns.contains(x) <==> self.weakly_connected(start.0, x))
                && is_subgraph_on(*self, ns, r->Ok_0),
    {
        let nodes = self.connected_component(start);
        proof {
            if !self.has_node(start.0 as int) {
                assert(ids(nodes@) =~= Seq::<usize>::empty());
            }
        }
        self.subgraph(nodes.as_slice())
    }

    /// Keeps the nodes for which `predicate` holds, in index order, with the
    /// edges among them (a `subgraph` on those nodes).
    pub fn filter_nodes<F: Fn(NodeId, &A) -> bool>(&self, predicate: F) -> (g: Self)
        requires
            self.wf(),
            forall|id: NodeId, a: &A| #[trigger] predicate.requires((id, a)),
        ensures
            exists|kept: Seq<usize>| #![trigger is_subgraph_on(*self, kept, g)]
                (forall|j: int, k: int| 0 <= j < k < kept.len() ==> #[trigger] kept[j] < #[trigger] kept[k])
                && (forall|j: int| 0 <= j < kept.len() ==> self.has_node(#[trigger] kept[j] as int)
                    && predicate.ensures((NodeId(kept[j]), &self.attr(kept[j] as int)), true))
                && (forall|x: usize| self.has_node(x as int) && !(#[trigger] kept.contains(x))
                    ==> predicate.ensures((NodeId(x), &self.attr(x as int)), false))
                && is_subgraph_on(*self, kept, g),
    {
        let bound = self.node_bound();
        let mut kept: Vec<NodeId> = Vec::new();
        let mut x: usize = 0;
        while x < bound
            invariant
                self.wf(),
                bound == self.node_slots().len(),
                x <= bound,
                forall|j: int, k: int| 0 <= j < k < kept@.len() ==> #[trigger] kept@[j].0 < #[trigger] kept@[k].0,
                forall|j: int| 0 <= j < kept@.len() ==> (#[trigger] kept@[j]).0 < x,
                forall|j: int| 0 <= j < kept@.len() ==> self.has_node(#[trigger] kept@[j].0 as int)
                    && predicate.ensures((NodeId(kept@[j].0), &self.attr(kept@[j].0 as int)), true),
                forall|y: usize| y < x && self.has_node(y as int) && !(#[trigger] ids(kept@).contains(y))
                    ==> predicate.ensures((NodeId(y), &self.attr(y as int)), false),
                forall|id: NodeId, a: &A| #[trigger] predicate.requires((id, a)),
            decreases bound - x,
        {
            match self.node_attr(NodeId(x)) {
                Some(attr) => {
                    let ghost before = kept@;
                    if predicate(NodeId(x), attr) {
                        kept.push(NodeId(x));
                        proof {
                            assert forall|y: usize| y < x + 1 && self.has_node(y as int) && !(#[trigger] ids(kept@).contains(y))
                                implies predicate.ensures((NodeId(y), &self.attr(y as int)), false) by {
                                if y < x {
                                    if ids(before).contains(y) {
                                        let p = choose|p: int| 0 <= p < ids(before).len() && ids(before)[p] == y;
                                        assert(ids(kept@)[p] == y);
                                    }
                                } else {
                                    assert(ids(kept@)[before.len() as int] == y);
                                }
                            }
                        }
                    } else {
                        proof {
                            assert(NodeId(x) == NodeId(x));
                        }
                    }
                },
                None => {},
            }
            x = x + 1;
        }
        let ghost kv = ids(kept@);
        let keep = all_true(self.edge_bound());
        let g = self.copy_nodes(kept.as_slice(), &keep);
        proof {
            assert(masked(self.edge_slots(), keep@) =~= self.edge_slots());
            assert forall|j: int, k: int| 0 <= j < k < kv.len() implies #[trigger] kv[j] < #[trigger] kv[k] by {
                assert(kv[j] == kept@[j].0 && kv[k] == kept@[k].0);
            }
            assert forall|j: int| 0 <= j < kv.len() implies self.has_node(#[trigger] kv[j] as int)
                && predicate.ensures((NodeId(kv[j]), &self.attr(kv[j] as int)), true) by {
                assert(kv[j] == kept@[j].0);
            }
            assert(is_subgraph_on(*self, kv, g));
        }
        g
    }

    /// Keeps every node (in index order) and the edges for which `predicate`
    /// holds.
    pub fn filter_edges<F: Fn(NodeId, NodeId, &W) -> bool>(&self, predicate: F) -> (g: Self)
        requires
            self.wf(),
            forall|u: NodeId, v: NodeId, w: &W| #[trigger] predicate.requires((u, v, w)),
        ensures
            exists|keep: Seq<bool>| #![trigger copies_on(self.node_slots(), masked(self.edge_slots(), keep), self.spec_node_ids(), g)]
                keep.len() == self.edge_slots().len()
                && (forall|e: int| #[trigger] self.has_edge(e) ==> predicate.ensures(
                    (NodeId(self.src(e)), NodeId(self.tgt(e)), &self.weight(e)), keep[e]))
                && copies_on(self.node_slots(), masked(self.edge_slots(), keep), self.spec_node_ids(), g),
    {
        let ebound = self.edge_bound();
        let mut keep: Vec<bool> = Vec::new();
        let mut e: usize = 0;
        while e < ebound
            invariant
                self.wf(),
                ebound == self.edge_slots().len(),
                e <= ebound,
                keep@.len() == e,
                forall|k: int| 0 <= k < e && #[trigger] self.has_edge(k) ==> predicate.ensures(
                    (NodeId(self.src(k)), NodeId(self.tgt(k)), &self.weight(k)), keep@[k]),
                forall|u: NodeId, v: NodeId, w: &W| #[trigger] predicate.requires((u, v, w)),
            decreases ebound - e,
        {
            match self.edge_endpoints(crate::types::EdgeId(e)) {
                Some((u, v)) => {
                    let w = self.edge_weight(crate::types::EdgeId(e)).unwrap();
                    let b = predicate(u, v, w);
                    keep.push(b);
                },
                None => {
                    keep.push(false);
                },
            }
            e = e + 1;
        }
        let nodes = self.node_ids();
        let bound = self.node_bound();
        proof {
            crate::types::lemma_live_indices(self.node_slots());
            assert forall|k: int| 0 <= k < nodes@.len() implies self.has_node(#[trigger] nodes@[k].0 as int) by {
                assert(ids(nodes@)[k] == nodes@[k].0);
            }
        }
        let g = self.copy_nodes(nodes.as_slice(), &keep);
        g
    }
}

} // verus!
