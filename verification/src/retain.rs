//! Pruning a graph in place: keeping the nodes, or the edges, that a
//! predicate accepts.

use vstd::prelude::*;
use crate::types::{BaseGraph, EdgeId, GraphConstructor, NodeId, edge_between};

verus! {

/// The node slots `nodes` with every node below `upto` that `drop` marks
/// taken out.
pub open spec fn pruned_nodes<A>(nodes: Seq<Option<A>>, drop: Seq<bool>, upto: int) -> Seq<Option<A>> {
    Seq::new(nodes.len(), |x: int| if x < upto && drop[x] { None } else { nodes[x] })
}

/// `x` is below `upto` and marked in `drop`.
pub open spec fn dropped(drop: Seq<bool>, upto: int, x: usize) -> bool {
    (x as int) < upto && drop[x as int]
}

/// The edge slots `edges` with every edge that touches a node below `upto`
/// marked in `drop` taken out.
pub open spec fn pruned_edges<W>(edges: Seq<Option<(usize, usize, W)>>, drop: Seq<bool>, upto: int)
    -> Seq<Option<(usize, usize, W)>> {
    Seq::new(edges.len(), |e: int| if edges[e] is Some && (dropped(drop, upto, edges[e].unwrap().0)
        || dropped(drop, upto, edges[e].unwrap().1)) { None } else { edges[e] })
}

/// Edge `f` is the first edge (lowest id) that runs from the source of edge
/// `e` to its target.
pub open spec fn first_twin<W>(edges: Seq<Option<(usize, usize, W)>>, f: int, e: int) -> bool {
    &&& edge_between(edges, f, edges[e].unwrap().0, edges[e].unwrap().1)
    &&& forall|g: int| 0 <= g < f ==> !edge_between(edges, g, edges[e].unwrap().0, edges[e].unwrap().1)
}

/// Edge `f` is struck: it is the first twin of an existing edge that `keep`
/// rejects.
pub open spec fn struck<W>(edges: Seq<Option<(usize, usize, W)>>, keep: Seq<bool>, f: int) -> bool {
    exists|e: int| 0 <= e < edges.len() && edges[e] is Some && !keep[e] && #[trigger] first_twin(edges, f, e)
}

/// The edge slots with every struck edge taken out.
pub open spec fn struck_edges<W>(edges: Seq<Option<(usize, usize, W)>>, keep: Seq<bool>)
    -> Seq<Option<(usize, usize, W)>> {
    Seq::new(edges.len(), |f: int| if struck(edges, keep, f) { None } else { edges[f] })
}

/// Two first twins of one edge are the same edge.
proof fn lemma_first_twin_unique<W>(edges: Seq<Option<(usize, usize, W)>>, f: int, g: int, e: int)
    requires
        first_twin(edges, f, e),
        first_twin(edges, g, e),
    ensures
        f == g,
{
    if f < g {
        assert(edge_between(edges, f, edges[e].unwrap().0, edges[e].unwrap().1));
    } else if g < f {
        assert(edge_between(edges, g, edges[e].unwrap().0, edges[e].unwrap().1));
    }
}

impl<A, W, Ty: GraphConstructor> BaseGraph<A, W, Ty> {
    /// Keeps the nodes that `predicate` accepts; the others are removed, with
    /// every edge that touches them. The predicate is asked once for each
    /// node, in id order.
    pub fn retain_nodes<F: Fn(NodeId, &A) -> bool>(&mut self, predicate: F)
        requires
            old(self).wf(),
            forall|id: NodeId, a: &A| #[trigger] predicate.requires((id, a)),
        ensures
            final(self).wf(),
            exists|drop: Seq<bool>| #![trigger pruned_nodes(old(self).node_slots(), drop, drop.len() as int)]
                drop.len() == old(self).node_slots().len()
                && (forall|x: int| #[trigger] old(self).has_node(x)
                    ==> predicate.ensures((NodeId(x as usize), &old(self).attr(x)), !drop[x]))
                && final(self).node_slots() == pruned_nodes(old(self).node_slots(), drop, drop.len() as int)
                && final(self).edge_slots() == pruned_edges(old(self).edge_slots(), drop, drop.len() as int),
    {
        let bound = self.node_bound();
        let mut drop: Vec<bool> = Vec::new();
        let mut x: usize = 0;
        while x < bound
            invariant
                self.wf(),
                bound == self.node_slots().len(),
                x <= bound,
                drop@.len() == x,
                forall|y: int| 0 <= y < x ==> (#[trigger] drop@[y] ==> self.has_node(y)),
                forall|y: int| 0 <= y < x && #[trigger] self.has_node(y)
                    ==> predicate.ensures((NodeId(y as usize), &self.attr(y)), !drop@[y]),
                forall|id: NodeId, a: &A| #[trigger] predicate.requires((id, a)),
            decreases bound - x,
        {
            match self.node_attr(NodeId(x)) {
                Some(a) => {
                    let keep = predicate(NodeId(x), a);
                    drop.push(!keep);
                },
                None => {
                    drop.push(false);
                },
            }
            x = x + 1;
        }
        let ghost g0 = *self;
        proof {
            assert(pruned_nodes(g0.node_slots(), drop@, 0) =~= g0.node_slots());
            assert(pruned_edges(g0.edge_slots(), drop@, 0) =~= g0.edge_slots());
        }
        let mut x: usize = 0;
        while x < bound
            invariant
                self.wf(),
                g0.wf(),
                bound == g0.node_slots().len(),
                x <= bound,
                drop@.len() == bound,
                forall|y: int| 0 <= y < bound ==> (#[trigger] drop@[y] ==> g0.has_node(y)),
                self.node_slots() == pruned_nodes(g0.node_slots(), drop@, x as int),
                self.edge_slots() == pruned_edges(g0.edge_slots(), drop@, x as int),
            decreases bound - x,
        {
            let ghost cur = *self;
            if drop[x] {
                self.remove_node(NodeId(x));
                proof {
                    assert(self.node_slots() =~= pruned_nodes(g0.node_slots(), drop@, x + 1));
                    assert forall|e: int| 0 <= e < self.edge_slots().len() implies self.edge_slots()[e]
                        == #[trigger] pruned_edges(g0.edge_slots(), drop@, x + 1)[e] by {
                        if g0.has_edge(e) {
                            assert(g0.has_node(g0.src(e) as int) && g0.has_node(g0.tgt(e) as int));
                        }
                    }
                    assert(self.edge_slots() =~= pruned_edges(g0.edge_slots(), drop@, x + 1));
                }
            } else {
                proof {
                    assert(pruned_nodes(g0.node_slots(), drop@, x + 1) =~= pruned_nodes(g0.node_slots(), drop@, x as int));
                    assert(pruned_edges(g0.edge_slots(), drop@, x + 1) =~= pruned_edges(g0.edge_slots(), drop@, x as int));
                }
            }
            x = x + 1;
        }
    }

    /// Keeps the edges that `predicate` accepts. The predicate is asked once
    /// for each edge, in id order; an edge it rejects takes out the first
    /// edge (lowest id) with the same source and target, which is that edge
    /// itself unless a parallel edge came before it.
    pub fn retain_edges<F: Fn(NodeId, NodeId, &W) -> bool>(&mut self, predicate: F)
        requires
            old(self).wf(),
            forall|u: NodeId, v: NodeId, w: &W| #[trigger] predicate.requires((u, v, w)),
        ensures
            final(self).wf(),
            final(self).node_slots() == old(self).node_slots(),
            exists|keep: Seq<bool>| #![trigger struck_edges(old(self).edge_slots(), keep)]
                keep.len() == old(self).edge_slots().len()
                && (forall|e: int| #[trigger] old(self).has_edge(e) ==> predicate.ensures(
                    (NodeId(old(self).src(e)), NodeId(old(self).tgt(e)), &old(self).weight(e)), keep[e]))
                && final(self).edge_slots() == struck_edges(old(self).edge_slots(), keep),
    {
        let ebound = self.edge_bound();
        let mut strike: Vec<bool> = crate::traversal::falses(ebound);
        let ghost mut keep: Seq<bool> = Seq::empty();
        let mut e: usize = 0;
        while e < ebound
            invariant
                self.wf(),
                ebound == self.edge_slots().len(),
                e <= ebound,
                keep.len() == e,
                strike@.len() == ebound,
                forall|k: int| 0 <= k < e && #[trigger] self.has_edge(k) ==> predicate.ensures(
                    (NodeId(self.src(k)), NodeId(self.tgt(k)), &self.weight(k)), keep[k]),
                forall|f: int| 0 <= f < ebound ==> (#[trigger] strike@[f] <==> exists|k: int| 0 <= k < e
                    && self.has_edge(k) && !keep[k] && #[trigger] first_twin(self.edge_slots(), f, k)),
                forall|u: NodeId, v: NodeId, w: &W| #[trigger] predicate.requires((u, v, w)),
            decreases ebound - e,
        {
            match self.edge_endpoints(EdgeId(e)) {
                Some((u, v)) => {
                    let w = self.edge_weight(EdgeId(e)).unwrap();
                    let first = self.find_edge(u, v);
                    proof {
                        assert(edge_between(self.edge_slots(), e as int, u.0, v.0));
                    }
                    let f = first.unwrap().0;
                    let b = predicate(u, v, w);
                    let ghost before = strike@;
                    if !b {
                        strike.set(f, true);
                    }
                    proof {
                        keep = keep.push(b);
                        assert(first_twin(self.edge_slots(), f as int, e as int));
                        assert forall|g: int| 0 <= g < ebound implies (#[trigger] strike@[g] <==> exists|k: int| 0 <= k < e + 1
                            && self.has_edge(k) && !keep[k] && #[trigger] first_twin(self.edge_slots(), g, k)) by {
                            if strike@[g] && !(g == f && !b) {
                                assert(before[g]);
                                let k = choose|k: int| 0 <= k < e && self.has_edge(k) && !keep.drop_last()[k]
                                    && #[trigger] first_twin(self.edge_slots(), g, k);
                                assert(keep[k] == keep.drop_last()[k]);
                            }
                            if exists|k: int| 0 <= k < e + 1 && self.has_edge(k) && !keep[k]
                                && #[trigger] first_twin(self.edge_slots(), g, k) {
                                let k = choose|k: int| 0 <= k < e + 1 && self.has_edge(k) && !keep[k]
                                    && #[trigger] first_twin(self.edge_slots(), g, k);
                                if k == e {
                                    lemma_first_twin_unique(self.edge_slots(), g, f as int, k);
                                } else {
                                    assert(keep[k] == keep.drop_last()[k]);
                                    assert(before[g]);
                                }
                            }
                        }
                        assert forall|k: int| 0 <= k < e + 1 && #[trigger] self.has_edge(k) implies predicate.ensures(
                            (NodeId(self.src(k)), NodeId(self.tgt(k)), &self.weight(k)), keep[k]) by {
                            if k < e {
                                assert(keep[k] == keep.drop_last()[k]);
                            }
                        }
                    }
                },
                None => {
                    proof {
                        keep = keep.push(true);
                        assert forall|g: int| 0 <= g < ebound implies (#[trigger] strike@[g] <==> exists|k: int| 0 <= k < e + 1
                            && self.has_edge(k) && !keep[k] && #[trigger] first_twin(self.edge_slots(), g, k)) by {
                            if strike@[g] {
                                let k = choose|k: int| 0 <= k < e && self.has_edge(k) && !keep.drop_last()[k]
                                    && #[trigger] first_twin(self.edge_slots(), g, k);
                                assert(keep[k] == keep.drop_last()[k]);
                            }
                            if exists|k: int| 0 <= k < e + 1 && self.has_edge(k) && !keep[k]
                                && #[trigger] first_twin(self.edge_slots(), g, k) {
                                let k = choose|k: int| 0 <= k < e + 1 && self.has_edge(k) && !keep[k]
                                    && #[trigger] first_twin(self.edge_slots(), g, k);
                                assert(keep[k] == keep.drop_last()[k]);
                            }
                        }
                        assert forall|k: int| 0 <= k < e + 1 && #[trigger] self.has_edge(k) implies predicate.ensures(
                            (NodeId(self.src(k)), NodeId(self.tgt(k)), &self.weight(k)), keep[k]) by {
                            assert(keep[k] == keep.drop_last()[k]);
                        }
                    }
                },
            }
            e = e + 1;
        }
        let ghost g0 = *self;
        proof {
            assert(Seq::new(ebound as nat, |g: int| if g < 0 && strike@[g] { None } else { g0.edge_slots()[g] })
                =~= g0.edge_slots());
            assert forall|g: int| 0 <= g < ebound && #[trigger] strike@[g] implies g0.has_edge(g) by {
                let k = choose|k: int| 0 <= k < ebound && g0.has_edge(k) && !keep[k]
                    && #[trigger] first_twin(g0.edge_slots(), g, k);
            }
        }
        let mut f: usize = 0;
        while f < ebound
            invariant
                self.wf(),
                ebound == g0.edge_slots().len(),
                strike@.len() == ebound,
                f <= ebound,
                forall|g: int| 0 <= g < ebound && #[trigger] strike@[g] ==> g0.has_edge(g),
                self.node_slots() == g0.node_slots(),
                self.edge_slots() == Seq::new(ebound as nat, |g: int| if g < f && strike@[g] { None } else { g0.edge_slots()[g] }),
            decreases ebound - f,
        {
            if strike[f] {
                self.remove_edge(EdgeId(f));
            }
            proof {
                assert(self.edge_slots() =~= Seq::new(ebound as nat, |g: int| if g < f + 1 && strike@[g] { None }
                    else { g0.edge_slots()[g] }));
            }
            f = f + 1;
        }
        proof {
            assert(self.edge_slots() =~= struck_edges(g0.edge_slots(), keep));
        }
    }
}

} // verus!
