//! Prim's algorithm: growing one tree at a time from the lowest unvisited
//! node, always along the lightest edge that leaves the tree. Edge weights
//! enter as ranks, one per edge slot (a lower rank is a lighter edge);
//! comparing and adding the weights themselves happens outside the library.

use vstd::prelude::*;
use crate::error::GraphinaError;
use crate::minheap::IndexedMinHeap;
use crate::mst::{MstEdge, empty_mst_message, joined, linked, lemma_joined_push, lemma_joined_sym};
use crate::walks::{lemma_closed_contains_connected, lemma_connects_refl, lemma_connects_trans};
use crate::types::{BaseGraph, GraphConstructor, NodeId, ids};

verus! {

/// Edge `f` leaves the tree `visit[s..k)` for a node outside `visit[..k)`.
pub open spec fn frontier_edge<A, W, Ty: GraphConstructor>(g: BaseGraph<A, W, Ty>, visit: Seq<usize>, s: int, k: int,
    f: int) -> bool {
    &&& g.has_edge(f)
    &&& (visit.subrange(s, k).contains(g.src(f)) && !visit.take(k).contains(g.tgt(f)))
        || (visit.subrange(s, k).contains(g.tgt(f)) && !visit.take(k).contains(g.src(f)))
}

/// Where the tree holding position `k` of the visit begins: the last
/// position at or before `k` reached without an edge.
pub open spec fn tree_start(via: Seq<Option<int>>, k: int) -> int
    decreases k,
{
    if k <= 0 {
        0
    } else if via[k] is None {
        k
    } else {
        tree_start(via, k - 1)
    }
}

/// The end of edge `f` other than `x`.
pub open spec fn other_end<A, W, Ty: GraphConstructor>(g: BaseGraph<A, W, Ty>, f: int, x: usize) -> usize {
    if g.src(f) == x { g.tgt(f) } else { g.src(f) }
}

/// Step `k` of a run of Prim's algorithm: `visit[k]` is either the start of
/// a new tree (the lowest node not yet visited, taken once the previous tree
/// has no edge left that leaves it) or reached along edge `via[k]`, an edge
/// of least rank among those leaving the current tree.
pub open spec fn prim_step<A, W, Ty: GraphConstructor>(g: BaseGraph<A, W, Ty>, rank: Seq<u64>, visit: Seq<usize>,
    via: Seq<Option<int>>, k: int) -> bool {
    match via[k] {
        None => {
            &&& forall|y: usize| #[trigger] g.has_node(y as int) && !visit.take(k).contains(y) ==> visit[k] <= y
            &&& k > 0 ==> forall|f: int| !#[trigger] frontier_edge(g, visit, tree_start(via, k - 1), k, f)
        },
        Some(e) => {
            &&& k > 0
            &&& frontier_edge(g, visit, tree_start(via, k), k, e)
            &&& (g.src(e) == visit[k] || g.tgt(e) == visit[k])
            &&& forall|f: int| #[trigger] frontier_edge(g, visit, tree_start(via, k), k, f) ==> rank[e] <= rank[f]
        },
    }
}

/// `visit` lists every node once, in the order a run of Prim's algorithm
/// takes them in, and `via` the edge each was reached by.
pub open spec fn prim_run<A, W, Ty: GraphConstructor>(g: BaseGraph<A, W, Ty>, rank: Seq<u64>, visit: Seq<usize>,
    via: Seq<Option<int>>) -> bool {
    &&& visit.len() == via.len()
    &&& visit.no_duplicates()
    &&& forall|x: usize| #[trigger] visit.contains(x) <==> g.has_node(x as int)
    &&& forall|k: int| 0 <= k < visit.len() ==> #[trigger] prim_step(g, rank, visit, via, k)
}

/// The tree edges of the first `k` steps, in order: for each node reached
/// along an edge, that edge from its end in the tree to the new node.
pub open spec fn emitted<A, W, Ty: GraphConstructor>(g: BaseGraph<A, W, Ty>, visit: Seq<usize>, via: Seq<Option<int>>,
    k: int) -> Seq<MstEdge<W>>
    decreases k,
{
    if k <= 0 {
        seq![]
    } else {
        let prev = emitted(g, visit, via, k - 1);
        match via[k - 1] {
            Some(e) => prev.push(MstEdge {
                u: NodeId(other_end(g, e, visit[k - 1])),
                v: NodeId(visit[k - 1]),
                weight: g.weight(e),
            }),
            None => prev,
        }
    }
}

/// The node of a crossing edge that lies outside `visit`.
spec fn out_end<A, W, Ty: GraphConstructor>(g: BaseGraph<A, W, Ty>, visit: Seq<usize>, f: int) -> usize {
    if visit.contains(g.tgt(f)) { g.src(f) } else { g.tgt(f) }
}

/// The node of a crossing edge that lies inside `visit`.
spec fn in_end<A, W, Ty: GraphConstructor>(g: BaseGraph<A, W, Ty>, visit: Seq<usize>, f: int) -> usize {
    if visit.contains(g.tgt(f)) { g.tgt(f) } else { g.src(f) }
}

/// `adj[x]` lists, for each edge at `x`, the node at its other end and the
/// edge, and lists nothing else.
spec fn incidence_of<A, W, Ty: GraphConstructor>(g: BaseGraph<A, W, Ty>, adj: Seq<Vec<(usize, usize)>>) -> bool {
    &&& adj.len() == g.node_slots().len()
    &&& forall|x: int, j: int| 0 <= x < adj.len() && 0 <= j < adj[x]@.len() ==> {
        let (nb, f) = #[trigger] adj[x]@[j];
        &&& g.has_edge(f as int)
        &&& (g.src(f as int) == x && g.tgt(f as int) == nb) || (g.tgt(f as int) == x && g.src(f as int) == nb)
    }
    &&& forall|f: int| #[trigger] g.has_edge(f) ==> adj[g.src(f) as int]@.contains((g.tgt(f), f as usize))
        && adj[g.tgt(f) as int]@.contains((g.src(f), f as usize))
}

/// Every slot in the heap is outside the visit and waits with the rank of
/// its recorded edge, which joins it to the tree `visit[ts..]`.
spec fn heap_sound<A, W, Ty: GraphConstructor>(g: BaseGraph<A, W, Ty>, rank: Seq<u64>, visit: Seq<usize>, ts: int,
    hv: Seq<Option<u64>>, pe: Seq<usize>) -> bool {
    forall|x: int| 0 <= x < hv.len() && (#[trigger] hv[x]) is Some ==> {
        &&& !visit.contains(x as usize)
        &&& g.has_edge(pe[x] as int)
        &&& (g.src(pe[x] as int) == x && visit.subrange(ts, visit.len() as int).contains(g.tgt(pe[x] as int)))
            || (g.tgt(pe[x] as int) == x && visit.subrange(ts, visit.len() as int).contains(g.src(pe[x] as int)))
        &&& hv[x].unwrap() == rank[pe[x] as int]
    }
}

/// Every edge leaving the tree `visit[ts..]`, except those at `skip`, has
/// its outer node in the heap with a rank no larger than its own.
spec fn heap_covers<A, W, Ty: GraphConstructor>(g: BaseGraph<A, W, Ty>, rank: Seq<u64>, visit: Seq<usize>, ts: int,
    hv: Seq<Option<u64>>, skip: Option<usize>) -> bool {
    forall|f: int| #[trigger] frontier_edge(g, visit, ts, visit.len() as int, f) && skip != Some(in_end(g, visit, f)) ==>
        hv[out_end(g, visit, f) as int] is Some && hv[out_end(g, visit, f) as int].unwrap() <= rank[f]
}

/// The edges at each node, with the node at the other end.
fn incidence<A, W, Ty: GraphConstructor>(g: &BaseGraph<A, W, Ty>) -> (adj: Vec<Vec<(usize, usize)>>)
    requires
        g.wf(),
    ensures
        incidence_of(*g, adj@),
{
    let bound = g.node_bound();
    let mut adj: Vec<Vec<(usize, usize)>> = Vec::new();
    while adj.len() < bound
        invariant
            adj@.len() <= bound,
            forall|x: int| 0 <= x < adj@.len() ==> (#[trigger] adj@[x])@.len() == 0,
        decreases bound - adj@.len(),
    {
        adj.push(Vec::new());
    }
    let ebound = g.edge_bound();
    let mut k: usize = 0;
    while k < ebound
        invariant
            g.wf(),
            bound == g.node_slots().len(),
            ebound == g.edge_slots().len(),
            k <= ebound,
            adj@.len() == bound,
            forall|x: int, j: int| 0 <= x < adj@.len() && 0 <= j < adj@[x]@.len() ==> {
                let (nb, f) = #[trigger] adj@[x]@[j];
                &&& g.has_edge(f as int)
                &&& (g.src(f as int) == x && g.tgt(f as int) == nb) || (g.tgt(f as int) == x && g.src(f as int) == nb)
            },
            forall|f: int| 0 <= f < k && #[trigger] g.has_edge(f) ==> adj@[g.src(f) as int]@.contains((g.tgt(f), f as usize))
                && adj@[g.tgt(f) as int]@.contains((g.src(f), f as usize)),
        decreases ebound - k,
    {
        match g.edge_endpoints(crate::types::EdgeId(k)) {
            Some((u, v)) => {
                proof {
                    assert(g.has_node(u.0 as int) && g.has_node(v.0 as int));
                }
                let ghost a0 = adj@;
                let mut row: Vec<(usize, usize)> = Vec::new();
                adj.set_and_swap(u.0, &mut row);
                row.push((v.0, k));
                adj.set_and_swap(u.0, &mut row);
                let ghost a1 = adj@;
                let mut row2: Vec<(usize, usize)> = Vec::new();
                adj.set_and_swap(v.0, &mut row2);
                row2.push((u.0, k));
                adj.set_and_swap(v.0, &mut row2);
                proof {
                    assert forall|x: int, j: int| 0 <= x < adj@.len() && 0 <= j < adj@[x]@.len() implies {
                        let (nb, f) = #[trigger] adj@[x]@[j];
                        &&& g.has_edge(f as int)
                        &&& (g.src(f as int) == x && g.tgt(f as int) == nb) || (g.tgt(f as int) == x && g.src(f as int) == nb)
                    } by {
                        if x == v.0 && j == adj@[x]@.len() - 1 {
                        } else if x == v.0 {
                            assert(adj@[x]@[j] == a1[x]@[j]);
                            if x == u.0 && j == a1[x]@.len() - 1 {
                            } else if x == u.0 {
                                assert(a1[x]@[j] == a0[x]@[j]);
                            }
                        } else if x == u.0 && j == a1[x]@.len() - 1 {
                            assert(adj@[x]@[j] == a1[x]@[j]);
                        } else {
                            assert(adj@[x]@[j] == a0[x]@[j]);
                        }
                    }
                    assert forall|f: int| 0 <= f < k + 1 && #[trigger] g.has_edge(f) implies adj@[g.src(f) as int]@.contains((g.tgt(f), f as usize))
                        && adj@[g.tgt(f) as int]@.contains((g.src(f), f as usize)) by {
                        assert(g.has_node(g.src(f) as int) && g.has_node(g.tgt(f) as int));
                        if f < k {
                            let s = g.src(f) as int;
                            let t = g.tgt(f) as int;
                            let js = choose|js: int| 0 <= js < a0[s]@.len() && a0[s]@[js] == (g.tgt(f), f as usize);
                            let jt = choose|jt: int| 0 <= jt < a0[t]@.len() && a0[t]@[jt] == (g.src(f), f as usize);
                            assert(a1[s]@[js] == a0[s]@[js]);
                            assert(adj@[s]@[js] == a1[s]@[js]);
                            assert(a1[t]@[jt] == a0[t]@[jt]);
                            assert(adj@[t]@[jt] == a1[t]@[jt]);
                        } else {
                            assert(a1[u.0 as int]@[a1[u.0 as int]@.len() - 1] == (v.0, k));
                            assert(adj@[u.0 as int]@.contains((v.0, k))) by {
                                if u.0 == v.0 {
                                    assert(adj@[u.0 as int]@[a1[u.0 as int]@.len() - 1] == (v.0, k));
                                } else {
                                    assert(adj@[u.0 as int]@[a1[u.0 as int]@.len() - 1] == (v.0, k));
                                }
                            }
                            assert(adj@[v.0 as int]@[adj@[v.0 as int]@.len() - 1] == (u.0, k));
                        }
                    }
                }
            },
            None => {},
        }
        k = k + 1;
    }
    adj
}

/// Offers every edge at `node`, the newest node of the tree `visit[ts..]`, to
/// the heap: a neighbour outside the visit goes in, or has its key lowered,
/// when the edge's rank beats its key, and then records that edge.
fn prim_relax<A, W, Ty: GraphConstructor>(g: &BaseGraph<A, W, Ty>, adj: &Vec<Vec<(usize, usize)>>, rank: &Vec<u64>,
    in_tree: &Vec<bool>, parent_edge: &mut Vec<usize>, heap: &mut IndexedMinHeap, node: usize,
    Ghost(visit): Ghost<Seq<usize>>, Ghost(ts): Ghost<int>)
    requires
        g.wf(),
        incidence_of(*g, adj@),
        rank@.len() == g.edge_slots().len(),
        in_tree@.len() == g.node_slots().len(),
        forall|x: int| 0 <= x < in_tree@.len() ==> (#[trigger] in_tree@[x] <==> visit.contains(x as usize)),
        visit.len() > 0,
        visit.last() == node,
        node < g.node_slots().len(),
        0 <= ts < visit.len(),
        old(heap).wf(),
        old(heap)@.len() == g.node_slots().len(),
        old(parent_edge)@.len() == g.node_slots().len(),
        heap_sound(*g, rank@, visit, ts, old(heap)@, old(parent_edge)@),
        heap_covers(*g, rank@, visit, ts, old(heap)@, Some(node)),
    ensures
        final(heap).wf(),
        final(heap)@.len() == g.node_slots().len(),
        final(parent_edge)@.len() == g.node_slots().len(),
        heap_sound(*g, rank@, visit, ts, final(heap)@, final(parent_edge)@),
        heap_covers(*g, rank@, visit, ts, final(heap)@, None),
{
    let bound = g.node_bound();
    let row = &adj[node];
    let ghost tree = visit.subrange(ts, visit.len() as int);
    proof {
        assert(tree[tree.len() - 1] == node);
        assert(tree.contains(node));
    }
    let mut j: usize = 0;
    while j < row.len()
        invariant
            g.wf(),
            incidence_of(*g, adj@),
            row@ == adj@[node as int]@,
            rank@.len() == g.edge_slots().len(),
            bound == g.node_slots().len(),
            in_tree@.len() == bound,
            forall|x: int| 0 <= x < in_tree@.len() ==> (#[trigger] in_tree@[x] <==> visit.contains(x as usize)),
            visit.len() > 0,
            visit.last() == node,
            node < bound,
            0 <= ts < visit.len(),
            tree == visit.subrange(ts, visit.len() as int),
            tree.contains(node),
            j <= row@.len(),
            heap.wf(),
            heap@.len() == bound,
            parent_edge@.len() == bound,
            heap_sound(*g, rank@, visit, ts, heap@, parent_edge@),
            heap_covers(*g, rank@, visit, ts, heap@, Some(node)),
            forall|q: int| 0 <= q < j && #[trigger] frontier_edge(*g, visit, ts, visit.len() as int, row@[q].1 as int)
                && in_end(*g, visit, row@[q].1 as int) == node ==>
                heap@[out_end(*g, visit, row@[q].1 as int) as int] is Some
                && heap@[out_end(*g, visit, row@[q].1 as int) as int].unwrap() <= rank@[row@[q].1 as int],
        decreases row@.len() - j,
    {
        let (nb, f) = row[j];
        proof {
            assert(g.has_edge(f as int));
            assert((g.src(f as int) == node && g.tgt(f as int) == nb) || (g.tgt(f as int) == node && g.src(f as int) == nb));
            assert(g.has_node(nb as int));
        }
        let ghost hv0 = heap@;
        let ghost pe0 = parent_edge@;
        if !in_tree[nb] {
            let changed = heap.push_or_decrease(nb, rank[f]);
            if changed {
                parent_edge.set(nb, f);
            }
            proof {
                assert(!visit.contains(nb));
                assert forall|x: int| 0 <= x < heap@.len() && (#[trigger] heap@[x]) is Some implies {
                    &&& !visit.contains(x as usize)
                    &&& g.has_edge(parent_edge@[x] as int)
                    &&& (g.src(parent_edge@[x] as int) == x && tree.contains(g.tgt(parent_edge@[x] as int)))
                        || (g.tgt(parent_edge@[x] as int) == x && tree.contains(g.src(parent_edge@[x] as int)))
                    &&& heap@[x].unwrap() == rank@[parent_edge@[x] as int]
                } by {
                    if x == nb && changed {
                    } else {
                        assert(heap@[x] == hv0[x]);
                        assert(parent_edge@[x] == pe0[x]);
                    }
                }
                assert forall|h: int| #[trigger] frontier_edge(*g, visit, ts, visit.len() as int, h)
                    && Some(node) != Some(in_end(*g, visit, h)) implies
                    heap@[out_end(*g, visit, h) as int] is Some
                    && heap@[out_end(*g, visit, h) as int].unwrap() <= rank@[h] by {
                    let o = out_end(*g, visit, h) as int;
                    assert(hv0[o] is Some);
                }
                assert forall|q: int| 0 <= q < j + 1 && #[trigger] frontier_edge(*g, visit, ts, visit.len() as int, row@[q].1 as int)
                    && in_end(*g, visit, row@[q].1 as int) == node implies
                    heap@[out_end(*g, visit, row@[q].1 as int) as int] is Some
                    && heap@[out_end(*g, visit, row@[q].1 as int) as int].unwrap() <= rank@[row@[q].1 as int] by {
                    let o = out_end(*g, visit, row@[q].1 as int) as int;
                    if q < j {
                        assert(hv0[o] is Some);
                    } else {
                        let (nb2, f2) = adj@[node as int]@[q];
                        assert(g.has_edge(f2 as int));
                        assert(visit.take(visit.len() as int) =~= visit);
                        assert(o == nb);
                    }
                }
            }
        } else {
            proof {
                assert(visit.contains(nb));
                assert forall|q: int| 0 <= q < j + 1 && #[trigger] frontier_edge(*g, visit, ts, visit.len() as int, row@[q].1 as int)
                    && in_end(*g, visit, row@[q].1 as int) == node implies
                    heap@[out_end(*g, visit, row@[q].1 as int) as int] is Some
                    && heap@[out_end(*g, visit, row@[q].1 as int) as int].unwrap() <= rank@[row@[q].1 as int] by {
                    if q == j {
                        assert(visit.take(visit.len() as int) =~= visit);
                        assert(visit.subrange(ts, visit.len() as int).contains(node));
                        let s0 = visit.subrange(ts, visit.len() as int);
                        if s0.contains(g.src(f as int)) {
                            let i0 = choose|i0: int| 0 <= i0 < s0.len() && s0[i0] == g.src(f as int);
                            assert(visit[ts + i0] == g.src(f as int));
                        }
                        if s0.contains(g.tgt(f as int)) {
                            let i0 = choose|i0: int| 0 <= i0 < s0.len() && s0[i0] == g.tgt(f as int);
                            assert(visit[ts + i0] == g.tgt(f as int));
                        }
                    }
                }
            }
        }
        j = j + 1;
    }
    proof {
        assert forall|h: int| #[trigger] frontier_edge(*g, visit, ts, visit.len() as int, h) && None::<usize> != Some(in_end(*g, visit, h)) implies
            heap@[out_end(*g, visit, h) as int] is Some
            && heap@[out_end(*g, visit, h) as int].unwrap() <= rank@[h] by {
            if in_end(*g, visit, h) == node {
                assert(visit.take(visit.len() as int) =~= visit);
                let s0 = visit.subrange(ts, visit.len() as int);
                if s0.contains(g.src(h)) {
                    let i0 = choose|i0: int| 0 <= i0 < s0.len() && s0[i0] == g.src(h);
                    assert(visit[ts + i0] == g.src(h));
                }
                if s0.contains(g.tgt(h)) {
                    let i0 = choose|i0: int| 0 <= i0 < s0.len() && s0[i0] == g.tgt(h);
                    assert(visit[ts + i0] == g.tgt(h));
                }
                let q = if g.src(h) == node {
                    choose|q: int| 0 <= q < row@.len() && row@[q] == (g.tgt(h), h as usize)
                } else {
                    choose|q: int| 0 <= q < row@.len() && row@[q] == (g.src(h), h as usize)
                };
                assert(row@[q].1 == h);
            }
        }
    }
}

/// `tree_start` only looks back.
proof fn lemma_tree_start_extend(via: Seq<Option<int>>, o: Option<int>, k: int)
    requires
        0 <= k < via.len(),
    ensures
        tree_start(via.push(o), k) == tree_start(via, k),
        0 <= tree_start(via, k) <= k,
    decreases k,
{
    if k > 0 {
        assert(via.push(o)[k] == via[k]);
        lemma_tree_start_extend(via, o, k - 1);
    }
}

/// A step of a run stays a step when the run goes on.
proof fn lemma_step_extend<A, W, Ty: GraphConstructor>(g: BaseGraph<A, W, Ty>, rank: Seq<u64>, visit: Seq<usize>,
    via: Seq<Option<int>>, x: usize, o: Option<int>, k: int)
    requires
        visit.len() == via.len(),
        0 <= k < visit.len(),
        prim_step(g, rank, visit, via, k),
    ensures
        prim_step(g, rank, visit.push(x), via.push(o), k),
{
    let v2 = visit.push(x);
    let w2 = via.push(o);
    assert(v2.take(k) =~= visit.take(k));
    assert(v2[k] == visit[k]);
    assert(w2[k] == via[k]);
    lemma_tree_start_extend(via, o, k);
    if k > 0 {
        lemma_tree_start_extend(via, o, k - 1);
    }
    assert forall|s0: int, f: int| 0 <= s0 <= k implies #[trigger] frontier_edge(g, v2, s0, k, f)
        == frontier_edge(g, visit, s0, k, f) by {
        assert(v2.subrange(s0, k) =~= visit.subrange(s0, k));
    }
}

/// The tree edges of a prefix stay put when the run goes on.
proof fn lemma_emitted_extend<A, W, Ty: GraphConstructor>(g: BaseGraph<A, W, Ty>, visit: Seq<usize>,
    via: Seq<Option<int>>, x: usize, o: Option<int>, k: int)
    requires
        visit.len() == via.len(),
        0 <= k <= visit.len(),
    ensures
        emitted(g, visit.push(x), via.push(o), k) == emitted(g, visit, via, k),
    decreases k,
{
    if k > 0 {
        lemma_emitted_extend(g, visit, via, x, o, k - 1);
        assert(visit.push(x)[k - 1] == visit[k - 1]);
        assert(via.push(o)[k - 1] == via[k - 1]);
    }
}

/// Prim's algorithm, with edges compared by `rank` (one rank per edge slot;
/// a lower rank is a lighter edge): from the lowest node not yet visited it
/// grows a tree, each time along an edge of least rank that leaves the tree
/// (ties go as the heap orders them), until no edge leaves it, and starts
/// the next tree; every edge of each tree is reported from its end in the
/// tree to the new node, with its weight. Treats every edge as undirected.
/// Fails on a graph without nodes.
#[verifier::rlimit(50)]
#[verifier::spinoff_prover]
pub fn prim_mst<A, W: Copy, Ty: GraphConstructor>(graph: &BaseGraph<A, W, Ty>, rank: &Vec<u64>)
    -> (r: Result<Vec<MstEdge<W>>, GraphinaError>)
    requires
        graph.wf(),
        rank@.len() == graph.edge_slots().len(),
    ensures
        r is Err <==> graph.spec_node_count() == 0,
        r is Err ==> r->Err_0 is InvalidGraph && r->Err_0->InvalidGraph_0@ == empty_mst_message(),
        r is Ok ==> exists|visit: Seq<usize>, via: Seq<Option<int>>| #[trigger] prim_run(*graph, rank@, visit, via)
            && r->Ok_0@ == emitted(*graph, visit, via, visit.len() as int),
{
    if graph.node_count() == 0 {
        return Err(GraphinaError::invalid_graph("Graph is empty, cannot compute MST."));
    }
    let bound = graph.node_bound();
    let adj = incidence(graph);
    let nodes = graph.node_ids();
    let ghost ns = graph.spec_node_ids();
    proof {
        crate::types::lemma_live_indices(graph.node_slots());
        assert(ids(nodes@) == ns);
    }
    let mut in_tree = crate::traversal::falses(bound);
    let mut parent_edge: Vec<usize> = Vec::new();
    while parent_edge.len() < bound
        invariant
            parent_edge@.len() <= bound,
        decreases bound - parent_edge@.len(),
    {
        parent_edge.push(0);
    }
    let mut heap = IndexedMinHeap::new(bound);
    let mut result: Vec<MstEdge<W>> = Vec::new();
    let ghost mut visit: Seq<usize> = Seq::empty();
    let ghost mut via: Seq<Option<int>> = Seq::empty();
    proof {
        assert forall|x: int| 0 <= x < in_tree@.len() implies (#[trigger] in_tree@[x] <==> visit.contains(x as usize)) by {}
    }
    let mut p: usize = 0;
    while p < nodes.len()
        invariant
            graph.wf(),
            incidence_of(*graph, adj@),
            rank@.len() == graph.edge_slots().len(),
            bound == graph.node_slots().len(),
            ids(nodes@) == ns,
            ns == graph.spec_node_ids(),
            forall|i: int| 0 <= i < ns.len() ==> (#[trigger] ns[i]) < bound && graph.has_node(ns[i] as int),
            forall|i: int, j: int| 0 <= i < j < ns.len() ==> (#[trigger] ns[i]) < #[trigger] ns[j],
            forall|x: int| 0 <= x < bound && #[trigger] graph.has_node(x) ==> ns.contains(x as usize),
            p <= nodes@.len(),
            in_tree@.len() == bound,
            parent_edge@.len() == bound,
            heap.wf(),
            heap@.len() == bound,
            forall|x: int| 0 <= x < bound ==> #[trigger] heap@[x] is None,
            forall|x: int| 0 <= x < in_tree@.len() ==> (#[trigger] in_tree@[x] <==> visit.contains(x as usize)),
            forall|k: int| 0 <= k < visit.len() ==> graph.has_node(#[trigger] visit[k] as int),
            visit.no_duplicates(),
            visit.len() == via.len(),
            forall|k: int| 0 <= k < visit.len() ==> #[trigger] prim_step(*graph, rank@, visit, via, k),
            visit.len() > 0 ==> forall|f: int| !#[trigger] frontier_edge(*graph, visit, tree_start(via, visit.len() - 1),
                visit.len() as int, f),
            forall|j: int| 0 <= j < p ==> visit.contains(#[trigger] ns[j]),
            result@ == emitted(*graph, visit, via, visit.len() as int),
        decreases nodes@.len() - p,
    {
        let start = nodes[p].0;
        proof {
            assert(ns[p as int] == start);
        }
        if !in_tree[start] {
            let ghost n0 = visit.len();
            let ghost v0 = visit;
            let ghost w0 = via;
            proof {
                assert forall|y: usize| #[trigger] graph.has_node(y as int) && !v0.take(n0 as int).contains(y) implies start <= y by {
                    assert(v0.take(n0 as int) =~= v0);
                    assert(ns.contains(y));
                    let jj = choose|jj: int| 0 <= jj < ns.len() && ns[jj] == y;
                    if jj < p {
                        assert(visit.contains(ns[jj]));
                    } else if jj > p {
                        assert(ns[p as int] < ns[jj]);
                    }
                }
                assert forall|k: int| 0 <= k < n0 implies #[trigger] prim_step(*graph, rank@, v0.push(start), w0.push(None), k) by {
                    lemma_step_extend(*graph, rank@, v0, w0, start, None, k);
                }
                lemma_emitted_extend(*graph, v0, w0, start, None, n0 as int);
                if n0 > 0 {
                    lemma_tree_start_extend(w0, None, n0 - 1);
                    assert forall|f: int| !#[trigger] frontier_edge(*graph, v0.push(start), tree_start(w0.push(None), n0 - 1), n0 as int, f) by {
                        let s0 = tree_start(w0, n0 - 1);
                        assert(v0.push(start).subrange(s0, n0 as int) =~= v0.subrange(s0, n0 as int));
                        assert(v0.push(start).take(n0 as int) =~= v0.take(n0 as int));
                        assert(v0.take(n0 as int) =~= v0);
                        assert(!frontier_edge(*graph, v0, tree_start(w0, n0 - 1), n0 as int, f));
                    }
                }
                visit = v0.push(start);
                via = w0.push(None);
                assert(v0.push(start).take(n0 as int) =~= v0);
                assert(prim_step(*graph, rank@, visit, via, n0 as int));
                assert(tree_start(via, n0 as int) == n0);
            }
            in_tree.set(start, true);
            let ghost ts: int = n0 as int;
            proof {
                assert(visit.no_duplicates()) by {
                    assert(!v0.contains(start));
                    assert forall|i: int, j: int| 0 <= i < j < visit.len() implies visit[i] != visit[j] by {
                        if j == n0 {
                            assert(v0.contains(v0[i]));
                        }
                    }
                }
                assert forall|x: int| 0 <= x < in_tree@.len() implies (#[trigger] in_tree@[x] <==> visit.contains(x as usize)) by {
                    if x != start as int && visit.contains(x as usize) {
                        let i = choose|i: int| 0 <= i < visit.len() && visit[i] == x as usize;
                        assert(v0[i] == x as usize);
                    }
                    if v0.contains(x as usize) {
                        let i = choose|i: int| 0 <= i < v0.len() && v0[i] == x as usize;
                        assert(visit[i] == x as usize);
                    }
                    if x == start as int {
                        assert(visit[n0 as int] == start);
                    }
                }
                assert forall|j: int| 0 <= j < p implies visit.contains(#[trigger] ns[j]) by {
                    assert(v0.contains(ns[j]));
                    let i = choose|i: int| 0 <= i < v0.len() && v0[i] == ns[j];
                    assert(visit[i] == ns[j]);
                }
                assert(visit.take(visit.len() as int) =~= visit);
                assert forall|f: int| #[trigger] frontier_edge(*graph, visit, ts, visit.len() as int, f)
                    && Some(start) != Some(in_end(*graph, visit, f)) implies
                    heap@[out_end(*graph, visit, f) as int] is Some
                    && heap@[out_end(*graph, visit, f) as int].unwrap() <= rank@[f] by {
                    let t0 = visit.subrange(ts, visit.len() as int);
                    assert(t0 =~= seq![start]);
                    if visit.contains(graph.tgt(f)) {
                        assert(t0.contains(graph.tgt(f)) || t0.contains(graph.src(f)));
                    }
                }
            }
            prim_relax(graph, &adj, rank, &in_tree, &mut parent_edge, &mut heap, start, Ghost(visit), Ghost(ts));
            proof {
                crate::types::lemma_count_true_bound(in_tree@);
            }
            loop
                invariant
                    graph.wf(),
                    incidence_of(*graph, adj@),
                    rank@.len() == graph.edge_slots().len(),
                    bound == graph.node_slots().len(),
                    in_tree@.len() == bound,
                    parent_edge@.len() == bound,
                    heap.wf(),
                    heap@.len() == bound,
                    forall|x: int| 0 <= x < in_tree@.len() ==> (#[trigger] in_tree@[x] <==> visit.contains(x as usize)),
                    forall|k: int| 0 <= k < visit.len() ==> graph.has_node(#[trigger] visit[k] as int),
                    visit.no_duplicates(),
                    visit.len() == via.len(),
                    0 <= ts < visit.len(),
                    tree_start(via, visit.len() - 1) == ts,
                    forall|k: int| 0 <= k < visit.len() ==> #[trigger] prim_step(*graph, rank@, visit, via, k),
                    heap_sound(*graph, rank@, visit, ts, heap@, parent_edge@),
                    heap_covers(*graph, rank@, visit, ts, heap@, None),
                    visit.contains(start),
                    forall|j: int| 0 <= j < p ==> visit.contains(#[trigger] ns[j]),
                    result@ == emitted(*graph, visit, via, visit.len() as int),
                    crate::types::count_true(in_tree@) <= bound,
                ensures
                    forall|x: int| 0 <= x < bound ==> #[trigger] heap@[x] is None,
                    forall|x: int| 0 <= x < in_tree@.len() ==> (#[trigger] in_tree@[x] <==> visit.contains(x as usize)),
                    forall|k: int| 0 <= k < visit.len() ==> graph.has_node(#[trigger] visit[k] as int),
                    visit.no_duplicates(),
                    visit.len() == via.len(),
                    visit.len() > 0,
                    forall|k: int| 0 <= k < visit.len() ==> #[trigger] prim_step(*graph, rank@, visit, via, k),
                    forall|f: int| !#[trigger] frontier_edge(*graph, visit, tree_start(via, visit.len() - 1),
                        visit.len() as int, f),
                    visit.contains(start),
                    forall|j: int| 0 <= j < p ==> visit.contains(#[trigger] ns[j]),
                    result@ == emitted(*graph, visit, via, visit.len() as int),
                    heap.wf(),
                    heap@.len() == bound,
                    in_tree@.len() == bound,
                    parent_edge@.len() == bound,
                decreases bound - crate::types::count_true(in_tree@),
            {
                let ghost hv0 = heap@;
                match heap.pop_min() {
                    None => {
                        proof {
                            assert forall|f: int| !#[trigger] frontier_edge(*graph, visit, tree_start(via, visit.len() - 1),
                                visit.len() as int, f) by {
                                if frontier_edge(*graph, visit, ts, visit.len() as int, f) {
                                    assert(hv0[out_end(*graph, visit, f) as int] is Some);
                                }
                            }
                        }
                        break;
                    },
                    Some(vi) => {
                        let e = parent_edge[vi];
                        proof {
                            assert(!visit.contains(vi));
                            assert(graph.has_edge(e as int));
                            assert(!in_tree@[vi as int]);
                        }
                        let (es, et) = graph.edge_endpoints(crate::types::EdgeId(e)).unwrap();
                        let from = if es.0 == vi { et.0 } else { es.0 };
                        let w = *graph.edge_weight(crate::types::EdgeId(e)).unwrap();
                        let ghost n0 = visit.len();
                        let ghost v0 = visit;
                        let ghost w0 = via;
                        proof {
                            crate::types::lemma_count_true_set(in_tree@, vi as int);
                            assert(v0.take(n0 as int) =~= v0);
                            let t0 = v0.subrange(ts, n0 as int);
                            assert(frontier_edge(*graph, v0, ts, n0 as int, e as int));
                            assert forall|f: int| #[trigger] frontier_edge(*graph, v0, ts, n0 as int, f) implies rank@[e as int] <= rank@[f] by {
                                let o = out_end(*graph, v0, f) as int;
                                assert(hv0[o] is Some);
                                assert(hv0[vi as int].unwrap() <= hv0[o].unwrap());
                            }
                            assert forall|k: int| 0 <= k < n0 implies #[trigger] prim_step(*graph, rank@, v0.push(vi), w0.push(Some(e as int)), k) by {
                                lemma_step_extend(*graph, rank@, v0, w0, vi, Some(e as int), k);
                            }
                            lemma_emitted_extend(*graph, v0, w0, vi, Some(e as int), n0 as int);
                            lemma_tree_start_extend(w0, Some(e as int), n0 - 1);
                            visit = v0.push(vi);
                            via = w0.push(Some(e as int));
                            assert(tree_start(via, n0 as int) == ts);
                            assert(visit.take(n0 as int) =~= v0);
                            assert(visit.subrange(ts, n0 as int) =~= t0);
                            assert forall|f: int| #[trigger] frontier_edge(*graph, visit, ts, n0 as int, f)
                                == frontier_edge(*graph, v0, ts, n0 as int, f) by {}
                            assert(prim_step(*graph, rank@, visit, via, n0 as int));
                        }
                        in_tree.set(vi, true);
                        proof {
                            crate::types::lemma_count_true_bound(in_tree@);
                        }
                        result.push(MstEdge { u: NodeId(from), v: NodeId(vi), weight: w });
                        proof {
                            assert(visit.no_duplicates()) by {
                                assert forall|i: int, j: int| 0 <= i < j < visit.len() implies visit[i] != visit[j] by {
                                    if j == n0 {
                                        assert(v0.contains(v0[i]));
                                    }
                                }
                            }
                            assert forall|x: int| 0 <= x < in_tree@.len() implies (#[trigger] in_tree@[x] <==> visit.contains(x as usize)) by {
                                if x != vi as int && visit.contains(x as usize) {
                                    let i = choose|i: int| 0 <= i < visit.len() && visit[i] == x as usize;
                                    assert(v0[i] == x as usize);
                                }
                                if v0.contains(x as usize) {
                                    let i = choose|i: int| 0 <= i < v0.len() && v0[i] == x as usize;
                                    assert(visit[i] == x as usize);
                                }
                                if x == vi as int {
                                    assert(visit[n0 as int] == vi);
                                }
                            }
                            assert(result@ == emitted(*graph, visit, via, visit.len() as int));
                            assert forall|j: int| 0 <= j < p implies visit.contains(#[trigger] ns[j]) by {
                                assert(v0.contains(ns[j]));
                                let i = choose|i: int| 0 <= i < v0.len() && v0[i] == ns[j];
                                assert(visit[i] == ns[j]);
                            }
                            assert(visit.contains(start)) by {
                                let i = choose|i: int| 0 <= i < v0.len() && v0[i] == start;
                                assert(visit[i] == start);
                            }
                            let t1 = visit.subrange(ts, visit.len() as int);
                            let t0 = v0.subrange(ts, n0 as int);
                            assert(t1 =~= t0.push(vi));
                            assert forall|x: int| 0 <= x < heap@.len() && (#[trigger] heap@[x]) is Some implies {
                                &&& !visit.contains(x as usize)
                                &&& graph.has_edge(parent_edge@[x] as int)
                                &&& (graph.src(parent_edge@[x] as int) == x && t1.contains(graph.tgt(parent_edge@[x] as int)))
                                    || (graph.tgt(parent_edge@[x] as int) == x && t1.contains(graph.src(parent_edge@[x] as int)))
                                &&& heap@[x].unwrap() == rank@[parent_edge@[x] as int]
                            } by {
                                assert(hv0[x] is Some);
                                assert(x != vi as int);
                                if visit.contains(x as usize) {
                                    let i = choose|i: int| 0 <= i < visit.len() && visit[i] == x as usize;
                                    assert(v0[i] == x as usize);
                                }
                                let pe = parent_edge@[x] as int;
                                if t0.contains(graph.tgt(pe)) {
                                    let i = choose|i: int| 0 <= i < t0.len() && t0[i] == graph.tgt(pe);
                                    assert(t1[i] == graph.tgt(pe));
                                }
                                if t0.contains(graph.src(pe)) {
                                    let i = choose|i: int| 0 <= i < t0.len() && t0[i] == graph.src(pe);
                                    assert(t1[i] == graph.src(pe));
                                }
                            }
                            assert(visit.take(visit.len() as int) =~= visit);
                            assert forall|f: int| #[trigger] frontier_edge(*graph, visit, ts, visit.len() as int, f)
                                && Some(vi) != Some(in_end(*graph, visit, f)) implies
                                heap@[out_end(*graph, visit, f) as int] is Some
                                && heap@[out_end(*graph, visit, f) as int].unwrap() <= rank@[f] by {
                                let s = graph.src(f);
                                let t = graph.tgt(f);
                                if t1.contains(s) {
                                    let i = choose|i: int| 0 <= i < t1.len() && t1[i] == s;
                                    if s != vi {
                                        assert(t0[i] == s);
                                    }
                                }
                                if t1.contains(t) {
                                    let i = choose|i: int| 0 <= i < t1.len() && t1[i] == t;
                                    if t != vi {
                                        assert(t0[i] == t);
                                    }
                                }
                                if v0.contains(s) {
                                    let i = choose|i: int| 0 <= i < v0.len() && v0[i] == s;
                                    assert(visit[i] == s);
                                }
                                if v0.contains(t) {
                                    let i = choose|i: int| 0 <= i < v0.len() && v0[i] == t;
                                    assert(visit[i] == t);
                                }
                                if t0.contains(s) {
                                    let i = choose|i: int| 0 <= i < t0.len() && t0[i] == s;
                                    assert(v0[ts + i] == s);
                                }
                                if t0.contains(t) {
                                    let i = choose|i: int| 0 <= i < t0.len() && t0[i] == t;
                                    assert(v0[ts + i] == t);
                                }
                                assert(frontier_edge(*graph, v0, ts, n0 as int, f));
                                assert(out_end(*graph, visit, f) == out_end(*graph, v0, f));
                                assert(hv0[out_end(*graph, v0, f) as int] is Some);
                            }
                        }
                        prim_relax(graph, &adj, rank, &in_tree, &mut parent_edge, &mut heap, vi, Ghost(visit), Ghost(ts));
                    },
                }
            }
        }
        p = p + 1;
    }
    proof {
        assert forall|x: usize| #[trigger] visit.contains(x) <==> graph.has_node(x as int) by {
            if visit.contains(x) {
                let i = choose|i: int| 0 <= i < visit.len() && visit[i] == x;
                assert(graph.has_node(visit[i] as int));
            }
            if graph.has_node(x as int) {
                assert(ns.contains(x));
                let jj = choose|jj: int| 0 <= jj < ns.len() && ns[jj] == x;
                assert(visit.contains(ns[jj]));
            }
        }
        assert(prim_run(*graph, rank@, visit, via));
    }
    Ok(result)
}

/// The tree edges as pairs of node indices, tree end first.
pub open spec fn tree_pairs<W>(es: Seq<MstEdge<W>>) -> Seq<(usize, usize)> {
    es.map_values(|e: MstEdge<W>| (e.u.0, e.v.0))
}

/// The tree holding position `k` starts no later than `k`, at a position
/// reached without an edge (or at the very first).
pub(crate) proof fn lemma_tree_start_bounds(via: Seq<Option<int>>, k: int)
    requires
        0 <= k < via.len(),
    ensures
        0 <= tree_start(via, k) <= k,
        tree_start(via, k) == 0 || via[tree_start(via, k)] is None,
    decreases k,
{
    if k > 0 && via[k] is Some {
        lemma_tree_start_bounds(via, k - 1);
    }
}

/// Positions between a tree's start and `k` belong to the same tree.
pub(crate) proof fn lemma_tree_start_range(via: Seq<Option<int>>, j: int, k: int)
    requires
        0 <= j <= k < via.len(),
        tree_start(via, k) <= j,
    ensures
        tree_start(via, j) == tree_start(via, k),
    decreases k - j,
{
    if j < k {
        assert(via[k] is Some);
        lemma_tree_start_range(via, j, k - 1);
    }
}

/// A node that no pair touches is joined to itself alone.
pub(crate) proof fn lemma_isolated(pairs: Seq<(usize, usize)>, v: usize, y: usize)
    requires
        forall|t: int| 0 <= t < pairs.len() ==> (#[trigger] pairs[t]).0 != v && pairs[t].1 != v,
        joined(pairs, v, y),
    ensures
        y == v,
{
    let l = linked(pairs);
    let s = |z: usize| z == v;
    assert forall|a: usize, b: usize| s(a) && #[trigger] l(a, b) implies s(b) by {
        let t = choose|t: int| 0 <= t < pairs.len() && ((#[trigger] pairs[t]).0 == a && pairs[t].1 == b || pairs[t].0 == b && pairs[t].1 == a);
    }
    lemma_closed_contains_connected(l, s, v, y);
}

/// What the first `k` steps of a run have emitted: pairs among the nodes
/// visited so far, none joining nodes that the pairs before it already
/// join, and every visited node joined to the start of its tree.
pub(crate) proof fn lemma_emitted_facts<A, W, Ty: GraphConstructor>(g: BaseGraph<A, W, Ty>, rank: Seq<u64>,
    visit: Seq<usize>, via: Seq<Option<int>>, k: int)
    requires
        prim_run(g, rank, visit, via),
        0 <= k <= visit.len(),
    ensures
        forall|t: int| 0 <= t < tree_pairs(emitted(g, visit, via, k)).len() ==>
            visit.take(k).contains((#[trigger] tree_pairs(emitted(g, visit, via, k))[t]).0)
            && visit.take(k).contains(tree_pairs(emitted(g, visit, via, k))[t].1),
        forall|t: int| 0 <= t < tree_pairs(emitted(g, visit, via, k)).len() ==> !joined(
            tree_pairs(emitted(g, visit, via, k)).take(t), (#[trigger] tree_pairs(emitted(g, visit, via, k))[t]).0,
            tree_pairs(emitted(g, visit, via, k))[t].1),
        forall|j: int| 0 <= j < k ==> joined(tree_pairs(emitted(g, visit, via, k)), #[trigger] visit[j],
            visit[tree_start(via, j)]),
    decreases k,
{
    if k > 0 {
        let m = k - 1;
        lemma_emitted_facts(g, rank, visit, via, m);
        let p0 = tree_pairs(emitted(g, visit, via, m));
        let p1 = tree_pairs(emitted(g, visit, via, k));
        let v = visit[m];
        assert(visit.take(m) =~= visit.take(k).drop_last());
        assert forall|x: usize| visit.take(m).contains(x) implies visit.take(k).contains(x) by {
            let i = choose|i: int| 0 <= i < m && visit.take(m)[i] == x;
            assert(visit.take(k)[i] == x);
        }
        assert(visit.take(k)[m] == v);
        assert(!visit.take(m).contains(v)) by {
            if visit.take(m).contains(v) {
                let i = choose|i: int| 0 <= i < m && visit.take(m)[i] == v;
                assert(visit[i] == visit[m]);
            }
        }
        assert(prim_step(g, rank, visit, via, m));
        match via[m] {
            None => {
                assert(p1 =~= p0);
                lemma_tree_start_bounds(via, m);
                lemma_connects_refl(linked(p1), v);
            },
            Some(e) => {
                let ts = tree_start(via, m);
                lemma_tree_start_bounds(via, m);
                let u = other_end(g, e, v);
                let sub = visit.subrange(ts, m);
                assert(visit.take(m) =~= visit.take(m));
                assert(sub.contains(u)) by {
                    assert forall|x: usize| sub.contains(x) implies visit.take(m).contains(x) by {
                        let i = choose|i: int| 0 <= i < sub.len() && sub[i] == x;
                        assert(visit.take(m)[ts + i] == x);
                    }
                }
                let iu = choose|i: int| 0 <= i < sub.len() && sub[i] == u;
                let ju = ts + iu;
                assert(visit[ju] == u);
                assert(visit.take(m).contains(u)) by {
                    assert(visit.take(m)[ju] == u);
                }
                assert(p1 =~= p0.push((u, v)));
                assert forall|t: int| 0 <= t < p0.len() implies (#[trigger] p0[t]).0 != v && p0[t].1 != v by {}
                assert forall|t: int| 0 <= t < p1.len() implies visit.take(k).contains((#[trigger] p1[t]).0)
                    && visit.take(k).contains(p1[t].1) by {
                    if t < p0.len() {
                        assert(p1[t] == p0[t]);
                    }
                }
                assert(!joined(p0, u, v)) by {
                    if joined(p0, u, v) {
                        lemma_joined_sym(p0, u, v);
                        lemma_isolated(p0, v, u);
                    }
                }
                assert forall|t: int| 0 <= t < p1.len() implies !joined(p1.take(t), (#[trigger] p1[t]).0, p1[t].1) by {
                    if t < p0.len() {
                        assert(p1.take(t) =~= p0.take(t));
                        assert(p1[t] == p0[t]);
                    } else {
                        assert(p1.take(t) =~= p0);
                    }
                }
                assert forall|j: int| 0 <= j < k implies joined(p1, #[trigger] visit[j], visit[tree_start(via, j)]) by {
                    if j < m {
                        lemma_joined_push(p0, u, v, visit[j], visit[tree_start(via, j)]);
                    } else {
                        lemma_tree_start_range(via, ju, m);
                        assert(joined(p0, visit[ju], visit[tree_start(via, ju)]));
                        lemma_joined_push(p0, u, v, u, visit[ts]);
                        lemma_connects_refl(linked(p0), u);
                        lemma_connects_refl(linked(p0), v);
                        lemma_joined_push(p0, u, v, v, u);
                        lemma_connects_trans(linked(p1), v, u, visit[ts]);
                    }
                }
            },
        }
    }
}

/// The two ends of an edge lie in the same tree.
pub(crate) proof fn lemma_edge_in_one_tree<A, W, Ty: GraphConstructor>(g: BaseGraph<A, W, Ty>, rank: Seq<u64>,
    visit: Seq<usize>, via: Seq<Option<int>>, f: int, ka: int, kb: int, m: int)
    requires
        prim_run(g, rank, visit, via),
        g.has_edge(f),
        0 <= ka <= m <= kb < visit.len(),
        ka < kb,
        (visit[ka] == g.src(f) && visit[kb] == g.tgt(f)) || (visit[ka] == g.tgt(f) && visit[kb] == g.src(f)),
    ensures
        tree_start(via, m) <= ka,
    decreases m - ka,
{
    lemma_tree_start_bounds(via, m);
    if m > ka {
        lemma_edge_in_one_tree(g, rank, visit, via, f, ka, kb, m - 1);
        if via[m] is None {
            assert(prim_step(g, rank, visit, via, m));
            let s0 = tree_start(via, m - 1);
            lemma_tree_start_bounds(via, m - 1);
            assert(s0 <= ka);
            assert(visit.subrange(s0, m)[ka - s0] == visit[ka]);
            assert(visit.subrange(s0, m).contains(visit[ka]));
            assert(!visit.take(m).contains(visit[kb])) by {
                if visit.take(m).contains(visit[kb]) {
                    let i = choose|i: int| 0 <= i < m && visit.take(m)[i] == visit[kb];
                    assert(visit[i] == visit[kb]);
                }
            }
            assert(frontier_edge(g, visit, s0, m, f));
        }
    }
}

} // verus!
