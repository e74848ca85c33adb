//! Graph metrics on counts and distances: triangles at a node, and the
//! diameter and radius in hops.

use vstd::prelude::*;
use crate::types::{BaseGraph, GraphConstructor, NodeId, count_live, ids, live_indices};
use crate::subgraphs::{lemma_within_extend, lemma_within_last_step, within_hops};
use crate::walks::{connects, is_walk_in};

verus! {

/// Nodes `a` and `b` are joined by an edge: one from `a` to `b`, or, in an
/// undirected graph, one either way.
pub open spec fn tied<A, W, Ty: GraphConstructor>(g: BaseGraph<A, W, Ty>, a: usize, b: usize) -> bool {
    g.has_edge_between(a, b) || (!g.directed() && g.has_edge_between(b, a))
}

/// Among the entries `s[i + 1 .. j]`, how many are joined to `s[i]` (`tied`).
pub open spec fn row_links<A, W, Ty: GraphConstructor>(g: BaseGraph<A, W, Ty>, s: Seq<usize>, i: int, j: int) -> nat
    decreases j - i,
{
    if j <= i + 1 {
        0
    } else {
        row_links(g, s, i, j - 1) + if tied(g, s[i], s[j - 1]) { 1nat } else { 0nat }
    }
}

/// The number of pairs of positions `a < b` with `a < i` whose entries are
/// `tied`.
pub open spec fn linked_pairs<A, W, Ty: GraphConstructor>(g: BaseGraph<A, W, Ty>, s: Seq<usize>, i: int) -> nat
    decreases i,
{
    if i <= 0 {
        0
    } else {
        linked_pairs(g, s, i - 1) + row_links(g, s, i - 1, s.len() as int)
    }
}

/// `row_links` counts at most the entries it looks at.
proof fn lemma_row_links_bound<A, W, Ty: GraphConstructor>(g: BaseGraph<A, W, Ty>, s: Seq<usize>, i: int, j: int)
    requires
        0 <= i,
    ensures
        row_links(g, s, i, j) <= if j > i { (j - i) as nat } else { 0nat },
    decreases j - i,
{
    if j > i + 1 {
        lemma_row_links_bound(g, s, i, j - 1);
    }
}

/// `linked_pairs` over the first `i` rows is at most `i` times the length.
proof fn lemma_linked_pairs_bound<A, W, Ty: GraphConstructor>(g: BaseGraph<A, W, Ty>, s: Seq<usize>, i: int)
    requires
        0 <= i <= s.len(),
    ensures
        linked_pairs(g, s, i) <= i * s.len(),
    decreases i,
{
    if i > 0 {
        lemma_linked_pairs_bound(g, s, i - 1);
        lemma_row_links_bound(g, s, i - 1, s.len() as int);
        assert((i - 1) * s.len() + s.len() == i * s.len()) by (nonlinear_arith);
    }
}

/// Counts the triangles through `node`: the pairs of its neighbours (taken
/// in neighbour order) that an edge joins, from the earlier to the later or,
/// in an undirected graph, either way.
pub fn triangles<A, W, Ty: GraphConstructor>(graph: &BaseGraph<A, W, Ty>, node: NodeId) -> (count: usize)
    requires
        graph.wf(),
        graph.neighbor_seq(node.0).len() * graph.neighbor_seq(node.0).len() <= usize::MAX,
    ensures
        count == linked_pairs(*graph, graph.neighbor_seq(node.0), graph.neighbor_seq(node.0).len() as int),
{
    let neighbors = graph.neighbors(node);
    let ghost s = ids(neighbors@);
    let len = neighbors.len();
    let mut count: usize = 0;
    let mut i: usize = 0;
    while i < len
        invariant
            len == neighbors@.len(),
            s == ids(neighbors@),
            s == graph.neighbor_seq(node.0),
            len * len <= usize::MAX,
            i <= len,
            count == linked_pairs(*graph, s, i as int),
        decreases len - i,
    {
        proof {
            lemma_linked_pairs_bound(*graph, s, i as int);
            assert(i * len + len <= len * len) by (nonlinear_arith)
                requires i < len;
        }
        let mut j: usize = i + 1;
        while j < len
            invariant
                len == neighbors@.len(),
                s == ids(neighbors@),
                i < len,
                i + 1 <= j <= len,
                len * len <= usize::MAX,
                linked_pairs(*graph, s, i as int) <= i * len,
                i * len + len <= len * len,
                count == linked_pairs(*graph, s, i as int) + row_links(*graph, s, i as int, j as int),
            decreases len - j,
        {
            proof {
                lemma_row_links_bound(*graph, s, i as int, j as int);
            }
            let tie = graph.contains_edge(neighbors[i], neighbors[j])
                || (!graph.is_directed() && graph.contains_edge(neighbors[j], neighbors[i]));
            if tie {
                count = count + 1;
            }
            j = j + 1;
        }
        i = i + 1;
    }
    count
}

/// Every existing node is reachable from every existing node.
pub open spec fn all_reach<A, W, Ty: GraphConstructor>(g: BaseGraph<A, W, Ty>) -> bool {
    forall|s: usize, x: usize| g.has_node(s as int) && g.has_node(x as int) ==> #[trigger] g.reachable(s, x)
}

/// `e` is the eccentricity of `s`: every existing node is within `e` steps of
/// `s`, and (when `e > 0`) some existing node is not within `e - 1` steps.
pub open spec fn is_eccentricity<A, W, Ty: GraphConstructor>(g: BaseGraph<A, W, Ty>, s: usize, e: nat) -> bool {
    &&& forall|x: usize| g.has_node(x as int) ==> #[trigger] within_hops(g, s, x, e)
    &&& e > 0 ==> exists|x: usize| g.has_node(x as int) && !(#[trigger] within_hops(g, s, x, (e - 1) as nat))
}

/// The nodes reachable from the existing node `s`, found breadth-first, and
/// the number of steps to the farthest of them.
#[verifier::rlimit(100)]
#[verifier::spinoff_prover]
fn bfs_levels<A, W, Ty: GraphConstructor>(g: &BaseGraph<A, W, Ty>, s: usize) -> (r: (Vec<usize>, usize))
    requires
        g.wf(),
        g.has_node(s as int),
    ensures
        r.0@.no_duplicates(),
        forall|x: usize| #[trigger] r.0@.contains(x) <==> g.reachable(s, x),
        forall|x: usize| #[trigger] r.0@.contains(x) ==> within_hops(*g, s, x, r.1 as nat),
        r.1 > 0 ==> exists|x: usize| #[trigger] r.0@.contains(x) && !within_hops(*g, s, x, (r.1 - 1) as nat),
        forall|j: int| 0 <= j < r.0@.len() ==> g.has_node(#[trigger] r.0@[j] as int),
{
    let bound = g.node_bound();
    let mut visited = crate::traversal::falses(bound);
    let mut result: Vec<usize> = Vec::new();
    visited.set(s, true);
    result.push(s);
    proof {
        let w = seq![s];
        assert(is_walk_in(g.adj(), w));
        assert forall|x: usize| #[trigger] result@.contains(x) <==> within_hops(*g, s, x, 0) by {
            if within_hops(*g, s, x, 0) {
                let w2 = choose|w: Seq<usize>| #[trigger] is_walk_in(g.adj(), w) && w[0] == s && w.last() == x && w.len() <= 1;
                assert(result@[0] == x);
            }
            if result@.contains(x) {
                assert(within_hops(*g, s, x, 0));
            }
        }
    }
    let mut level_start: usize = 0;
    let mut depth: usize = 0;
    loop
        invariant
            g.wf(),
            g.has_node(s as int),
            bound == g.node_slots().len(),
            bound <= usize::MAX,
            visited@.len() == bound,
            forall|v: int| 0 <= v < bound ==> (#[trigger] visited@[v] <==> result@.contains(v as usize)),
            result@.len() > 0 && result@[0] == s,
            result@.no_duplicates(),
            forall|j: int| 0 <= j < result@.len() ==> g.has_node(#[trigger] result@[j] as int),
            level_start < result@.len(),
            depth <= result@.len(),
            forall|x: usize| #[trigger] result@.contains(x) <==> within_hops(*g, s, x, depth as nat),
            forall|p: int, v: usize| 0 <= p < level_start && #[trigger] g.adj()(result@[p], v) ==> result@.contains(v),
            depth > 0 ==> !within_hops(*g, s, result@[level_start as int], (depth - 1) as nat),
        decreases bound - result@.len(),
    {
        proof {
            assert forall|i: int| 0 <= i < result@.len() implies #[trigger] result@[i] < bound by {
                assert(g.has_node(result@[i] as int));
            }
            crate::laws::lemma_distinct_below_len(result@, bound as usize);
        }
        let level_end = result.len();
        let ghost old_result = result@;
        assert(depth > 0 ==> !within_hops(*g, s, old_result[level_start as int], (depth - 1) as nat));
        let mut idx = level_start;
        while idx < level_end
            invariant
                g.wf(),
                bound == g.node_slots().len(),
                level_start <= idx <= level_end,
                level_end == old_result.len(),
                visited@.len() == bound,
                forall|v: int| 0 <= v < bound ==> (#[trigger] visited@[v] <==> result@.contains(v as usize)),
                result@.len() >= level_end,
                forall|j: int| 0 <= j < level_end ==> #[trigger] result@[j] == old_result[j],
                result@.len() > 0 && result@[0] == s,
                result@.no_duplicates(),
                forall|j: int| 0 <= j < result@.len() ==> g.has_node(#[trigger] result@[j] as int),
                forall|x: usize| #[trigger] old_result.contains(x) <==> within_hops(*g, s, x, depth as nat),
                forall|x: usize| #[trigger] result@.contains(x) ==> within_hops(*g, s, x, (depth + 1) as nat),
                forall|x: usize| #[trigger] result@.contains(x) && !old_result.contains(x) ==> !within_hops(*g, s, x, depth as nat),
                forall|x: usize| old_result.contains(x) ==> #[trigger] result@.contains(x),
                forall|p: int, v: usize| 0 <= p < idx && #[trigger] g.adj()(result@[p], v) ==> result@.contains(v),
            decreases level_end - idx,
        {
            let u = result[idx];
            let nbrs = g.neighbor_indices(u);
            proof {
                g.lemma_neighbors_exist(u);
                assert(old_result[idx as int] == u);
                assert(old_result.contains(u));
            }
            let mut t: usize = 0;
            while t < nbrs.len()
                invariant
                    g.wf(),
                    bound == g.node_slots().len(),
                    nbrs@ == g.neighbor_seq(u),
                    forall|x: usize| #[trigger] g.neighbor_seq(u).contains(x) ==> g.has_node(x as int),
                    within_hops(*g, s, u, depth as nat),
                    level_start <= idx < level_end,
                    level_end == old_result.len(),
                    result@[idx as int] == u,
                    t <= nbrs@.len(),
                    visited@.len() == bound,
                    forall|v: int| 0 <= v < bound ==> (#[trigger] visited@[v] <==> result@.contains(v as usize)),
                    result@.len() >= level_end,
                    forall|j: int| 0 <= j < level_end ==> #[trigger] result@[j] == old_result[j],
                    result@.len() > 0 && result@[0] == s,
                    result@.no_duplicates(),
                    forall|j: int| 0 <= j < result@.len() ==> g.has_node(#[trigger] result@[j] as int),
                    forall|x: usize| #[trigger] old_result.contains(x) <==> within_hops(*g, s, x, depth as nat),
                    forall|x: usize| #[trigger] result@.contains(x) ==> within_hops(*g, s, x, (depth + 1) as nat),
                    forall|x: usize| #[trigger] result@.contains(x) && !old_result.contains(x) ==> !within_hops(*g, s, x, depth as nat),
                    forall|x: usize| old_result.contains(x) ==> #[trigger] result@.contains(x),
                    forall|p: int, v: usize| 0 <= p < idx && #[trigger] g.adj()(result@[p], v) ==> result@.contains(v),
                    forall|q: int| 0 <= q < t ==> result@.contains(#[trigger] nbrs@[q]),
                decreases nbrs@.len() - t,
            {
                let v = nbrs[t];
                proof {
                    assert(g.neighbor_seq(u).contains(v));
                }
                if !visited[v] {
                    let ghost before = result@;
                    proof {
                        lemma_within_extend(*g, s, u, v, depth as nat);
                        assert(!before.contains(v));
                        assert(!old_result.contains(v)) by {
                            if old_result.contains(v) {
                                assert(before.contains(v));
                            }
                        }
                    }
                    visited.set(v, true);
                    result.push(v);
                    proof {
                        assert forall|a: int, b: int| 0 <= a < result@.len() && 0 <= b < result@.len() && a != b
                            implies result@[a] != result@[b] by {
                            if a < before.len() && b < before.len() {
                                assert(result@[a] == before[a] && result@[b] == before[b]);
                            } else if a < before.len() {
                                assert(result@[a] == before[a]);
                            } else {
                                assert(result@[b] == before[b]);
                            }
                        }
                        assert forall|x: usize| #[trigger] result@.contains(x) implies within_hops(*g, s, x, (depth + 1) as nat)
                            && (!old_result.contains(x) ==> !within_hops(*g, s, x, depth as nat)) by {
                            if x != v {
                                let p = choose|p: int| 0 <= p < result@.len() && result@[p] == x;
                                assert(before[p] == x);
                                assert(before.contains(x));
                            }
                        }
                        assert forall|x: usize| before.contains(x) implies #[trigger] result@.contains(x) by {
                            let p = choose|p: int| 0 <= p < before.len() && before[p] == x;
                            assert(result@[p] == x);
                        }
                        assert forall|x: usize| old_result.contains(x) implies #[trigger] result@.contains(x) by {
                            assert(before.contains(x));
                        }
                        assert forall|vv: int| 0 <= vv < bound implies (#[trigger] visited@[vv] <==> result@.contains(vv as usize)) by {
                            if vv != v as int {
                                assert(before.contains(vv as usize) ==> result@.contains(vv as usize));
                                if result@.contains(vv as usize) {
                                    let p = choose|p: int| 0 <= p < result@.len() && result@[p] == vv as usize;
                                    assert(before[p] == vv as usize);
                                }
                            } else {
                                assert(result@[before.len() as int] == v);
                            }
                        }
                        assert forall|q: int| 0 <= q < t + 1 implies result@.contains(#[trigger] nbrs@[q]) by {
                            if q < t {
                                assert(before.contains(nbrs@[q]));
                            } else {
                                assert(result@[before.len() as int] == v);
                            }
                        }
                        assert forall|p: int, w: usize| 0 <= p < idx && #[trigger] g.adj()(result@[p], w) implies result@.contains(w) by {
                            assert(result@[p] == before[p]);
                            assert(before.contains(w));
                        }
                    }
                }
                t = t + 1;
            }
            proof {
                assert forall|p: int, v: usize| 0 <= p < idx + 1 && #[trigger] g.adj()(result@[p], v) implies result@.contains(v) by {
                    if p == idx {
                        assert(nbrs@.contains(v));
                        let q = choose|q: int| 0 <= q < nbrs@.len() && nbrs@[q] == v;
                    }
                }
            }
            idx = idx + 1;
        }
        if result.len() == level_end {
            proof {
                assert(result@ =~= old_result);
                let set = |y: usize| result@.contains(y);
                assert forall|a: usize, b: usize| set(a) && #[trigger] g.adj()(a, b) implies set(b) by {
                    let p = choose|p: int| 0 <= p < result@.len() && result@[p] == a;
                }
                assert forall|x: usize| #[trigger] result@.contains(x) <==> g.reachable(s, x) by {
                    if g.reachable(s, x) {
                        assert(set(s)) by {
                            assert(result@[0] == s);
                        }
                        crate::walks::lemma_closed_contains_connected(g.adj(), set, s, x);
                    }
                    if result@.contains(x) {
                        let w = choose|w: Seq<usize>| #[trigger] is_walk_in(g.adj(), w) && w[0] == s && w.last() == x && w.len() <= depth + 1;
                        assert(connects(g.adj(), s, x));
                    }
                }
            }
            let ghost x = old_result[level_start as int];
            let r = (result, depth);
            proof {
                if depth > 0 {
                    assert(!within_hops(*g, s, x, (depth - 1) as nat));
                    assert(r.0@[level_start as int] == x);
                    assert(r.0@.contains(x));
                }
            }
            return r;
        }
        proof {
            assert forall|x: usize| within_hops(*g, s, x, (depth + 1) as nat) implies #[trigger] result@.contains(x) by {
                lemma_within_last_step(*g, s, x, depth as nat);
                if within_hops(*g, s, x, depth as nat) {
                    assert(old_result.contains(x));
                } else {
                    let p = choose|p: usize| within_hops(*g, s, p, depth as nat) && #[trigger] g.adj()(p, x);
                    assert(old_result.contains(p));
                    let q = choose|q: int| 0 <= q < old_result.len() && old_result[q] == p;
                    assert(result@[q] == p);
                }
            }
            let y = result@[level_end as int];
            assert(result@.contains(y));
            assert(!old_result.contains(y)) by {
                if old_result.contains(y) {
                    let q = choose|q: int| 0 <= q < old_result.len() && old_result[q] == y;
                    assert(result@[q] == y);
                }
            }
        }
        proof {
            assert forall|i: int| 0 <= i < result@.len() implies #[trigger] result@[i] < bound by {
                assert(g.has_node(result@[i] as int));
            }
            crate::laws::lemma_distinct_below_len(result@, bound as usize);
        }
        level_start = level_end;
        depth = depth + 1;
    }
}

/// A duplicate-free list of existing nodes is as long as the number of
/// nodes exactly when it lists every node.
proof fn lemma_lists_all_nodes<A, W, Ty: GraphConstructor>(g: BaseGraph<A, W, Ty>, found: Seq<usize>)
    requires
        found.no_duplicates(),
        forall|j: int| 0 <= j < found.len() ==> g.has_node(#[trigger] found[j] as int),
        g.node_slots().len() <= usize::MAX,
    ensures
        found.len() == g.spec_node_count() <==> forall|x: usize| g.has_node(x as int) ==> #[trigger] found.contains(x),
{
    broadcast use vstd::set::group_set_axioms, vstd::seq_lib::seq_to_set_is_finite;
    let live = live_indices(g.node_slots());
    crate::types::lemma_live_indices(g.node_slots());
    assert(live.no_duplicates()) by {
        assert forall|a: int, b: int| 0 <= a < live.len() && 0 <= b < live.len() && a != b implies live[a] != live[b] by {
            if a < b {
                assert(live[a] < live[b]);
            } else {
                assert(live[b] < live[a]);
            }
        }
    }
    found.unique_seq_to_set();
    live.unique_seq_to_set();
    let sf = found.to_set();
    let sl = live.to_set();
    assert(sf.subset_of(sl)) by {
        assert forall|x: usize| sf.contains(x) implies sl.contains(x) by {
            let p = choose|p: int| 0 <= p < found.len() && found[p] == x;
            assert(g.has_node(x as int));
            assert(g.node_slots()[x as int] is Some);
            assert(live.contains((x as int) as usize));
        }
    }
    if forall|x: usize| g.has_node(x as int) ==> #[trigger] found.contains(x) {
        assert(sl.subset_of(sf)) by {
            assert forall|x: usize| sl.contains(x) implies sf.contains(x) by {
                let p = choose|p: int| 0 <= p < live.len() && live[p] == x;
                assert(g.has_node(x as int));
                assert(found.contains(x));
            }
        }
        vstd::set_lib::lemma_len_subset(sl, sf);
        vstd::set_lib::lemma_len_subset(sf, sl);
    } else {
        let x = choose|x: usize| g.has_node(x as int) && !found.contains(x);
        assert(g.node_slots()[x as int] is Some);
        assert(live.contains((x as int) as usize));
        assert(sf.subset_of(sl.remove(x)));
        vstd::set_lib::lemma_len_subset(sf, sl.remove(x));
    }
}

/// The eccentricity of the existing node `s`, when `s` reaches every node.
fn eccentricity<A, W, Ty: GraphConstructor>(g: &BaseGraph<A, W, Ty>, s: usize) -> (r: Option<usize>)
    requires
        g.wf(),
        g.has_node(s as int),
    ensures
        r is Some <==> forall|x: usize| g.has_node(x as int) ==> #[trigger] g.reachable(s, x),
        r is Some ==> is_eccentricity(*g, s, r.unwrap() as nat),
{
    let (found, depth) = bfs_levels(g, s);
    let count = g.node_count();
    let bound = g.node_bound();
    proof {
        lemma_lists_all_nodes(*g, found@);
    }
    if found.len() == count {
        proof {
            assert forall|x: usize| g.has_node(x as int) implies #[trigger] within_hops(*g, s, x, depth as nat) by {
                assert(found@.contains(x));
            }
            assert forall|x: usize| g.has_node(x as int) implies #[trigger] g.reachable(s, x) by {
                assert(found@.contains(x));
            }
            if depth > 0 {
                let x = choose|x: usize| #[trigger] found@.contains(x) && !within_hops(*g, s, x, (depth - 1) as nat);
                let p = choose|p: int| 0 <= p < found@.len() && found@[p] == x;
                assert(g.has_node(x as int));
            }
        }
        Some(depth)
    } else {
        proof {
            assert(!(forall|x: usize| g.has_node(x as int) ==> #[trigger] found@.contains(x)));
            let x = choose|x: usize| !(g.has_node(x as int) ==> #[trigger] found@.contains(x));
            assert(g.has_node(x as int) && !found@.contains(x));
            assert(!g.reachable(s, x));
        }
        None
    }
}

/// The eccentricity of `s` is at most `b`.
pub open spec fn ecc_at_most<A, W, Ty: GraphConstructor>(g: BaseGraph<A, W, Ty>, s: usize, b: nat) -> bool {
    exists|e: nat| e <= b && #[trigger] is_eccentricity(g, s, e)
}

/// The eccentricity of `s` is at least `b`.
pub open spec fn ecc_at_least<A, W, Ty: GraphConstructor>(g: BaseGraph<A, W, Ty>, s: usize, b: nat) -> bool {
    exists|e: nat| e >= b && #[trigger] is_eccentricity(g, s, e)
}

/// The diameter in hops: the largest eccentricity. `None` for an empty graph
/// or when some node does not reach every node.
pub fn diameter<A, W, Ty: GraphConstructor>(graph: &BaseGraph<A, W, Ty>) -> (r: Option<usize>)
    requires
        graph.wf(),
    ensures
        r is None <==> graph.spec_node_count() == 0 || !all_reach(*graph),
        r is Some ==> (forall|s: usize| graph.has_node(s as int) ==> #[trigger] ecc_at_most(*graph, s, r.unwrap() as nat))
            && exists|s: usize| graph.has_node(s as int) && #[trigger] is_eccentricity(*graph, s, r.unwrap() as nat),
{
    if graph.is_empty() {
        return None;
    }
    let nodes = graph.node_ids();
    let bound = graph.node_bound();
    proof {
        crate::types::lemma_live_indices(graph.node_slots());
    }
    proof {
        assert forall|j: int| 0 <= j < nodes@.len() implies #[trigger] graph.has_node(nodes@[j].0 as int) by {
            assert(ids(nodes@)[j] == nodes@[j].0);
            assert(graph.spec_node_ids()[j] == nodes@[j].0);
        }
        assert(nodes@.len() > 0);
    }
    let mut best: usize = 0;
    let mut k: usize = 0;
    while k < nodes.len()
        invariant
            graph.wf(),
            bound == graph.node_slots().len(),
            ids(nodes@) == graph.spec_node_ids(),
            nodes@.len() > 0,
            forall|j: int| 0 <= j < nodes@.len() ==> #[trigger] graph.has_node(nodes@[j].0 as int),
            graph.spec_node_count() > 0,
            k <= nodes@.len(),
            k == 0 ==> best == 0,
            forall|j: int| 0 <= j < k ==> #[trigger] ecc_at_most(*graph, nodes@[j].0, best as nat),
            forall|j: int, x: usize| 0 <= j < k && graph.has_node(x as int) ==> #[trigger] graph.reachable(nodes@[j].0, x),
            k > 0 ==> exists|j: int| 0 <= j < k && is_eccentricity(*graph, #[trigger] nodes@[j].0, best as nat),
        decreases nodes@.len() - k,
    {
        let s = nodes[k].0;
        proof {
            assert(graph.has_node(nodes@[k as int].0 as int));
        }
        match eccentricity(graph, s) {
            None => {
                proof {
                    assert(!all_reach(*graph)) by {
                        let x = choose|x: usize| graph.has_node(x as int) && !(#[trigger] graph.reachable(s, x));
                        assert(!graph.reachable(s, x));
                    }
                }
                return None;
            },
            Some(e) => {
                if e > best {
                    proof {
                        assert forall|j: int| 0 <= j < k implies #[trigger] ecc_at_most(*graph, nodes@[j].0, e as nat) by {
                            assert(ecc_at_most(*graph, nodes@[j].0, best as nat));
                            let f = choose|f: nat| f <= best && #[trigger] is_eccentricity(*graph, nodes@[j].0, f);
                        }
                        assert(is_eccentricity(*graph, nodes@[k as int].0, e as nat));
                        assert(ecc_at_most(*graph, nodes@[k as int].0, e as nat));
                    }
                    best = e;
                } else {
                    proof {
                        assert(is_eccentricity(*graph, nodes@[k as int].0, e as nat));
                        assert(ecc_at_most(*graph, nodes@[k as int].0, best as nat));
                        if k > 0 {
                            let j = choose|j: int| 0 <= j < k && is_eccentricity(*graph, #[trigger] nodes@[j].0, best as nat);
                            assert(is_eccentricity(*graph, nodes@[j].0, best as nat));
                        } else {
                            assert(e == 0);
                        }
                    }
                }
            },
        }
        k = k + 1;
    }
    proof {
        assert forall|s: usize| graph.has_node(s as int) implies #[trigger] ecc_at_most(*graph, s, best as nat) by {
            assert(graph.node_slots()[s as int] is Some);
            assert(graph.spec_node_ids().contains((s as int) as usize));
            let j = choose|j: int| 0 <= j < graph.spec_node_ids().len() && graph.spec_node_ids()[j] == s;
            assert(ids(nodes@)[j] == nodes@[j].0);
        }
        assert(all_reach(*graph)) by {
            assert forall|s: usize, x: usize| graph.has_node(s as int) && graph.has_node(x as int)
                implies #[trigger] graph.reachable(s, x) by {
                assert(graph.node_slots()[s as int] is Some);
                assert(graph.spec_node_ids().contains((s as int) as usize));
                let j = choose|j: int| 0 <= j < graph.spec_node_ids().len() && graph.spec_node_ids()[j] == s;
                assert(ids(nodes@)[j] == nodes@[j].0);
            }
        }
    }
    let r = Some(best);
    proof {
        let j = choose|j: int| 0 <= j < nodes@.len() && is_eccentricity(*graph, #[trigger] nodes@[j].0, best as nat);
        assert(graph.has_node(nodes@[j].0 as int));
        assert(is_eccentricity(*graph, nodes@[j].0, r.unwrap() as nat));
        assert(forall|s: usize| graph.has_node(s as int) ==> #[trigger] ecc_at_most(*graph, s, r.unwrap() as nat));
    }
    r
}

/// The radius in hops: the smallest eccentricity. `None` for an empty graph
/// or when some node does not reach every node.
pub fn radius<A, W, Ty: GraphConstructor>(graph: &BaseGraph<A, W, Ty>) -> (r: Option<usize>)
    requires
        graph.wf(),
    ensures
        r is None <==> graph.spec_node_count() == 0 || !all_reach(*graph),
        r is Some ==> (forall|s: usize| graph.has_node(s as int) ==> #[trigger] ecc_at_least(*graph, s, r.unwrap() as nat))
            && exists|s: usize| graph.has_node(s as int) && #[trigger] is_eccentricity(*graph, s, r.unwrap() as nat),
{
    if graph.is_empty() {
        return None;
    }
    let nodes = graph.node_ids();
    let bound = graph.node_bound();
    proof {
        crate::types::lemma_live_indices(graph.node_slots());
    }
    proof {
        assert forall|j: int| 0 <= j < nodes@.len() implies #[trigger] graph.has_node(nodes@[j].0 as int) by {
            assert(ids(nodes@)[j] == nodes@[j].0);
            assert(graph.spec_node_ids()[j] == nodes@[j].0);
        }
        assert(nodes@.len() > 0);
    }
    let mut best: usize = usize::MAX;
    let mut k: usize = 0;
    while k < nodes.len()
        invariant
            graph.wf(),
            bound == graph.node_slots().len(),
            ids(nodes@) == graph.spec_node_ids(),
            nodes@.len() > 0,
            forall|j: int| 0 <= j < nodes@.len() ==> #[trigger] graph.has_node(nodes@[j].0 as int),
            graph.spec_node_count() > 0,
            k <= nodes@.len(),
            k == 0 ==> best == usize::MAX,
            forall|j: int| 0 <= j < k ==> #[trigger] ecc_at_least(*graph, nodes@[j].0, best as nat),
            forall|j: int, x: usize| 0 <= j < k && graph.has_node(x as int) ==> #[trigger] graph.reachable(nodes@[j].0, x),
            k > 0 ==> exists|j: int| 0 <= j < k && is_eccentricity(*graph, #[trigger] nodes@[j].0, best as nat),
        decreases nodes@.len() - k,
    {
        let s = nodes[k].0;
        proof {
            assert(graph.has_node(nodes@[k as int].0 as int));
        }
        match eccentricity(graph, s) {
            None => {
                proof {
                    assert(!all_reach(*graph)) by {
                        let x = choose|x: usize| graph.has_node(x as int) && !(#[trigger] graph.reachable(s, x));
                        assert(!graph.reachable(s, x));
                    }
                }
                return None;
            },
            Some(e) => {
                if e < best {
                    proof {
                        assert forall|j: int| 0 <= j < k implies #[trigger] ecc_at_least(*graph, nodes@[j].0, e as nat) by {
                            assert(ecc_at_least(*graph, nodes@[j].0, best as nat));
                            let f = choose|f: nat| f >= best && #[trigger] is_eccentricity(*graph, nodes@[j].0, f);
                        }
                        assert(is_eccentricity(*graph, nodes@[k as int].0, e as nat));
                        assert(ecc_at_least(*graph, nodes@[k as int].0, e as nat));
                    }
                    best = e;
                } else {
                    proof {
                        assert(is_eccentricity(*graph, nodes@[k as int].0, e as nat));
                        assert(ecc_at_least(*graph, nodes@[k as int].0, best as nat));
                        if k > 0 {
                            let j = choose|j: int| 0 <= j < k && is_eccentricity(*graph, #[trigger] nodes@[j].0, best as nat);
                            assert(is_eccentricity(*graph, nodes@[j].0, best as nat));
                        } else {
                            assert(e == usize::MAX);
                        }
                    }
                }
            },
        }
        k = k + 1;
    }
    proof {
        assert forall|s: usize| graph.has_node(s as int) implies #[trigger] ecc_at_least(*graph, s, best as nat) by {
            assert(graph.node_slots()[s as int] is Some);
            assert(graph.spec_node_ids().contains((s as int) as usize));
            let j = choose|j: int| 0 <= j < graph.spec_node_ids().len() && graph.spec_node_ids()[j] == s;
            assert(ids(nodes@)[j] == nodes@[j].0);
        }
        assert(all_reach(*graph)) by {
            assert forall|s: usize, x: usize| graph.has_node(s as int) && graph.has_node(x as int)
                implies #[trigger] graph.reachable(s, x) by {
                assert(graph.node_slots()[s as int] is Some);
                assert(graph.spec_node_ids().contains((s as int) as usize));
                let j = choose|j: int| 0 <= j < graph.spec_node_ids().len() && graph.spec_node_ids()[j] == s;
                assert(ids(nodes@)[j] == nodes@[j].0);
            }
        }
    }
    let r = Some(best);
    proof {
        let j = choose|j: int| 0 <= j < nodes@.len() && is_eccentricity(*graph, #[trigger] nodes@[j].0, best as nat);
        assert(graph.has_node(nodes@[j].0 as int));
        assert(is_eccentricity(*graph, nodes@[j].0, r.unwrap() as nat));
        assert(forall|s: usize| graph.has_node(s as int) ==> #[trigger] ecc_at_least(*graph, s, r.unwrap() as nat));
    }
    r
}

} // verus!
