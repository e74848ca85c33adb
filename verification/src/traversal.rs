//! Graph traversals: breadth-first search, depth-first search, iterative
//! deepening depth-first search and bidirectional search.
//!
//! Traversals follow `BaseGraph::neighbors`: edge direction in directed graphs,
//! both directions in undirected ones. The path searches have `try_…`
//! variants that report a missing path with `GraphinaNoPath`.

use vstd::prelude::*;
use crate::exceptions::GraphinaNoPath;
use crate::types::{
    BaseGraph, GraphConstructor, NodeId, ids, count_true, lemma_count_true_set,
    lemma_count_true_bound, lemma_count_true_none,
};
use crate::types::reversed;
use crate::walks::{connects, is_walk_in, lemma_connects_refl, lemma_connects_step,
    lemma_closed_contains_connected, flip, lemma_connects_flip};

verus! {

/// A vector of `n` copies of `false`.
pub fn falses(n: usize) -> (v: Vec<bool>)
    ensures
        v@.len() == n,
        forall|i: int| 0 <= i < n ==> !#[trigger] v@[i],
{
    let mut v: Vec<bool> = Vec::new();
    while v.len() < n
        invariant
            v@.len() <= n,
            forall|i: int| 0 <= i < v@.len() ==> !#[trigger] v@[i],
        decreases n - v@.len(),
    {
        v.push(false);
    }
    v
}

/// The set of nodes marked in `visited`.
pub open spec fn marked(visited: Seq<bool>) -> spec_fn(usize) -> bool {
    |v: usize| (v as int) < visited.len() && visited[v as int]
}

/// `u` has a neighbour that `seen` does not list.
#[verifier::opaque]
pub open spec fn has_fresh<A, W, Ty: GraphConstructor>(g: &BaseGraph<A, W, Ty>, seen: Seq<usize>, u: usize) -> bool {
    exists|y: usize| #[trigger] g.neighbor_seq(u).contains(y) && !seen.contains(y)
}

/// `x` is the first of `u`'s neighbours, in neighbour order, that `seen`
/// does not list.
#[verifier::opaque]
pub open spec fn first_fresh<A, W, Ty: GraphConstructor>(g: &BaseGraph<A, W, Ty>, seen: Seq<usize>, u: usize,
    x: usize) -> bool {
    exists|jj: int| 0 <= jj < g.neighbor_seq(u).len() && #[trigger] g.neighbor_seq(u)[jj] == x && !seen.contains(x)
        && forall|t: int| 0 <= t < jj ==> seen.contains(#[trigger] g.neighbor_seq(u)[t])
}

/// After the nodes `seen`, a search lists `x` next from `seen[j]`: `seen[j]`
/// still has an unlisted neighbour, `x` is the first one, and `seen[j]` is
/// the earliest listed node with an unlisted neighbour (breadth-first) or
/// the latest (depth-first, `deep`).
pub open spec fn next_pick<A, W, Ty: GraphConstructor>(g: &BaseGraph<A, W, Ty>, seen: Seq<usize>, j: int, x: usize,
    deep: bool) -> bool {
    &&& 0 <= j < seen.len()
    &&& has_fresh(g, seen, seen[j])
    &&& forall|t: int| (if deep { j < t < seen.len() } else { 0 <= t < j }) ==> !#[trigger] has_fresh(g, seen, seen[t])
    &&& first_fresh(g, seen, seen[j], x)
}

/// Node `k` of `order` is picked as `next_pick` says from the nodes before it.
pub open spec fn picked_at<A, W, Ty: GraphConstructor>(g: &BaseGraph<A, W, Ty>, order: Seq<usize>, k: int, deep: bool)
    -> bool {
    exists|j: int| #[trigger] next_pick(g, order.take(k), j, order[k], deep)
}

/// Every node of `order` after the first is picked as `next_pick` says from
/// the nodes before it.
pub open spec fn picked_in_turn<A, W, Ty: GraphConstructor>(g: &BaseGraph<A, W, Ty>, order: Seq<usize>, deep: bool)
    -> bool {
    forall|k: int| 1 <= k < order.len() ==> #[trigger] picked_at(g, order, k, deep)
}

/// `order` is the visiting order of a search from `s` that lists each node
/// once: `s` first; every later node is picked as `next_pick` says from the
/// nodes before it; and it stops only when no listed node has an unlisted
/// neighbour. With `deep` false this is breadth-first order (level by
/// level, a queue), with `deep` true depth-first preorder (a stack).
pub open spec fn search_order<A, W, Ty: GraphConstructor>(g: &BaseGraph<A, W, Ty>, s: usize, order: Seq<usize>,
    deep: bool) -> bool {
    &&& order.len() > 0
    &&& order[0] == s
    &&& picked_in_turn(g, order, deep)
    &&& forall|j: int| 0 <= j < order.len() ==> !#[trigger] has_fresh(g, order, order[j])
}

/// Performs a breadth-first search from `start` and returns the nodes in the
/// order they were visited: `start` first, then each node once, level by level.
/// The result is empty when `start` is not in the graph.
pub fn bfs<A, W, Ty: GraphConstructor>(graph: &BaseGraph<A, W, Ty>, start: NodeId) -> (order: Vec<NodeId>)
    requires
        graph.wf(),
    ensures
        !graph.has_node(start.0 as int) ==> order@.len() == 0,
        graph.has_node(start.0 as int) ==> order@.len() > 0 && order@[0] == start,
        ids(order@).no_duplicates(),
        forall|v: usize| #[trigger] ids(order@).contains(v) <==> graph.reachable(start.0, v),
        graph.has_node(start.0 as int) ==> search_order(graph, start.0, ids(order@), false),
{
    if !graph.contains_node(start) {
        return Vec::new();
    }
    let order = bfs_indices(graph, start.0);
    let mut r: Vec<NodeId> = Vec::new();
    let mut i: usize = 0;
    while i < order.len()
        invariant
            i <= order@.len(),
            r@.len() == i,
            forall|j: int| 0 <= j < i ==> #[trigger] r@[j].0 == order@[j],
        decreases order@.len() - i,
    {
        r.push(NodeId(order[i]));
        i = i + 1;
    }
    assert(ids(r@) =~= order@);
    r
}

/// Breadth-first order from an existing node, as node indices.
pub fn bfs_indices<A, W, Ty: GraphConstructor>(graph: &BaseGraph<A, W, Ty>, s: usize) -> (order: Vec<usize>)
    requires
        graph.wf(),
        graph.has_node(s as int),
    ensures
        order@.len() > 0,
        order@[0] == s,
        order@.no_duplicates(),
        forall|v: usize| #[trigger] order@.contains(v) <==> graph.reachable(s, v),
        search_order(graph, s, order@, false),
{
    let n = graph.node_bound();
    let mut visited = falses(n);
    let mut order: Vec<usize> = Vec::new();
    proof {
        lemma_count_true_none(visited@);
        lemma_count_true_set(visited@, s as int);
        lemma_connects_refl(graph.adj(), s);
    }
    visited.set(s, true);
    order.push(s);
    proof {
        assert forall|v: int| 0 <= v < n && #[trigger] visited@[v] implies order@.contains(v as usize) by {
            assert(v == s as int);
            assert(order@[0] == s);
        }
    }
    let mut head: usize = 0;
    while head < order.len()
        invariant
            graph.wf(),
            n == graph.node_slots().len(),
            visited@.len() == n,
            head <= order@.len(),
            order@.len() == count_true(visited@),
            order@.len() >= 1,
            order@[0] == s,
            graph.has_node(s as int),
            order@.no_duplicates(),
            forall|i: int| 0 <= i < order@.len() ==> (#[trigger] order@[i]) < n && visited@[order@[i] as int],
            forall|v: int| 0 <= v < n && #[trigger] visited@[v] ==> order@.contains(v as usize),
            forall|i: int| 0 <= i < order@.len() ==> connects(graph.adj(), s, #[trigger] order@[i]),
            forall|i: int, x: usize| 0 <= i < head && #[trigger] graph.neighbor_seq(order@[i]).contains(x)
                ==> (x as int) < n && visited@[x as int],
            picked_in_turn(graph, order@, false),
        decreases n - head,
    {
        proof {
            lemma_count_true_bound(visited@);
        }
        let u = order[head];
        let nbrs = graph.neighbor_indices(u);
        proof {
            graph.lemma_neighbors_exist(u);
        }
        let mut j: usize = 0;
        while j < nbrs.len()
            invariant
                graph.wf(),
                n == graph.node_slots().len(),
                visited@.len() == n,
                head < order@.len(),
                order@.len() == count_true(visited@),
                order@.len() >= 1,
                order@[0] == s,
                order@[head as int] == u,
                nbrs@ == graph.neighbor_seq(u),
                j <= nbrs@.len(),
                order@.no_duplicates(),
                forall|x: usize| #[trigger] graph.neighbor_seq(u).contains(x) ==> graph.has_node(x as int),
                forall|i: int| 0 <= i < order@.len() ==> (#[trigger] order@[i]) < n && visited@[order@[i] as int],
                forall|v: int| 0 <= v < n && #[trigger] visited@[v] ==> order@.contains(v as usize),
                forall|i: int| 0 <= i < order@.len() ==> connects(graph.adj(), s, #[trigger] order@[i]),
                forall|i: int, x: usize| 0 <= i < head && #[trigger] graph.neighbor_seq(order@[i]).contains(x)
                    ==> (x as int) < n && visited@[x as int],
                forall|jj: int| 0 <= jj < j ==> (#[trigger] nbrs@[jj] as int) < n && visited@[nbrs@[jj] as int],
                picked_in_turn(graph, order@, false),
            decreases nbrs@.len() - j,
        {
            let x = nbrs[j];
            assert(graph.neighbor_seq(u).contains(x));
            if !visited[x] {
                proof {
                    lemma_count_true_set(visited@, x as int);
                    lemma_count_true_bound(visited@.update(x as int, true));
                    assert(connects(graph.adj(), s, order@[head as int]));
                    lemma_connects_step(graph.adj(), s, u, x);
                }
                let ghost vb = visited@;
                visited.set(x, true);
                let ghost before = order@;
                order.push(x);
                proof {
                    assert(!before.contains(x)) by {
                        if before.contains(x) {
                            let i = choose|i: int| 0 <= i < before.len() && before[i] == x;
                            assert(vb[before[i] as int]);
                        }
                    }
                    assert(next_pick(graph, before, head as int, x, false)) by {
                        reveal(has_fresh);
                        reveal(first_fresh);
                        assert(graph.neighbor_seq(before[head as int]).contains(x));
                        assert forall|t: int| 0 <= t < head implies !#[trigger] has_fresh(graph, before, before[t]) by {
                            reveal(has_fresh);
                            if has_fresh(graph, before, before[t]) {
                                let y = choose|y: usize| #[trigger] graph.neighbor_seq(before[t]).contains(y)
                                    && !before.contains(y);
                                assert(vb[y as int]);
                            }
                        }
                        assert forall|tt: int| 0 <= tt < j implies before.contains(
                            #[trigger] graph.neighbor_seq(before[head as int])[tt]) by {
                            assert(vb[nbrs@[tt] as int]);
                        }
                        assert(graph.neighbor_seq(before[head as int])[j as int] == x);
                    }
                    assert(picked_in_turn(graph, before, false));
                    let ghost oo = order@;
                    assert forall|k: int| 1 <= k < oo.len() implies #[trigger] picked_at(graph, oo, k, false) by {
                        if k < before.len() {
                            assert(picked_at(graph, before, k, false));
                            let jw = choose|jw: int| #[trigger] next_pick(graph, before.take(k), jw, before[k], false);
                            assert(oo.take(k) =~= before.take(k));
                            assert(oo[k] == before[k]);
                            assert(next_pick(graph, oo.take(k), jw, oo[k], false));
                        } else {
                            assert(oo.take(k) =~= before);
                            assert(oo[k] == x);
                            assert(next_pick(graph, oo.take(k), head as int, oo[k], false));
                        }
                    }
                    assert(picked_in_turn(graph, oo, false));
                    assert forall|v: int| 0 <= v < n && #[trigger] visited@[v] implies order@.contains(v as usize) by {
                        if v == x as int {
                            assert(order@.last() == x);
                        } else {
                            assert(before.contains(v as usize));
                            let k = choose|k: int| 0 <= k < before.len() && before[k] == v as usize;
                            assert(order@[k] == v as usize);
                        }
                    }
                    assert forall|a: int, b: int| 0 <= a < order@.len() && 0 <= b < order@.len() && a != b
                        implies order@[a] != order@[b] by {
                        if a < before.len() && b < before.len() {
                        } else if a == before.len() {
                            assert(!visited@.update(x as int, false)[before[b] as int] || true);
                        }
                    }
                }
            }
            j = j + 1;
        }
        head = head + 1;
        proof {
            assert forall|i: int, x: usize| 0 <= i < head && #[trigger] graph.neighbor_seq(order@[i]).contains(x)
                implies (x as int) < n && visited@[x as int] by {
                if i == head - 1 {
                    let jj = choose|jj: int| 0 <= jj < nbrs@.len() && nbrs@[jj] == x;
                }
            }
        }
    }
    proof {
        let vis = visited@;
        let set = marked(vis);
        assert forall|u: usize, v: usize| set(u) && #[trigger] graph.adj()(u, v) implies set(v) by {
            let i = choose|i: int| 0 <= i < order@.len() && order@[i] == u;
            assert(graph.neighbor_seq(order@[i]).contains(v));
        }
        assert forall|v: usize| #[trigger] order@.contains(v) <==> graph.reachable(s, v) by {
            if order@.contains(v) {
                let i = choose|i: int| 0 <= i < order@.len() && order@[i] == v;
                assert(connects(graph.adj(), s, order@[i]));
            }
            if graph.reachable(s, v) {
                assert(set(s));
                lemma_closed_contains_connected(graph.adj(), set, s, v);
            }
        }
        assert forall|j: int| 0 <= j < order@.len() implies !#[trigger] has_fresh(graph, order@, order@[j]) by {
            reveal(has_fresh);
            if has_fresh(graph, order@, order@[j]) {
                let y = choose|y: usize| #[trigger] graph.neighbor_seq(order@[j]).contains(y) && !order@.contains(y);
                assert(visited@[y as int]);
            }
        }
    }
    order
}

/// Performs a depth-first search from `start` and returns the nodes in the
/// order they were first visited: `start` first, each reachable node once.
/// The result is empty when `start` is not in the graph.
pub fn dfs<A, W, Ty: GraphConstructor>(graph: &BaseGraph<A, W, Ty>, start: NodeId) -> (order: Vec<NodeId>)
    requires
        graph.wf(),
    ensures
        !graph.has_node(start.0 as int) ==> order@.len() == 0,
        graph.has_node(start.0 as int) ==> order@.len() > 0 && order@[0] == start,
        ids(order@).no_duplicates(),
        forall|v: usize| #[trigger] ids(order@).contains(v) <==> graph.reachable(start.0, v),
        graph.has_node(start.0 as int) ==> search_order(graph, start.0, ids(order@), true),
{
    if !graph.contains_node(start) {
        return Vec::new();
    }
    let s = start.0;
    let n = graph.node_bound();
    let mut visited = falses(n);
    let mut order: Vec<usize> = Vec::new();
    proof {
        lemma_count_true_none(visited@);
        lemma_connects_refl(graph.adj(), s);
        assert(order@ =~= Seq::<usize>::empty());
    }
    dfs_util(graph, s, s, &mut visited, &mut order);
    proof {
        let vis = visited@;
        let set = marked(vis);
        assert forall|u: usize, v: usize| set(u) && #[trigger] graph.adj()(u, v) implies set(v) by {
            let i = choose|i: int| 0 <= i < order@.len() && order@[i] == u;
            assert(graph.neighbor_seq(order@[i]).contains(v));
        }
        assert forall|v: usize| #[trigger] order@.contains(v) <==> graph.reachable(s, v) by {
            if order@.contains(v) {
                let i = choose|i: int| 0 <= i < order@.len() && order@[i] == v;
                assert(connects(graph.adj(), s, order@[i]));
            }
            if graph.reachable(s, v) {
                assert(set(s));
                lemma_closed_contains_connected(graph.adj(), set, s, v);
            }
        }
        assert forall|j: int| 0 <= j < order@.len() implies !#[trigger] has_fresh(graph, order@, order@[j]) by {
            reveal(has_fresh);
            if has_fresh(graph, order@, order@[j]) {
                let y = choose|y: usize| #[trigger] graph.neighbor_seq(order@[j]).contains(y) && !order@.contains(y);
                assert(visited@[y as int]);
            }
        }
    }
    let mut r: Vec<NodeId> = Vec::new();
    let mut i: usize = 0;
    while i < order.len()
        invariant
            i <= order@.len(),
            r@.len() == i,
            forall|j: int| 0 <= j < i ==> #[trigger] r@[j].0 == order@[j],
        decreases order@.len() - i,
    {
        r.push(NodeId(order[i]));
        i = i + 1;
    }
    assert(ids(r@) =~= order@);
    r
}

/// Visits `node` and, recursively, its unvisited neighbors. Every node this call
/// visits ends with all its neighbors visited.
fn dfs_util<A, W, Ty: GraphConstructor>(
    graph: &BaseGraph<A, W, Ty>,
    root: usize,
    node: usize,
    visited: &mut Vec<bool>,
    order: &mut Vec<usize>,
)
    requires
        graph.wf(),
        graph.has_node(node as int),
        old(visited)@.len() == graph.node_slots().len(),
        old(order)@.len() == count_true(old(visited)@),
        old(order)@.no_duplicates(),
        forall|i: int| 0 <= i < old(order)@.len() ==> (#[trigger] old(order)@[i] as int) < old(visited)@.len()
            && old(visited)@[old(order)@[i] as int],
        forall|v: int| 0 <= v < old(visited)@.len() && #[trigger] old(visited)@[v] ==> old(order)@.contains(v as usize),
        forall|i: int| 0 <= i < old(order)@.len() ==> connects(graph.adj(), root, #[trigger] old(order)@[i]),
        connects(graph.adj(), root, node),
        old(order)@.len() == 0 ==> node == root,
        !old(visited)@[node as int] && old(order)@.len() > 0 ==> exists|j: int| #[trigger] next_pick(graph,
            old(order)@, j, node, true),
        picked_in_turn(graph, old(order)@, true),
    ensures
        picked_in_turn(graph, final(order)@, true),
        final(visited)@.len() == old(visited)@.len(),
        final(order)@.len() == count_true(final(visited)@),
        final(order)@.no_duplicates(),
        final(order)@.len() >= old(order)@.len(),
        final(order)@.subrange(0, old(order)@.len() as int) == old(order)@,
        forall|i: int| 0 <= i < final(order)@.len() ==> (#[trigger] final(order)@[i] as int) < final(visited)@.len()
            && final(visited)@[final(order)@[i] as int],
        forall|v: int| 0 <= v < final(visited)@.len() && #[trigger] final(visited)@[v] ==> final(order)@.contains(v as usize),
        forall|v: int| 0 <= v < old(visited)@.len() && old(visited)@[v] ==> #[trigger] final(visited)@[v],
        forall|i: int| 0 <= i < final(order)@.len() ==> connects(graph.adj(), root, #[trigger] final(order)@[i]),
        final(visited)@[node as int],
        forall|i: int, x: usize| old(order)@.len() <= i < final(order)@.len()
            && #[trigger] graph.neighbor_seq(final(order)@[i]).contains(x)
            ==> (x as int) < final(visited)@.len() && final(visited)@[x as int],
        old(order)@.len() == 0 ==> final(order)@.len() > 0 && final(order)@[0] == root,
    decreases graph.node_slots().len() - count_true(old(visited)@),
{
    if visited[node] {
        assert(order@.subrange(0, order@.len() as int) =~= order@);
        return;
    }
    let ghost first = order@;
    let ghost vis0 = visited@;
    proof {
        lemma_count_true_set(visited@, node as int);
        lemma_count_true_bound(visited@.update(node as int, true));
    }
    visited.set(node, true);
    order.push(node);
    proof {
        let ghost before = first;
        assert forall|v: int| 0 <= v < visited@.len() && #[trigger] visited@[v] implies order@.contains(v as usize) by {
            if v == node as int {
                assert(order@.last() == node);
            } else {
                assert(before.contains(v as usize));
                let k = choose|k: int| 0 <= k < before.len() && before[k] == v as usize;
                assert(order@[k] == v as usize);
            }
        }
        let oo = order@;
        assert forall|k: int| 1 <= k < oo.len() implies #[trigger] picked_at(graph, oo, k, true) by {
            assert(oo.take(k) =~= first.take(k));
            if k < first.len() {
                assert(picked_at(graph, first, k, true));
                let jw = choose|jw: int| #[trigger] next_pick(graph, first.take(k), jw, first[k], true);
                assert(oo[k] == first[k]);
                assert(next_pick(graph, oo.take(k), jw, oo[k], true));
            } else {
                assert(first.take(k) =~= first);
                let jw = choose|jw: int| #[trigger] next_pick(graph, first, jw, node, true);
                assert(next_pick(graph, oo.take(k), jw, oo[k], true));
            }
        }
    }
    let nbrs = graph.neighbor_indices(node);
    proof {
        graph.lemma_neighbors_exist(node);
    }
    let mut j: usize = 0;
    while j < nbrs.len()
        invariant
            graph.wf(),
            graph.has_node(node as int),
            visited@.len() == graph.node_slots().len(),
            visited@.len() == vis0.len(),
            order@.len() == count_true(visited@),
            order@.no_duplicates(),
            order@.len() > first.len(),
            order@.subrange(0, first.len() as int) == first,
            order@[first.len() as int] == node,
            visited@[node as int],
            nbrs@ == graph.neighbor_seq(node),
            j <= nbrs@.len(),
            forall|x: usize| #[trigger] graph.neighbor_seq(node).contains(x) ==> graph.has_node(x as int),
            forall|i: int| 0 <= i < order@.len() ==> (#[trigger] order@[i] as int) < visited@.len()
                && visited@[order@[i] as int],
            forall|v: int| 0 <= v < visited@.len() && #[trigger] visited@[v] ==> order@.contains(v as usize),
            forall|v: int| 0 <= v < vis0.len() && vis0[v] ==> #[trigger] visited@[v],
            forall|i: int| 0 <= i < order@.len() ==> connects(graph.adj(), root, #[trigger] order@[i]),
            connects(graph.adj(), root, node),
            forall|i: int, x: usize| first.len() < i < order@.len()
                && #[trigger] graph.neighbor_seq(order@[i]).contains(x)
                ==> (x as int) < visited@.len() && visited@[x as int],
            forall|jj: int| 0 <= jj < j ==> (#[trigger] nbrs@[jj] as int) < visited@.len() && visited@[nbrs@[jj] as int],
            first.len() == 0 ==> node == root,
            first.len() == count_true(vis0),
            vis0 == old(visited)@,
            picked_in_turn(graph, order@, true),
        decreases nbrs@.len() - j,
    {
        let x = nbrs[j];
        assert(graph.neighbor_seq(node).contains(x));
        if !visited[x] {
            proof {
                lemma_connects_step(graph.adj(), root, node, x);
                lemma_count_true_bound(visited@);
                assert(count_true(visited@) > count_true(old(visited)@));
            }
            let ghost o1 = order@;
            let ghost v1 = visited@;
            proof {
                assert(!o1.contains(x)) by {
                    if o1.contains(x) {
                        let i = choose|i: int| 0 <= i < o1.len() && o1[i] == x;
                        assert(v1[o1[i] as int]);
                    }
                }
                let fj = first.len() as int;
                assert(o1[fj] == node);
                assert(next_pick(graph, o1, fj, x, true)) by {
                    reveal(has_fresh);
                    reveal(first_fresh);
                    assert(graph.neighbor_seq(o1[fj]).contains(x));
                    assert forall|t: int| fj < t < o1.len() implies !#[trigger] has_fresh(graph, o1, o1[t]) by {
                        if has_fresh(graph, o1, o1[t]) {
                            let y = choose|y: usize| #[trigger] graph.neighbor_seq(o1[t]).contains(y) && !o1.contains(y);
                            assert(v1[y as int]);
                        }
                    }
                    assert forall|tt: int| 0 <= tt < j implies o1.contains(
                        #[trigger] graph.neighbor_seq(o1[fj])[tt]) by {
                        assert(v1[nbrs@[tt] as int]);
                    }
                    assert(graph.neighbor_seq(o1[fj])[j as int] == x);
                }
            }
            dfs_util(graph, root, x, visited, order);
            proof {
                assert(order@.subrange(0, o1.len() as int) == o1);
                assert(order@.subrange(0, first.len() as int) =~= o1.subrange(0, first.len() as int));
                assert(order@[first.len() as int] == o1[first.len() as int]);
                assert forall|i: int, y: usize| first.len() < i < order@.len()
                    && #[trigger] graph.neighbor_seq(order@[i]).contains(y)
                    implies (y as int) < visited@.len() && visited@[y as int] by {
                    if i < o1.len() {
                        assert(order@[i] == o1[i]);
                        assert(v1[y as int]);
                    }
                }
                assert forall|jj: int| 0 <= jj < j + 1 implies (#[trigger] nbrs@[jj] as int) < visited@.len()
                    && visited@[nbrs@[jj] as int] by {
                    if jj < j {
                        assert(v1[nbrs@[jj] as int]);
                    }
                }
            }
        }
        j = j + 1;
    }
    proof {
        assert forall|i: int, x: usize| first.len() <= i < order@.len()
            && #[trigger] graph.neighbor_seq(order@[i]).contains(x)
            implies (x as int) < visited@.len() && visited@[x as int] by {
            if i == first.len() {
                let jj = choose|jj: int| 0 <= jj < nbrs@.len() && nbrs@[jj] == x;
            }
        }
    }
}

/// `q` leads from `a` to `b` along neighbors without visiting a node twice.
pub open spec fn simple_route<A, W, Ty: GraphConstructor>(
    graph: &BaseGraph<A, W, Ty>,
    q: Seq<usize>,
    a: usize,
    b: usize,
) -> bool {
    &&& is_walk_in(graph.adj(), q)
    &&& q[0] == a
    &&& q.last() == b
    &&& q.no_duplicates()
}

/// No node of `q` is in `avoid`.
pub open spec fn avoids(q: Seq<usize>, avoid: Seq<usize>) -> bool {
    forall|i: int| 0 <= i < q.len() ==> !avoid.contains(#[trigger] q[i])
}

/// No route of at most `depth` steps leads from `a` to `b` while avoiding `avoid`.
pub open spec fn no_route<A, W, Ty: GraphConstructor>(
    graph: &BaseGraph<A, W, Ty>,
    a: usize,
    b: usize,
    depth: nat,
    avoid: Seq<usize>,
) -> bool {
    forall|q: Seq<usize>| #[trigger] simple_route(graph, q, a, b) && q.len() <= depth + 1 && avoids(q, avoid)
        ==> false
}

/// Every walk can be shortened to one without repeated nodes, with the same ends.
pub proof fn lemma_shorten_walk(rel: spec_fn(usize, usize) -> bool, q: Seq<usize>) -> (r: Seq<usize>)
    requires
        is_walk_in(rel, q),
    ensures
        is_walk_in(rel, r),
        r[0] == q[0],
        r.last() == q.last(),
        r.no_duplicates(),
        r.len() <= q.len(),
    decreases q.len(),
{
    if q.no_duplicates() {
        q
    } else {
        let (i, j) = choose|i: int, j: int| 0 <= i < q.len() && 0 <= j < q.len() && i != j && q[i] == q[j];
        let (i, j) = if i < j { (i, j) } else { (j, i) };
        let r1 = q.take(i + 1) + q.skip(j + 1);
        assert forall|k: int| 0 <= k < r1.len() - 1 implies rel(#[trigger] r1[k], r1[k + 1]) by {
            if k < i {
                assert(r1[k] == q[k] && r1[k + 1] == q[k + 1]);
            } else if k == i {
                assert(r1[k] == q[j]);
                assert(r1[k + 1] == q[j + 1]);
                assert(rel(q[j], q[j + 1]));
            } else {
                let m = k - i + j;
                assert(r1[k] == q[m] && r1[k + 1] == q[m + 1]);
                assert(rel(q[m], q[m + 1]));
            }
        }
        assert(r1.last() == q.last()) by {
            if j == q.len() - 1 {
                assert(r1.last() == q[i]);
            } else {
                assert(r1.last() == q.skip(j + 1).last());
            }
        }
        lemma_shorten_walk(rel, r1)
    }
}

/// Iterative deepening depth-first search: searches with depth limits
/// `0, 1, …, max_depth` and returns the first path found, as node ids from
/// `start` to `target`: a path without repeated nodes, and no walk from
/// `start` to `target` is shorter. `None` when no walk of at most `max_depth`
/// steps exists.
pub fn iddfs<A, W, Ty: GraphConstructor>(
    graph: &BaseGraph<A, W, Ty>,
    start: NodeId,
    target: NodeId,
    max_depth: usize,
) -> (r: Option<Vec<NodeId>>)
    requires
        graph.wf(),
    ensures
        r is Some ==> simple_route(graph, ids(r.unwrap()@), start.0, target.0)
            && r.unwrap()@.len() <= max_depth + 1
            && forall|q: Seq<usize>| #[trigger] is_walk_in(graph.adj(), q) && q[0] == start.0
                && q.last() == target.0 ==> q.len() >= r.unwrap()@.len(),
        r is None ==> forall|q: Seq<usize>| #[trigger] is_walk_in(graph.adj(), q) && q[0] == start.0
            && q.last() == target.0 ==> q.len() > max_depth + 1,
{
    if !graph.contains_node(start) {
        proof {
            graph.lemma_missing_node_isolated(start.0);
        }
        if start.0 == target.0 {
            let mut v: Vec<NodeId> = Vec::new();
            v.push(start);
            proof {
                let q = ids(v@);
                assert(q =~= seq![start.0]);
                assert(is_walk_in(graph.adj(), q));
            }
            return Some(v);
        } else {
            proof {
                assert forall|q: Seq<usize>| #[trigger] is_walk_in(graph.adj(), q) && q[0] == start.0
                    && q.last() == target.0 implies q.len() > max_depth + 1 by {
                    assert(q.len() >= 2);
                    assert(graph.adj()(q[0], q[1]));
                    assert(graph.neighbor_seq(start.0).contains(q[1]));
                }
            }
            return None;
        }
    }
    let n = graph.node_bound();
    let mut depth: usize = 0;
    loop
        invariant
            graph.wf(),
            graph.has_node(start.0 as int),
            n == graph.node_slots().len(),
            depth <= max_depth,
            forall|q: Seq<usize>| #[trigger] is_walk_in(graph.adj(), q) && q[0] == start.0
                && q.last() == target.0 ==> q.len() > depth,
        decreases max_depth - depth,
    {
        let mut path: Vec<usize> = Vec::new();
        let mut on_path = falses(n);
        let found = dls(graph, start.0, target.0, depth, &mut on_path, &mut path);
        if found {
            assert(path@.subrange(0, 0) =~= Seq::<usize>::empty());
            assert(path@.subrange(0, path@.len() as int) =~= path@);
            let mut v: Vec<NodeId> = Vec::new();
            let mut i: usize = 0;
            while i < path.len()
                invariant
                    i <= path@.len(),
                    v@.len() == i,
                    forall|j: int| 0 <= j < i ==> #[trigger] v@[j].0 == path@[j],
                decreases path@.len() - i,
            {
                v.push(NodeId(path[i]));
                i = i + 1;
            }
            assert(ids(v@) =~= path@);
            return Some(v);
        }
        if depth == max_depth {
            proof {
                assert forall|q: Seq<usize>| #[trigger] is_walk_in(graph.adj(), q) && q[0] == start.0
                    && q.last() == target.0 implies q.len() > max_depth + 1 by {
                    let r = lemma_shorten_walk(graph.adj(), q);
                    if q.len() <= max_depth + 1 {
                        assert(simple_route(graph, r, start.0, target.0));
                        assert(avoids(r, Seq::<usize>::empty()));
                    }
                }
            }
            return None;
        }
        proof {
            assert forall|q: Seq<usize>| #[trigger] is_walk_in(graph.adj(), q) && q[0] == start.0
                && q.last() == target.0 implies q.len() > depth + 1 by {
                let r = lemma_shorten_walk(graph.adj(), q);
                if q.len() <= depth + 1 {
                    assert(simple_route(graph, r, start.0, target.0));
                    assert(avoids(r, Seq::<usize>::empty()));
                }
            }
        }
        depth = depth + 1;
    }
}

/// "Try" variant of `iddfs` that reports a missing path with `GraphinaNoPath`.
pub fn try_iddfs<A, W, Ty: GraphConstructor>(
    graph: &BaseGraph<A, W, Ty>,
    start: NodeId,
    target: NodeId,
    max_depth: usize,
) -> (r: Result<Vec<NodeId>, GraphinaNoPath>)
    requires
        graph.wf(),
    ensures
        r is Ok ==> simple_route(graph, ids(r->Ok_0@), start.0, target.0)
            && r->Ok_0@.len() <= max_depth + 1
            && forall|q: Seq<usize>| #[trigger] is_walk_in(graph.adj(), q) && q[0] == start.0
                && q.last() == target.0 ==> q.len() >= r->Ok_0@.len(),
        r is Err ==> r->Err_0.message@ == "No path found using IDDFS within the given depth limit"@
            && forall|q: Seq<usize>| #[trigger] is_walk_in(graph.adj(), q) && q[0] == start.0
                && q.last() == target.0 ==> q.len() > max_depth + 1,
{
    match iddfs(graph, start, target, max_depth) {
        Some(p) => Ok(p),
        None => Err(GraphinaNoPath::new("No path found using IDDFS within the given depth limit")),
    }
}

/// Depth-limited search from `current`: extends `path` with a route of at most
/// `depth` steps to `target` that avoids the nodes already on `path`, or leaves
/// `path` unchanged when there is none.
#[verifier::rlimit(100)]
#[verifier::spinoff_prover]
fn dls<A, W, Ty: GraphConstructor>(
    graph: &BaseGraph<A, W, Ty>,
    current: usize,
    target: usize,
    depth: usize,
    on_path: &mut Vec<bool>,
    path: &mut Vec<usize>,
) -> (found: bool)
    requires
        graph.wf(),
        graph.has_node(current as int),
        old(on_path)@.len() == graph.node_slots().len(),
        forall|v: int| 0 <= v < old(on_path)@.len() ==> (#[trigger] old(on_path)@[v] <==> old(path)@.contains(v as usize)),
        forall|i: int| 0 <= i < old(path)@.len() ==> (#[trigger] old(path)@[i] as int) < old(on_path)@.len(),
        !old(path)@.contains(current),
    ensures
        found ==> final(path)@.len() > old(path)@.len()
            && final(path)@.subrange(0, old(path)@.len() as int) == old(path)@
            && simple_route(graph, final(path)@.subrange(old(path)@.len() as int, final(path)@.len() as int), current, target)
            && final(path)@.len() - old(path)@.len() <= depth + 1
            && avoids(final(path)@.subrange(old(path)@.len() as int, final(path)@.len() as int), old(path)@),
        !found ==> final(path)@ == old(path)@ && final(on_path)@ == old(on_path)@
            && no_route(graph, current, target, depth as nat, old(path)@),
    decreases depth,
{
    let ghost p0 = path@;
    let ghost v0 = on_path@;
    path.push(current);
    on_path.set(current, true);
    if current == target {
        proof {
            let q = path@.subrange(p0.len() as int, path@.len() as int);
            assert(q =~= seq![current]);
            assert(is_walk_in(graph.adj(), q));
            assert(path@.subrange(0, p0.len() as int) =~= p0);
        }
        return true;
    }
    let ghost p1 = path@;
    let on_len = on_path.len();
    proof {
        assert forall|v: int| 0 <= v < on_path@.len() implies (#[trigger] on_path@[v] <==> p1.contains(v as usize)) by {
            if v == current as int {
                assert(p1[p0.len() as int] == current);
                assert(p1.contains(current));
                assert(on_path@[v]);
            } else {
                assert(on_path@[v] == v0[v]);
                assert(v0[v] <==> p0.contains(v as usize));
                if p1.contains(v as usize) {
                    let k = choose|k: int| 0 <= k < p1.len() && p1[k] == v as usize;
                    if k < p0.len() {
                        assert(p0[k] == v as usize);
                        assert(p0.contains(v as usize));
                    } else {
                        assert(p1[k] == current);
                    }
                }
                if p0.contains(v as usize) {
                    let k = choose|k: int| 0 <= k < p0.len() && p0[k] == v as usize;
                    assert(p1[k] == v as usize);
                    assert(p1.contains(v as usize));
                }
                assert(on_path@[v] == v0[v]);
            }
        }
    }
    if depth > 0 {
        let nbrs = graph.neighbor_indices(current);
        proof {
            graph.lemma_neighbors_exist(current);
        }
        let mut j: usize = 0;
        while j < nbrs.len()
            invariant
                graph.wf(),
                graph.has_node(current as int),
                current != target,
                depth > 0,
                nbrs@ == graph.neighbor_seq(current),
                j <= nbrs@.len(),
                path@ == p1,
                p1 == p0.push(current),
                on_path@.len() == graph.node_slots().len(),
                v0 == old(on_path)@,
                p0 == old(path)@,
                on_path@ == v0.update(current as int, true),
                !p0.contains(current),
                forall|v: int| 0 <= v < on_path@.len() ==> (#[trigger] on_path@[v] <==> p1.contains(v as usize)),
                forall|i: int| 0 <= i < p0.len() ==> (#[trigger] p0[i] as int) < on_path@.len(),
                forall|x: usize| #[trigger] graph.neighbor_seq(current).contains(x) ==> graph.has_node(x as int),
                forall|jj: int| 0 <= jj < j ==> p1.contains(#[trigger] nbrs@[jj])
                    || no_route(graph, nbrs@[jj], target, (depth - 1) as nat, p1),
            decreases nbrs@.len() - j,
        {
            let x = nbrs[j];
            assert(graph.neighbor_seq(current).contains(x));
            if !on_path[x] {
                assert(p1.contains(x) == false);
                assert forall|i: int| 0 <= i < path@.len() implies (#[trigger] path@[i] as int) < on_path@.len() by {
                    if i < p0.len() {
                        assert(path@[i] == p0[i]);
                    }
                }
                let sub = dls(graph, x, target, depth - 1, on_path, path);
                if sub {
                    proof {
                        let q = path@.subrange(p0.len() as int, path@.len() as int);
                        let qc = path@.subrange(p1.len() as int, path@.len() as int);
                        assert(path@.subrange(0, p1.len() as int) == p1);
                        assert(path@.subrange(0, p0.len() as int) =~= p0) by {
                            assert forall|i: int| 0 <= i < p0.len() implies path@[i] == p0[i] by {
                                assert(path@.subrange(0, p1.len() as int)[i] == p1[i]);
                            }
                        }
                        assert(q[0] == current) by {
                            assert(path@.subrange(0, p1.len() as int)[p0.len() as int] == p1[p0.len() as int]);
                        }
                        assert(q =~= seq![current] + qc);
                        assert(qc[0] == x);
                        assert forall|i: int| 0 <= i < q.len() - 1 implies graph.adj()(#[trigger] q[i], q[i + 1]) by {
                            if i == 0 {
                                assert(q[1] == qc[0]);
                            } else {
                                assert(q[i] == qc[i - 1] && q[i + 1] == qc[i]);
                                assert(graph.adj()(qc[i - 1], qc[i]));
                            }
                        }
                        assert(q.last() == qc.last());
                        assert forall|a: int, b: int| 0 <= a < q.len() && 0 <= b < q.len() && a != b
                            implies q[a] != q[b] by {
                            if a > 0 && b > 0 {
                                assert(q[a] == qc[a - 1] && q[b] == qc[b - 1]);
                            } else if a == 0 {
                                assert(q[b] == qc[b - 1]);
                                assert(!p1.contains(qc[b - 1]));
                                assert(p1.last() == current);
                            } else {
                                assert(q[a] == qc[a - 1]);
                                assert(!p1.contains(qc[a - 1]));
                                assert(p1.last() == current);
                            }
                        }
                        assert forall|i: int| 0 <= i < q.len() implies !p0.contains(#[trigger] q[i]) by {
                            if i > 0 {
                                assert(q[i] == qc[i - 1]);
                                assert(!p1.contains(qc[i - 1]));
                                if p0.contains(qc[i - 1]) {
                                    let k = choose|k: int| 0 <= k < p0.len() && p0[k] == qc[i - 1];
                                    assert(p1[k] == qc[i - 1]);
                                }
                            }
                        }
                    }
                    return true;
                }
            }
            j = j + 1;
        }
        proof {
            assert forall|q: Seq<usize>| #[trigger] simple_route(graph, q, current, target) && q.len() <= depth + 1
                && avoids(q, p0) implies false by {
                assert(q.len() >= 2);
                let y = q[1];
                assert(graph.adj()(q[0], q[1]));
                assert(nbrs@.contains(y));
                let jj = choose|jj: int| 0 <= jj < nbrs@.len() && nbrs@[jj] == y;
                if p1.contains(y) {
                    let k = choose|k: int| 0 <= k < p1.len() && p1[k] == y;
                    if k < p0.len() {
                        assert(p0[k] == y);
                        assert(!p0.contains(q[1]));
                    } else {
                        assert(y == current);
                        assert(q[0] == q[1]);
                    }
                } else {
                    let q2 = q.drop_first();
                    assert forall|i: int| 0 <= i < q2.len() - 1 implies graph.adj()(#[trigger] q2[i], q2[i + 1]) by {
                        assert(q2[i] == q[i + 1] && q2[i + 1] == q[i + 2]);
                        assert(graph.adj()(q[i + 1], q[i + 2]));
                    }
                    assert(q2.last() == q.last());
                    assert forall|i: int| 0 <= i < q2.len() implies !p1.contains(#[trigger] q2[i]) by {
                        assert(q2[i] == q[i + 1]);
                        assert(!p0.contains(q[i + 1]));
                        if p1.contains(q2[i]) {
                            let k = choose|k: int| 0 <= k < p1.len() && p1[k] == q2[i];
                            if k < p0.len() {
                                assert(p0[k] == q2[i]);
                            } else {
                                assert(q[i + 1] == q[0]);
                            }
                        }
                    }
                    assert(simple_route(graph, q2, y, target));
                    assert(no_route(graph, nbrs@[jj], target, (depth - 1) as nat, p1));
                }
            }
        }
    } else {
        proof {
            assert forall|q: Seq<usize>| #[trigger] simple_route(graph, q, current, target) && q.len() <= depth + 1
                && avoids(q, p0) implies false by {
                assert(q.len() == 1);
            }
        }
    }
    path.pop();
    on_path.set(current, false);
    proof {
        assert(path@ =~= p0);
        assert(on_path@ =~= v0) by {
            assert(!v0[current as int]);
        }
    }
    false
}

/// A search tree over the nodes marked in `vis`: every marked node other than
/// `root` has a marked parent one level closer to `root`, joined to it by an
/// edge followed forwards (parent to child) or, for a backward tree, backwards.
pub open spec fn search_tree<A, W, Ty: GraphConstructor>(
    graph: &BaseGraph<A, W, Ty>,
    vis: Seq<bool>,
    par: Seq<usize>,
    dist: Seq<nat>,
    root: usize,
    forward: bool,
) -> bool {
    let n = graph.node_slots().len();
    &&& vis.len() == n
    &&& par.len() == n
    &&& dist.len() == n
    &&& (root as int) < n
    &&& vis[root as int]
    &&& dist[root as int] == 0
    &&& forall|x: int| 0 <= x < n && #[trigger] vis[x] && x != root as int ==> {
        &&& (par[x] as int) < n
        &&& vis[par[x] as int]
        &&& dist[par[x] as int] + 1 == dist[x]
        &&& tree_step(graph, forward, par[x], x as usize)
    }
}

/// One step away from the root of a search tree: along an edge for a forward
/// tree, against it for a backward tree.
pub open spec fn tree_step<A, W, Ty: GraphConstructor>(
    graph: &BaseGraph<A, W, Ty>,
    forward: bool,
    u: usize,
    x: usize,
) -> bool {
    if forward { graph.adj()(u, x) } else { graph.adj()(x, u) }
}

/// A search queue over the marked nodes: it lists each marked node once, and
/// every node before `head` has all its tree steps marked.
pub open spec fn queue_ok<A, W, Ty: GraphConstructor>(
    graph: &BaseGraph<A, W, Ty>,
    q: Seq<usize>,
    head: int,
    vis: Seq<bool>,
    forward: bool,
) -> bool {
    &&& 0 <= head <= q.len()
    &&& q.len() == count_true(vis)
    &&& q.no_duplicates()
    &&& forall|i: int| 0 <= i < q.len() ==> (#[trigger] q[i] as int) < vis.len() && vis[q[i] as int]
    &&& forall|v: int| 0 <= v < vis.len() && #[trigger] vis[v] ==> q.contains(v as usize)
    &&& forall|i: int, x: usize| 0 <= i < head && #[trigger] tree_step(graph, forward, q[i], x)
        ==> (x as int) < vis.len() && vis[x as int]
}

/// Follows parents from `from` up to the root of a search tree.
fn climb<A, W, Ty: GraphConstructor>(
    graph: &BaseGraph<A, W, Ty>,
    par: &Vec<usize>,
    Ghost(vis): Ghost<Seq<bool>>,
    Ghost(dist): Ghost<Seq<nat>>,
    root: usize,
    from: usize,
    Ghost(forward): Ghost<bool>,
) -> (r: Vec<usize>)
    requires
        search_tree(graph, vis, par@, dist, root, forward),
        (from as int) < vis.len(),
        vis[from as int],
    ensures
        r@.len() >= 1,
        r@.len() == dist[from as int] + 1,
        r@[0] == from,
        r@.last() == root,
        forall|i: int| 0 <= i < r@.len() - 1 ==> if forward {
            graph.adj()(#[trigger] r@[i + 1], r@[i])
        } else {
            graph.adj()(#[trigger] r@[i], r@[i + 1])
        },
{
    let mut r: Vec<usize> = Vec::new();
    r.push(from);
    let mut cur = from;
    while cur != root
        invariant
            search_tree(graph, vis, par@, dist, root, forward),
            (cur as int) < vis.len(),
            vis[cur as int],
            r@.len() >= 1,
            r@.len() + dist[cur as int] == dist[from as int] + 1,
            r@[0] == from,
            r@.last() == cur,
            forall|i: int| 0 <= i < r@.len() - 1 ==> if forward {
                graph.adj()(#[trigger] r@[i + 1], r@[i])
            } else {
                graph.adj()(#[trigger] r@[i], r@[i + 1])
            },
        decreases dist[cur as int],
    {
        let ghost before = r@;
        let p = par[cur];
        r.push(p);
        proof {
            assert forall|i: int| 0 <= i < r@.len() - 1 implies if forward {
                graph.adj()(#[trigger] r@[i + 1], r@[i])
            } else {
                graph.adj()(#[trigger] r@[i], r@[i + 1])
            } by {
                if i < before.len() - 1 {
                    assert(r@[i] == before[i] && r@[i + 1] == before[i + 1]);
                } else {
                    assert(r@[i] == cur && r@[i + 1] == p);
                }
            }
        }
        cur = p;
    }
    r
}

/// Performs a bidirectional search between `start` and `target`: breadth-first
/// layers grow alternately from `start` (along edges) and from `target`
/// (against edges) until they meet. Returns a shortest path of node ids from
/// `start` to `target`, or `None` when `target` cannot be reached from `start`.
pub fn bidis<A, W, Ty: GraphConstructor>(
    graph: &BaseGraph<A, W, Ty>,
    start: NodeId,
    target: NodeId,
) -> (r: Option<Vec<NodeId>>)
    requires
        graph.wf(),
    ensures
        r is Some ==> simple_route(graph, ids(r.unwrap()@), start.0, target.0),
        r is Some ==> forall|q: Seq<usize>| #[trigger] is_walk_in(graph.adj(), q) && q[0] == start.0
            && q.last() == target.0 ==> q.len() >= r.unwrap()@.len(),
        r is None <==> start.0 != target.0 && !graph.reachable(start.0, target.0),
{
    if start.0 == target.0 {
        let mut v: Vec<NodeId> = Vec::new();
        v.push(start);
        proof {
            assert(ids(v@) =~= seq![start.0]);
            assert(is_walk_in(graph.adj(), ids(v@)));
        }
        return Some(v);
    }
    if !graph.contains_node(start) || !graph.contains_node(target) {
        proof {
            if graph.reachable(start.0, target.0) {
                let w = choose|w: Seq<usize>| #[trigger] is_walk_in(graph.adj(), w) && w[0] == start.0
                    && w.last() == target.0;
                assert(w.len() >= 2);
                let k = w.len() - 2;
                assert(graph.adj()(w[k], w[k + 1]));
                graph.lemma_neighbors_exist(w[k]);
                assert(graph.neighbor_seq(w[k]).contains(w[k + 1]));
            }
        }
        return None;
    }
    let found = bidis_indices(graph, start.0, target.0);
    match found {
        Some(path) => {
            let mut v: Vec<NodeId> = Vec::new();
            let mut i: usize = 0;
            while i < path.len()
                invariant
                    i <= path@.len(),
                    v@.len() == i,
                    forall|j: int| 0 <= j < i ==> #[trigger] v@[j].0 == path@[j],
                decreases path@.len() - i,
            {
                v.push(NodeId(path[i]));
                i = i + 1;
            }
            assert(ids(v@) =~= path@);
            proof {
                lemma_walk_connects(graph.adj(), path@);
                lemma_shortest_walk_simple(graph.adj(), path@);
            }
            Some(v)
        },
        None => None,
    }
}

proof fn lemma_walk_connects(rel: spec_fn(usize, usize) -> bool, w: Seq<usize>)
    requires
        is_walk_in(rel, w),
    ensures
        connects(rel, w[0], w.last()),
{
}

/// "Try" variant of `bidis` that reports a missing path with `GraphinaNoPath`.
pub fn try_bidirectional_search<A, W, Ty: GraphConstructor>(
    graph: &BaseGraph<A, W, Ty>,
    start: NodeId,
    target: NodeId,
) -> (r: Result<Vec<NodeId>, GraphinaNoPath>)
    requires
        graph.wf(),
    ensures
        r is Ok ==> simple_route(graph, ids(r->Ok_0@), start.0, target.0),
        r is Ok ==> forall|q: Seq<usize>| #[trigger] is_walk_in(graph.adj(), q) && q[0] == start.0
            && q.last() == target.0 ==> q.len() >= r->Ok_0@.len(),
        r is Err <==> start.0 != target.0 && !graph.reachable(start.0, target.0),
        r is Err ==> r->Err_0.message@ == "No path exists between the specified nodes"@,
{
    match bidis(graph, start, target) {
        Some(p) => Ok(p),
        None => Err(GraphinaNoPath::new("No path exists between the specified nodes")),
    }
}

/// `x` is at most `k` search steps from `root`: along edges for a forward
/// search, against them for a backward one.
pub open spec fn within_steps<A, W, Ty: GraphConstructor>(
    graph: &BaseGraph<A, W, Ty>,
    forward: bool,
    root: usize,
    x: usize,
    k: nat,
) -> bool
    decreases k,
{
    x == root || (k > 0 && exists|y: usize| #[trigger] tree_step(graph, forward, y, x)
        && within_steps(graph, forward, root, y, (k - 1) as nat))
}

/// Every node at most `level` search steps from `root` is marked.
pub open spec fn complete_to<A, W, Ty: GraphConstructor>(
    graph: &BaseGraph<A, W, Ty>,
    vis: Seq<bool>,
    root: usize,
    forward: bool,
    level: nat,
) -> bool {
    forall|x: usize, k: nat| k <= level && #[trigger] within_steps(graph, forward, root, x, k)
        ==> (x as int) < vis.len() && vis[x as int]
}

/// The `a`-th node of a walk is at most `a` forward steps from its first node.
proof fn lemma_walk_prefix_within<A, W, Ty: GraphConstructor>(graph: &BaseGraph<A, W, Ty>, w: Seq<usize>, a: int)
    requires
        is_walk_in(graph.adj(), w),
        0 <= a < w.len(),
    ensures
        within_steps(graph, true, w[0], w[a], a as nat),
    decreases a,
{
    if a > 0 {
        lemma_walk_prefix_within(graph, w, a - 1);
        assert(graph.adj()(w[a - 1], w[a]));
        assert(tree_step(graph, true, w[a - 1], w[a]));
    }
}

/// The `a`-th node of a walk is at most as many backward steps from its last
/// node as the walk has edges after it.
proof fn lemma_walk_suffix_within<A, W, Ty: GraphConstructor>(graph: &BaseGraph<A, W, Ty>, w: Seq<usize>, a: int)
    requires
        is_walk_in(graph.adj(), w),
        0 <= a < w.len(),
    ensures
        within_steps(graph, false, w.last(), w[a], (w.len() - 1 - a) as nat),
    decreases w.len() - a,
{
    if a < w.len() - 1 {
        lemma_walk_suffix_within(graph, w, a + 1);
        assert(graph.adj()(w[a], w[a + 1]));
        assert(tree_step(graph, false, w[a + 1], w[a]));
    }
}

/// Two searches complete to levels `lf` and `lb` that share no node leave no
/// walk from `s` to `t` with at most `lf + lb` edges.
proof fn lemma_no_short_walk<A, W, Ty: GraphConstructor>(
    graph: &BaseGraph<A, W, Ty>,
    fvis: Seq<bool>,
    bvis: Seq<bool>,
    s: usize,
    t: usize,
    lf: nat,
    lb: nat,
)
    requires
        complete_to(graph, fvis, s, true, lf),
        complete_to(graph, bvis, t, false, lb),
        fvis.len() == bvis.len(),
        forall|v: int| 0 <= v < fvis.len() ==> !(#[trigger] fvis[v] && bvis[v]),
    ensures
        forall|w: Seq<usize>| #[trigger] is_walk_in(graph.adj(), w) && w[0] == s && w.last() == t
            ==> w.len() > lf + lb + 1,
{
    assert forall|w: Seq<usize>| #[trigger] is_walk_in(graph.adj(), w) && w[0] == s && w.last() == t
        implies w.len() > lf + lb + 1 by {
        if w.len() <= lf + lb + 1 {
            let d = w.len() - 1;
            let a: int = if d < lf { d } else { lf as int };
            lemma_walk_prefix_within(graph, w, a);
            lemma_walk_suffix_within(graph, w, a);
            let x = w[a];
            assert(within_steps(graph, true, s, x, a as nat));
            assert(within_steps(graph, false, t, x, (w.len() - 1 - a) as nat));
            assert(fvis[x as int] && bvis[x as int]);
        }
    }
}

/// Marking every search step out of the nodes complete to `level` makes the
/// search complete to `level + 1`.
proof fn lemma_complete_step<A, W, Ty: GraphConstructor>(
    graph: &BaseGraph<A, W, Ty>,
    vis0: Seq<bool>,
    vis: Seq<bool>,
    root: usize,
    forward: bool,
    level: nat,
)
    requires
        complete_to(graph, vis0, root, forward, level),
        vis0.len() == vis.len(),
        forall|v: int| 0 <= v < vis0.len() && vis0[v] ==> #[trigger] vis[v],
        forall|y: usize, x: usize| (y as int) < vis0.len() && vis0[y as int] && #[trigger] tree_step(graph, forward, y, x)
            ==> (x as int) < vis.len() && vis[x as int],
    ensures
        complete_to(graph, vis, root, forward, level + 1),
{
    assert forall|x: usize, k: nat| k <= level + 1 && #[trigger] within_steps(graph, forward, root, x, k)
        implies (x as int) < vis.len() && vis[x as int] by {
        if k <= level {
            assert(vis0[x as int]);
        } else if x == root {
            assert(within_steps(graph, forward, root, x, 0));
            assert(vis0[x as int]);
        } else {
            let y = choose|y: usize| #[trigger] tree_step(graph, forward, y, x)
                && within_steps(graph, forward, root, y, (k - 1) as nat);
            assert(vis0[y as int]);
        }
    }
}

/// After a level is expanded, every search step out of a node marked before
/// is marked.
proof fn lemma_expanded_steps<A, W, Ty: GraphConstructor>(
    graph: &BaseGraph<A, W, Ty>,
    q0: Seq<usize>,
    h0: int,
    q: Seq<usize>,
    vis0: Seq<bool>,
    vis: Seq<bool>,
    forward: bool,
)
    requires
        queue_ok(graph, q0, h0, vis0, forward),
        queue_ok(graph, q, q0.len() as int, vis, forward),
        forall|i: int| 0 <= i < q0.len() ==> #[trigger] q[i] == q0[i],
    ensures
        forall|y: usize, x: usize| (y as int) < vis0.len() && vis0[y as int] && #[trigger] tree_step(graph, forward, y, x)
            ==> (x as int) < vis.len() && vis[x as int],
{
    assert forall|y: usize, x: usize| (y as int) < vis0.len() && vis0[y as int] && #[trigger] tree_step(
        graph,
        forward,
        y,
        x,
    ) implies (x as int) < vis.len() && vis[x as int] by {
        assert(q0.contains(y));
        let i = choose|i: int| 0 <= i < q0.len() && q0[i] == y;
        assert(q[i] == y);
        assert(tree_step(graph, forward, q[i], x));
    }
}

/// After a level is expanded, no marked node is more than one level deeper
/// than before.
proof fn lemma_dist_step<A, W, Ty: GraphConstructor>(
    graph: &BaseGraph<A, W, Ty>,
    vis0: Seq<bool>,
    vis: Seq<bool>,
    par: Seq<usize>,
    dist0: Seq<nat>,
    dist: Seq<nat>,
    root: usize,
    forward: bool,
    level: nat,
)
    requires
        search_tree(graph, vis, par, dist, root, forward),
        vis0.len() == vis.len(),
        vis0[root as int],
        forall|v: int| 0 <= v < vis0.len() && #[trigger] vis0[v] ==> dist0[v] <= level,
        forall|v: int| 0 <= v < vis0.len() && vis0[v] ==> #[trigger] dist[v] == dist0[v],
        forall|v: int| 0 <= v < vis0.len() && #[trigger] vis[v] && !vis0[v] ==> vis0[par[v] as int],
    ensures
        forall|v: int| 0 <= v < vis.len() && #[trigger] vis[v] ==> dist[v] <= level + 1,
{
    assert forall|v: int| 0 <= v < vis.len() && #[trigger] vis[v] implies dist[v] <= level + 1 by {
        if vis0[v] {
            assert(dist[v] == dist0[v]);
        } else {
            let p = par[v] as int;
            assert(vis0[p]);
            assert(dist[p] == dist0[p]);
        }
    }
}

/// A walk that no walk with the same ends undercuts visits no node twice.
proof fn lemma_shortest_walk_simple(rel: spec_fn(usize, usize) -> bool, p: Seq<usize>)
    requires
        is_walk_in(rel, p),
        forall|w: Seq<usize>| #[trigger] is_walk_in(rel, w) && w[0] == p[0] && w.last() == p.last()
            ==> w.len() >= p.len(),
    ensures
        p.no_duplicates(),
{
    assert forall|i: int, j: int| 0 <= i < p.len() && 0 <= j < p.len() && i != j implies p[i] != p[j] by {
        if p[i] == p[j] {
            let a = if i < j { i } else { j };
            let b = if i < j { j } else { i };
            let w = p.subrange(0, a + 1) + p.subrange(b + 1, p.len() as int);
            assert forall|k: int| 0 <= k < w.len() - 1 implies rel(#[trigger] w[k], w[k + 1]) by {
                if k < a {
                    assert(w[k] == p[k] && w[k + 1] == p[k + 1]);
                } else if k == a {
                    assert(w[k] == p[b] && w[k + 1] == p[b + 1]);
                } else {
                    assert(w[k] == p[k + b - a] && w[k + 1] == p[k + 1 + b - a]);
                }
            }
            assert(w[0] == p[0]);
            if b + 1 < p.len() {
                assert(w.last() == p.last());
            } else {
                assert(w.last() == p[a]);
            }
            assert(is_walk_in(rel, w));
        }
    }
}

/// The search layers of `bidis` on two distinct existing nodes.
fn bidis_indices<A, W, Ty: GraphConstructor>(graph: &BaseGraph<A, W, Ty>, s: usize, t: usize) -> (r: Option<Vec<usize>>)
    requires
        graph.wf(),
        graph.has_node(s as int),
        graph.has_node(t as int),
        s != t,
    ensures
        r is Some ==> is_walk_in(graph.adj(), r.unwrap()@) && r.unwrap()@[0] == s && r.unwrap()@.last() == t,
        r is Some ==> forall|w: Seq<usize>| #[trigger] is_walk_in(graph.adj(), w) && w[0] == s && w.last() == t
            ==> w.len() >= r.unwrap()@.len(),
        r is None ==> !graph.reachable(s, t),
{
    let n = graph.node_bound();
    let mut fvis = falses(n);
    let mut bvis = falses(n);
    let mut fpar: Vec<usize> = Vec::new();
    let mut bpar: Vec<usize> = Vec::new();
    while fpar.len() < n
        invariant
            fpar@.len() <= n,
        decreases n - fpar@.len(),
    {
        fpar.push(0);
    }
    while bpar.len() < n
        invariant
            bpar@.len() <= n,
        decreases n - bpar@.len(),
    {
        bpar.push(0);
    }
    let ghost mut fdist: Seq<nat> = Seq::new(n as nat, |i: int| 0nat);
    let ghost mut bdist: Seq<nat> = Seq::new(n as nat, |i: int| 0nat);
    let mut fq: Vec<usize> = Vec::new();
    let mut bq: Vec<usize> = Vec::new();
    fvis.set(s, true);
    bvis.set(t, true);
    fpar.set(s, s);
    bpar.set(t, t);
    fq.push(s);
    bq.push(t);
    let mut fhead: usize = 0;
    let mut bhead: usize = 0;
    proof {
        lemma_count_true_none(falses_count_witness(n));
        assert(fvis@ =~= falses_count_witness(n).update(s as int, true));
        assert(bvis@ =~= falses_count_witness(n).update(t as int, true));
        lemma_count_true_set(falses_count_witness(n), s as int);
        lemma_count_true_set(falses_count_witness(n), t as int);
        fdist = fdist.update(s as int, 0);
        bdist = bdist.update(t as int, 0);
        assert forall|v: int| 0 <= v < n && #[trigger] fvis@[v] implies fq@.contains(v as usize) by {
            assert(fq@[0] == s);
        }
        assert forall|v: int| 0 <= v < n && #[trigger] bvis@[v] implies bq@.contains(v as usize) by {
            assert(bq@[0] == t);
        }
    }
    let mut meet: Option<usize> = None;
    let ghost mut lf: nat = 0;
    let ghost mut lb: nat = 0;
    proof {
        assert forall|x: usize, k: nat| k <= lf && #[trigger] within_steps(graph, true, s, x, k)
            implies (x as int) < fvis@.len() && fvis@[x as int] by {}
        assert forall|x: usize, k: nat| k <= lb && #[trigger] within_steps(graph, false, t, x, k)
            implies (x as int) < bvis@.len() && bvis@[x as int] by {}
    }
    while fhead < fq.len() && bhead < bq.len() && meet.is_none()
        invariant
            graph.wf(),
            n == graph.node_slots().len(),
            graph.has_node(s as int),
            graph.has_node(t as int),
            s != t,
            search_tree(graph, fvis@, fpar@, fdist, s, true),
            search_tree(graph, bvis@, bpar@, bdist, t, false),
            queue_ok(graph, fq@, fhead as int, fvis@, true),
            queue_ok(graph, bq@, bhead as int, bvis@, false),
            meet is None ==> forall|v: int| 0 <= v < n ==> !(#[trigger] fvis@[v] && bvis@[v]),
            meet is Some ==> (meet.unwrap() as int) < n && fvis@[meet.unwrap() as int] && bvis@[meet.unwrap() as int],
            forall|v: int| 0 <= v < n && #[trigger] fvis@[v] ==> fdist[v] <= lf,
            forall|v: int| 0 <= v < n && #[trigger] bvis@[v] ==> bdist[v] <= lb,
            complete_to(graph, fvis@, s, true, lf),
            complete_to(graph, bvis@, t, false, lb),
            meet is Some ==> forall|w: Seq<usize>| #[trigger] is_walk_in(graph.adj(), w) && w[0] == s && w.last() == t
                ==> w.len() >= fdist[meet.unwrap() as int] + bdist[meet.unwrap() as int] + 1,
        decreases (n - fhead) + (n - bhead),
    {
        proof {
            lemma_count_true_bound(fvis@);
            lemma_count_true_bound(bvis@);
        }
        let ghost fv0 = fvis@;
        let ghost fq0 = fq@;
        let ghost fh0 = fhead as int;
        let ghost fdist0 = fdist;
        proof {
            lemma_no_short_walk(graph, fvis@, bvis@, s, t, lf, lb);
        }
        let (ffront, Ghost(fd)) = expand_level(graph, &mut fq, &mut fhead, &mut fvis, &mut fpar, Ghost(fdist), s, true);
        proof {
            fdist = fd;
            lemma_expanded_steps(graph, fq0, fh0, fq@, fv0, fvis@, true);
            lemma_complete_step(graph, fv0, fvis@, s, true, lf);
            lemma_dist_step(graph, fv0, fvis@, fpar@, fdist0, fdist, s, true, lf);
            lf = lf + 1;
        }
        proof {
            assert forall|kk: int| 0 <= kk < ffront@.len() implies fvis@[#[trigger] ffront@[kk] as int] by {
                assert(ffront@.contains(ffront@[kk]));
            }
        }
        let mut k: usize = 0;
        while k < ffront.len() && meet.is_none()
            invariant
                forall|kk: int| 0 <= kk < ffront@.len() ==> fvis@[#[trigger] ffront@[kk] as int],
                k <= ffront@.len(),
                bvis@.len() == n,
                fvis@.len() == n,
                forall|kk: int| 0 <= kk < ffront@.len() ==> (#[trigger] ffront@[kk] as int) < n,
                meet is None ==> forall|kk: int| 0 <= kk < k ==> !bvis@[#[trigger] ffront@[kk] as int],
                meet is Some ==> (meet.unwrap() as int) < n && fvis@[meet.unwrap() as int] && bvis@[meet.unwrap() as int],
            decreases ffront@.len() - k,
        {
            let x = ffront[k];
            if bvis[x] {
                proof {
                    assert(ffront@.contains(x));
                }
                meet = Some(x);
            }
            k = k + 1;
        }
        proof {
            if meet is None {
                assert forall|v: int| 0 <= v < n implies !(#[trigger] fvis@[v] && bvis@[v]) by {
                    if fvis@[v] && !fv0[v] {
                        assert(ffront@.contains(v as usize));
                        let kk = choose|kk: int| 0 <= kk < ffront@.len() && ffront@[kk] == v as usize;
                    }
                }
            } else {
                let mm = meet.unwrap() as int;
                assert(fdist[mm] <= lf && bdist[mm] <= lb);
            }
            lemma_count_true_bound(fvis@);
        }
        if meet.is_none() && bhead < bq.len() {
            let ghost bv0 = bvis@;
            let ghost bq0 = bq@;
            let ghost bh0 = bhead as int;
            let ghost bdist0 = bdist;
            proof {
                lemma_no_short_walk(graph, fvis@, bvis@, s, t, lf, lb);
            }
            let (bfront, Ghost(bd)) = expand_level(graph, &mut bq, &mut bhead, &mut bvis, &mut bpar, Ghost(bdist), t, false);
            proof {
                bdist = bd;
                lemma_expanded_steps(graph, bq0, bh0, bq@, bv0, bvis@, false);
                lemma_complete_step(graph, bv0, bvis@, t, false, lb);
                lemma_dist_step(graph, bv0, bvis@, bpar@, bdist0, bdist, t, false, lb);
                lb = lb + 1;
            }
            proof {
                assert forall|kk: int| 0 <= kk < bfront@.len() implies bvis@[#[trigger] bfront@[kk] as int] by {
                    assert(bfront@.contains(bfront@[kk]));
                }
            }
            let mut k: usize = 0;
            while k < bfront.len() && meet.is_none()
                invariant
                    forall|kk: int| 0 <= kk < bfront@.len() ==> bvis@[#[trigger] bfront@[kk] as int],
                    k <= bfront@.len(),
                    fvis@.len() == n,
                    bvis@.len() == n,
                    forall|kk: int| 0 <= kk < bfront@.len() ==> (#[trigger] bfront@[kk] as int) < n,
                    meet is None ==> forall|kk: int| 0 <= kk < k ==> !fvis@[#[trigger] bfront@[kk] as int],
                    meet is Some ==> (meet.unwrap() as int) < n && fvis@[meet.unwrap() as int] && bvis@[meet.unwrap() as int],
                decreases bfront@.len() - k,
            {
                let x = bfront[k];
                if fvis[x] {
                    proof {
                        assert(bfront@.contains(x));
                    }
                    meet = Some(x);
                }
                k = k + 1;
            }
            proof {
                if meet is None {
                    assert forall|v: int| 0 <= v < n implies !(#[trigger] fvis@[v] && bvis@[v]) by {
                        if bvis@[v] && !bv0[v] {
                            assert(bfront@.contains(v as usize));
                            let kk = choose|kk: int| 0 <= kk < bfront@.len() && bfront@[kk] == v as usize;
                        }
                    }
                } else {
                    let mm = meet.unwrap() as int;
                    assert(fdist[mm] <= lf && bdist[mm] <= lb);
                }
            }
        }
    }
    match meet {
        Some(m) => {
            let fr = climb(graph, &fpar, Ghost(fvis@), Ghost(fdist), s, m, Ghost(true));
            let br = climb(graph, &bpar, Ghost(bvis@), Ghost(bdist), t, m, Ghost(false));
            let mut path = reversed(fr);
            let ghost fp = path@;
            proof {
                assert forall|i: int| 0 <= i < fp.len() - 1 implies graph.adj()(#[trigger] fp[i], fp[i + 1]) by {
                    let j = fr@.len() - 2 - i;
                    assert(fp[i] == fr@[j + 1] && fp[i + 1] == fr@[j]);
                }
                assert(fp[0] == s);
                assert(fp.last() == m);
            }
            let mut i: usize = 1;
            while i < br.len()
                invariant
                    1 <= i <= br@.len(),
                    path@.len() == fp.len() + i - 1,
                    fp.len() >= 1,
                    path@[0] == s,
                    path@.last() == br@[i - 1],
                    br@[0] == m,
                    fp.last() == m,
                    forall|j: int| 0 <= j < br@.len() - 1 ==> graph.adj()(#[trigger] br@[j], br@[j + 1]),
                    forall|j: int| 0 <= j < path@.len() - 1 ==> graph.adj()(#[trigger] path@[j], path@[j + 1]),
                decreases br@.len() - i,
            {
                let ghost pb = path@;
                path.push(br[i]);
                proof {
                    assert forall|j: int| 0 <= j < path@.len() - 1 implies graph.adj()(#[trigger] path@[j], path@[j + 1]) by {
                        if j < pb.len() - 1 {
                            assert(path@[j] == pb[j] && path@[j + 1] == pb[j + 1]);
                        } else {
                            assert(path@[j] == br@[i - 1]);
                            assert(path@[j + 1] == br@[i as int]);
                            assert(graph.adj()(br@[i - 1], br@[i as int]));
                        }
                    }
                }
                i = i + 1;
            }
            assert(path@.len() == fdist[m as int] + bdist[m as int] + 1);
            Some(path)
        },
        None => {
            proof {
                if graph.reachable(s, t) {
                    if fhead == fq.len() {
                        let set = marked(fvis@);
                        assert forall|u: usize, v: usize| set(u) && #[trigger] graph.adj()(u, v) implies set(v) by {
                            let i = choose|i: int| 0 <= i < fq@.len() && fq@[i] == u;
                            assert(tree_step(graph, true, fq@[i], v));
                        }
                        lemma_closed_contains_connected(graph.adj(), set, s, t);
                    } else {
                        let set = marked(bvis@);
                        assert forall|u: usize, v: usize| set(u) && #[trigger] flip(graph.adj())(u, v) implies set(v) by {
                            let i = choose|i: int| 0 <= i < bq@.len() && bq@[i] == u;
                            assert(tree_step(graph, false, bq@[i], v));
                        }
                        lemma_connects_flip(graph.adj(), s, t);
                        lemma_closed_contains_connected(flip(graph.adj()), set, t, s);
                    }
                }
            }
            None
        },
    }
}

/// An all-`false` sequence of length `n`.
spec fn falses_count_witness(n: usize) -> Seq<bool> {
    Seq::new(n as nat, |i: int| false)
}

/// Expands one breadth-first level of a search: every node from `head` to the
/// current end of the queue has its tree steps marked, with parents and
/// levels recorded. Returns the newly marked nodes.
#[verifier::spinoff_prover]
#[verifier::rlimit(40)]
fn expand_level<A, W, Ty: GraphConstructor>(
    graph: &BaseGraph<A, W, Ty>,
    q: &mut Vec<usize>,
    head: &mut usize,
    vis: &mut Vec<bool>,
    par: &mut Vec<usize>,
    Ghost(dist0): Ghost<Seq<nat>>,
    root: usize,
    forward: bool,
) -> (res: (Vec<usize>, Ghost<Seq<nat>>))
    requires
        graph.wf(),
        search_tree(graph, old(vis)@, old(par)@, dist0, root, forward),
        queue_ok(graph, old(q)@, *old(head) as int, old(vis)@, forward),
        *old(head) < old(q)@.len(),
    ensures
        search_tree(graph, final(vis)@, final(par)@, res.1@, root, forward),
        queue_ok(graph, final(q)@, *final(head) as int, final(vis)@, forward),
        *final(head) == old(q)@.len(),
        final(q)@.len() >= old(q)@.len(),
        forall|v: int| 0 <= v < old(vis)@.len() && old(vis)@[v] ==> #[trigger] final(vis)@[v],
        forall|v: int| 0 <= v < final(vis)@.len() ==> (#[trigger] final(vis)@[v] && !old(vis)@[v]
            <==> res.0@.contains(v as usize)),
        forall|k: int| 0 <= k < res.0@.len() ==> (#[trigger] res.0@[k] as int) < final(vis)@.len(),
        forall|v: int| 0 <= v < old(vis)@.len() && old(vis)@[v] ==> #[trigger] res.1@[v] == dist0[v],
        forall|v: int| 0 <= v < old(vis)@.len() && #[trigger] final(vis)@[v] && !old(vis)@[v]
            ==> old(vis)@[final(par)@[v] as int],
        forall|i: int| 0 <= i < old(q)@.len() ==> #[trigger] final(q)@[i] == old(q)@[i],
{
    let level_end = q.len();
    let n = graph.node_bound();
    let ghost vis0 = vis@;
    let ghost mut dist = dist0;
    let mut frontier: Vec<usize> = Vec::new();
    while *head < level_end
        invariant
            graph.wf(),
            n == graph.node_slots().len(),
            level_end == old(q)@.len(),
            *head <= level_end,
            q@.len() >= level_end,
            vis0 == old(vis)@,
            vis0.len() == n,
            search_tree(graph, vis@, par@, dist, root, forward),
            queue_ok(graph, q@, *head as int, vis@, forward),
            forall|v: int| 0 <= v < vis0.len() && vis0[v] ==> #[trigger] vis@[v],
            forall|v: int| 0 <= v < vis@.len() ==> (#[trigger] vis@[v] && !vis0[v]
                <==> frontier@.contains(v as usize)),
            forall|k: int| 0 <= k < frontier@.len() ==> (#[trigger] frontier@[k] as int) < n,
            forall|v: int| 0 <= v < n && vis0[v] ==> #[trigger] dist[v] == dist0[v],
            forall|v: int| 0 <= v < n && #[trigger] vis@[v] && !vis0[v] ==> vis0[par@[v] as int],
            forall|i: int| 0 <= i < level_end ==> #[trigger] q@[i] == old(q)@[i],
            forall|i: int| 0 <= i < level_end ==> vis0[#[trigger] old(q)@[i] as int],
        decreases level_end - *head,
    {
        let u = q[*head];
        assert(q@[*head as int] == old(q)@[*head as int]);
        let nbrs = if forward { graph.neighbor_indices(u) } else { graph.predecessor_indices(u) };
        proof {
            graph.lemma_neighbors_exist(u);
            assert forall|x: usize| #[trigger] nbrs@.contains(x) <==> tree_step(graph, forward, u, x) by {}
            assert forall|x: usize| #[trigger] nbrs@.contains(x) implies (x as int) < n by {
                if !forward {
                    graph.lemma_neighbors_exist(x);
                    graph.lemma_neighbor_iff_edge(x, u);
                    if graph.has_node(x as int) {
                    } else {
                        graph.lemma_missing_node_isolated(x);
                        assert(graph.neighbor_seq(x).contains(u));
                    }
                }
            }
        }
        let mut j: usize = 0;
        while j < nbrs.len()
            invariant
                graph.wf(),
                n == graph.node_slots().len(),
                level_end == old(q)@.len(),
                *head < level_end,
                q@.len() >= level_end,
                q@[*head as int] == u,
                vis0 == old(vis)@,
                vis0.len() == n,
                search_tree(graph, vis@, par@, dist, root, forward),
                queue_ok(graph, q@, *head as int, vis@, forward),
                forall|x: usize| #[trigger] nbrs@.contains(x) <==> tree_step(graph, forward, u, x),
                forall|x: usize| #[trigger] nbrs@.contains(x) ==> (x as int) < n,
                j <= nbrs@.len(),
                forall|jj: int| 0 <= jj < j ==> vis@[#[trigger] nbrs@[jj] as int],
                forall|v: int| 0 <= v < vis0.len() && vis0[v] ==> #[trigger] vis@[v],
                forall|v: int| 0 <= v < vis@.len() ==> (#[trigger] vis@[v] && !vis0[v]
                    <==> frontier@.contains(v as usize)),
                forall|k: int| 0 <= k < frontier@.len() ==> (#[trigger] frontier@[k] as int) < n,
                forall|v: int| 0 <= v < n && vis0[v] ==> #[trigger] dist[v] == dist0[v],
                forall|v: int| 0 <= v < n && #[trigger] vis@[v] && !vis0[v] ==> vis0[par@[v] as int],
                forall|i: int| 0 <= i < level_end ==> #[trigger] q@[i] == old(q)@[i],
                forall|i: int| 0 <= i < level_end ==> vis0[#[trigger] old(q)@[i] as int],
                vis0[u as int],
            decreases nbrs@.len() - j,
        {
            let x = nbrs[j];
            assert(nbrs@.contains(x));
            let ghost vbody = vis@;
            if !vis[x] {
                let ghost vb = vis@;
                let ghost qb = q@;
                let ghost fb = frontier@;
                proof {
                    lemma_count_true_set(vis@, x as int);
                    lemma_count_true_bound(vis@.update(x as int, true));
                    dist = dist.update(x as int, dist[u as int] + 1);
                }
                vis.set(x, true);
                par.set(x, u);
                q.push(x);
                frontier.push(x);
                proof {
                    assert forall|v: int| 0 <= v < vis@.len() && #[trigger] vis@[v] implies q@.contains(v as usize) by {
                        if v == x as int {
                            assert(q@.last() == x);
                        } else {
                            assert(qb.contains(v as usize));
                            let k = choose|k: int| 0 <= k < qb.len() && qb[k] == v as usize;
                            assert(q@[k] == v as usize);
                        }
                    }
                    assert forall|v: int| 0 <= v < vis@.len() implies (#[trigger] vis@[v] && !vis0[v]
                        <==> frontier@.contains(v as usize)) by {
                        if v == x as int {
                            assert(frontier@[frontier@.len() - 1] == x);
                            assert(frontier@.contains(x));
                            if vis0[v] {
                                assert(vb[v]);
                            }
                        } else {
                            assert(vis@[v] == vb[v]);
                            if fb.contains(v as usize) {
                                let k = choose|k: int| 0 <= k < fb.len() && fb[k] == v as usize;
                                assert(frontier@[k] == v as usize);
                            }
                            if frontier@.contains(v as usize) {
                                let k = choose|k: int| 0 <= k < frontier@.len() && frontier@[k] == v as usize;
                                if k < fb.len() {
                                    assert(fb[k] == v as usize);
                                    assert(fb.contains(v as usize));
                                } else {
                                    assert(frontier@[k] == x);
                                }
                            }
                        }
                    }
                    assert forall|i: int, y: usize| 0 <= i < *head as int && #[trigger] tree_step(graph, forward, q@[i], y)
                        implies (y as int) < vis@.len() && vis@[y as int] by {
                        assert(q@[i] == qb[i]);
                        assert(vb[y as int]);
                    }
                    assert forall|z: int| 0 <= z < n && #[trigger] vis@[z] && z != root as int implies {
                        &&& (par@[z] as int) < n
                        &&& vis@[par@[z] as int]
                        &&& dist[par@[z] as int] + 1 == dist[z]
                        &&& tree_step(graph, forward, par@[z], z as usize)
                    } by {
                        if z == x as int {
                            assert(vb[u as int]);
                        } else {
                            assert(vb[z]);
                            assert(vb[par@[z] as int]);
                        }
                    }
                }
            }
            proof {
                assert forall|jj: int| 0 <= jj < j + 1 implies vis@[#[trigger] nbrs@[jj] as int] by {
                    assert(nbrs@.contains(nbrs@[jj]));
                    if jj < j {
                        assert(vbody[nbrs@[jj] as int]);
                    } else {
                        assert(nbrs@[jj] == x);
                    }
                }
            }
            j = j + 1;
        }
        *head = *head + 1;
        proof {
            assert forall|i: int, y: usize| 0 <= i < *head as int && #[trigger] tree_step(graph, forward, q@[i], y)
                implies (y as int) < vis@.len() && vis@[y as int] by {
                if i == *head - 1 {
                    assert(nbrs@.contains(y));
                    let jj = choose|jj: int| 0 <= jj < nbrs@.len() && nbrs@[jj] == y;
                }
            }
        }
    }
    (frontier, Ghost(dist))
}

} // verus!
