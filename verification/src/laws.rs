//! Properties that relate several operations of the library, proved over the
//! specifications the operations' contracts use.

use vstd::prelude::*;
use crate::builders::ends;
use crate::components::{count_starts, is_start, labelled, least_reacher, lemma_count_starts_bound,
    lemma_least_is_start};
use crate::mst::{greedy_picks, joined, lemma_joined_push, lemma_joined_sym, linked, picked};
use crate::prim::{emitted, prim_run, tree_pairs, tree_start, lemma_emitted_facts, lemma_edge_in_one_tree,
    lemma_tree_start_range};
use crate::serialization::{SerializableGraph, built_from, describes};
use crate::subgraphs::{last_pos, sub_edges, within_hops};
use crate::types::{BaseGraph, GraphConstructor, count_live, live_indices};
use crate::validation::{count_roots, is_component_root, spec_connected, enters_earlier_tree};
use crate::traversal::{lemma_shorten_walk, has_fresh, first_fresh, next_pick, picked_at, search_order};
use crate::walks::{connects, is_walk_in, lemma_connects_refl, lemma_connects_step, lemma_connects_trans};

verus! {

/// The indices `0..n`.
pub open spec fn upto(n: nat) -> Seq<usize> {
    Seq::new(n, |i: int| i as usize)
}

/// The live indices of a sequence without empty slots are `0..len`.
proof fn lemma_live_indices_full<T>(s: Seq<Option<T>>)
    requires
        forall|i: int| 0 <= i < s.len() ==> (#[trigger] s[i]) is Some,
        s.len() <= usize::MAX,
    ensures
        live_indices(s) == upto(s.len()),
    decreases s.len(),
{
    if s.len() > 0 {
        let d = s.drop_last();
        assert forall|i: int| 0 <= i < d.len() implies (#[trigger] d[i]) is Some by {
            assert(d[i] == s[i]);
        }
        lemma_live_indices_full(d);
        assert(s.last() is Some);
        assert(live_indices(s) =~= upto(s.len()));
    }
}

/// In `0..n`, the last position of `u < n` is `u`.
proof fn lemma_last_pos_identity(n: nat, u: usize)
    requires
        u < n,
        n <= usize::MAX,
    ensures
        last_pos(upto(n), u) == u,
        upto(n).contains(u),
    decreases n,
{
    let ids = upto(n);
    assert(ids[u as int] == u);
    if ids.last() != u {
        assert(ids.drop_last() =~= upto((n - 1) as nat));
        lemma_last_pos_identity((n - 1) as nat, u);
    }
}

/// Over `0..n`, with every slot live and every endpoint below `n`, the
/// renamed edges are the edges themselves.
proof fn lemma_sub_edges_identity<W>(edges: Seq<Option<(usize, usize, W)>>, n: nat)
    requires
        n <= usize::MAX,
        forall|k: int| 0 <= k < edges.len() ==> (#[trigger] edges[k]) is Some
            && edges[k].unwrap().0 < n && edges[k].unwrap().1 < n,
    ensures
        sub_edges(edges, upto(n)).len() == edges.len(),
        forall|k: int| 0 <= k < edges.len() ==>
            #[trigger] sub_edges(edges, upto(n))[k] == edges[k].unwrap(),
    decreases edges.len(),
{
    if edges.len() > 0 {
        let d = edges.drop_last();
        assert forall|k: int| 0 <= k < d.len() implies (#[trigger] d[k]) is Some
            && d[k].unwrap().0 < n && d[k].unwrap().1 < n by {
            assert(d[k] == edges[k]);
        }
        lemma_sub_edges_identity(d, n);
        let e = edges.last().unwrap();
        assert(edges[edges.len() - 1] is Some);
        lemma_last_pos_identity(n, e.0);
        lemma_last_pos_identity(n, e.1);
        let ids = upto(n);
        assert forall|k: int| 0 <= k < edges.len() implies
            #[trigger] sub_edges(edges, ids)[k] == edges[k].unwrap() by {
            if k < edges.len() - 1 {
                assert(d[k] == edges[k]);
            }
        }
    }
}

/// Writing a graph out and reading it back: a graph built from serialized
/// data and serialized again gives back the same nodes and weights (clones of
/// clones) and the same edge ends, in the same order.
pub proof fn law_serialization_roundtrip<A: Clone, W: Clone, Ty: GraphConstructor>(
    data: SerializableGraph<A, W>,
    g: BaseGraph<A, W, Ty>,
    back: SerializableGraph<A, W>,
)
    requires
        built_from(g, data),
        describes(back, g),
        data.nodes@.len() <= usize::MAX,
    ensures
        back.directed == Ty::spec_is_directed(),
        back.nodes@.len() == data.nodes@.len(),
        forall|k: int| 0 <= k < data.nodes@.len() ==> cloned(data.nodes@[k], #[trigger] g.node_slots()[k].unwrap())
            && cloned(g.node_slots()[k].unwrap(), back.nodes@[k]),
        back.edges@.len() == data.edges@.len(),
        forall|k: int| 0 <= k < data.edges@.len() ==> (#[trigger] back.edges@[k]).0 == data.edges@[k].0
            && back.edges@[k].1 == data.edges@[k].1
            && cloned(data.edges@[k].2, g.edge_slots()[k].unwrap().2)
            && cloned(g.edge_slots()[k].unwrap().2, back.edges@[k].2),
{
    let n = data.nodes@.len();
    lemma_live_indices_full(g.node_slots());
    let ids = upto(n);
    assert(g.spec_node_ids() == ids);
    assert forall|k: int| 0 <= k < g.edge_slots().len() implies (#[trigger] g.edge_slots()[k]) is Some
        && g.edge_slots()[k].unwrap().0 < n && g.edge_slots()[k].unwrap().1 < n by {
        assert(ends(g.edge_slots()[k]) == (data.edges@[k].0, data.edges@[k].1));
        assert(g.has_edge(k));
    }
    lemma_sub_edges_identity(g.edge_slots(), n);
    assert forall|k: int| 0 <= k < data.nodes@.len() implies cloned(data.nodes@[k], #[trigger] g.node_slots()[k].unwrap())
        && cloned(g.node_slots()[k].unwrap(), back.nodes@[k]) by {
        assert(ids[k] == k as usize);
    }
    assert forall|k: int| 0 <= k < data.edges@.len() implies (#[trigger] back.edges@[k]).0 == data.edges@[k].0
        && back.edges@[k].1 == data.edges@[k].1
        && cloned(data.edges@[k].2, g.edge_slots()[k].unwrap().2)
        && cloned(g.edge_slots()[k].unwrap().2, back.edges@[k].2) by {
        assert(sub_edges(g.edge_slots(), ids)[k] == g.edge_slots()[k].unwrap());
        assert(ends(g.edge_slots()[k]) == (data.edges@[k].0, data.edges@[k].1));
    }
}

/// For attribute and weight types whose clones equal what they copy,
/// re-serializing a graph built from serialized data gives back exactly that
/// data: the same directedness, node attributes and edge list.
pub proof fn law_serialization_roundtrip_equal<A: Clone, W: Clone, Ty: GraphConstructor>(
    data: SerializableGraph<A, W>,
    g: BaseGraph<A, W, Ty>,
    back: SerializableGraph<A, W>,
)
    requires
        built_from(g, data),
        describes(back, g),
        data.nodes@.len() <= usize::MAX,
        data.directed == Ty::spec_is_directed(),
        forall|a: A, b: A| #[trigger] cloned(a, b) ==> a == b,
        forall|a: W, b: W| #[trigger] cloned(a, b) ==> a == b,
    ensures
        back.directed == data.directed,
        back.nodes@ == data.nodes@,
        back.edges@ == data.edges@,
{
    law_serialization_roundtrip(data, g, back);
    assert forall|k: int| 0 <= k < data.nodes@.len() implies back.nodes@[k] == data.nodes@[k] by {
        assert(cloned(data.nodes@[k], g.node_slots()[k].unwrap()));
        assert(cloned(g.node_slots()[k].unwrap(), back.nodes@[k]));
    }
    assert(back.nodes@ =~= data.nodes@);
    assert forall|k: int| 0 <= k < data.edges@.len() implies back.edges@[k] == data.edges@[k] by {
        assert(back.edges@[k].0 == data.edges@[k].0);
        assert(cloned(data.edges@[k].2, g.edge_slots()[k].unwrap().2));
        assert(cloned(g.edge_slots()[k].unwrap().2, back.edges@[k].2));
    }
    assert(back.edges@ =~= data.edges@);
}

/// Kruskal's selection spans what the scanned pairs join: the ends of every
/// scanned pair are joined by the picked pairs.
pub proof fn law_picks_span(pairs: Seq<(usize, usize)>, k: int)
    requires
        0 <= k < pairs.len(),
    ensures
        joined(picked(pairs), pairs[k].0, pairs[k].1),
    decreases pairs.len(),
{
    let d = pairs.drop_last();
    let prev = greedy_picks(d);
    crate::mst::lemma_greedy_picks_bound(d);
    let pd = picked(d);
    assert(prev.map_values(|t: int| pairs[t]) =~= pd) by {
        assert forall|t: int| 0 <= t < prev.len() implies prev.map_values(|t: int| pairs[t])[t] == pd[t] by {
            assert(d[prev[t]] == pairs[prev[t]]);
        }
    }
    let last = pairs.last();
    if joined(pd, last.0, last.1) {
        assert(picked(pairs) == pd);
        if k < pairs.len() - 1 {
            assert(d[k] == pairs[k]);
            law_picks_span(d, k);
        }
    } else {
        assert(greedy_picks(pairs) == prev.push(pairs.len() - 1));
        assert(picked(pairs) =~= pd.push(last));
        if k < pairs.len() - 1 {
            assert(d[k] == pairs[k]);
            law_picks_span(d, k);
            lemma_joined_push(pd, last.0, last.1, pairs[k].0, pairs[k].1);
        } else {
            lemma_connects_refl(linked(pd), last.0);
            lemma_connects_refl(linked(pd), last.1);
            lemma_joined_push(pd, last.0, last.1, last.0, last.1);
        }
    }
}

/// Kruskal's selection joins nothing that the scanned pairs do not join.
pub proof fn law_picks_within(pairs: Seq<(usize, usize)>, a: usize, b: usize)
    requires
        joined(picked(pairs), a, b),
    ensures
        joined(pairs, a, b),
{
    let p = picked(pairs);
    crate::mst::lemma_greedy_picks_bound(pairs);
    let lp = linked(p);
    let lq = linked(pairs);
    let s = |x: usize| joined(pairs, a, x);
    lemma_connects_refl(lq, a);
    assert forall|x: usize, y: usize| s(x) && #[trigger] lp(x, y) implies s(y) by {
        let t = choose|t: int| 0 <= t < p.len() && ((#[trigger] p[t]).0 == x && p[t].1 == y || p[t].0 == y && p[t].1 == x);
        let k = greedy_picks(pairs)[t];
        assert(p[t] == pairs[k]);
        assert(lq(x, y));
        lemma_connects_step(lq, a, x, y);
    }
    crate::walks::lemma_closed_contains_connected(lp, s, a, b);
}

/// Each picked pair joins two parts that the pairs picked before it kept
/// apart, so the picks contain no cycle.
pub proof fn law_picks_acyclic(pairs: Seq<(usize, usize)>, t: int)
    requires
        0 <= t < picked(pairs).len(),
    ensures
        !joined(picked(pairs).take(t), picked(pairs)[t].0, picked(pairs)[t].1),
    decreases pairs.len(),
{
    let d = pairs.drop_last();
    let prev = greedy_picks(d);
    crate::mst::lemma_greedy_picks_bound(d);
    let pd = picked(d);
    assert(prev.map_values(|i: int| pairs[i]) =~= pd) by {
        assert forall|i: int| 0 <= i < prev.len() implies prev.map_values(|i: int| pairs[i])[i] == pd[i] by {
            assert(d[prev[i]] == pairs[prev[i]]);
        }
    }
    let last = pairs.last();
    if joined(pd, last.0, last.1) {
        assert(picked(pairs) == pd);
        law_picks_acyclic(d, t);
    } else {
        assert(greedy_picks(pairs) == prev.push(pairs.len() - 1));
        assert(picked(pairs) =~= pd.push(last));
        if t < pd.len() {
            law_picks_acyclic(d, t);
            assert(picked(pairs).take(t) =~= pd.take(t));
        } else {
            assert(picked(pairs).take(t) =~= pd);
        }
    }
}

/// Kruskal's picks join exactly what the scanned pairs join.
proof fn lemma_picks_join_iff(pairs: Seq<(usize, usize)>, a: usize, b: usize)
    ensures
        joined(picked(pairs), a, b) <==> joined(pairs, a, b),
{
    if joined(picked(pairs), a, b) {
        law_picks_within(pairs, a, b);
    }
    if joined(pairs, a, b) {
        let p = picked(pairs);
        let lq = linked(pairs);
        let s = |x: usize| joined(p, a, x);
        lemma_connects_refl(linked(p), a);
        assert forall|x: usize, y: usize| s(x) && #[trigger] lq(x, y) implies s(y) by {
            let t = choose|t: int| 0 <= t < pairs.len() && ((#[trigger] pairs[t]).0 == x && pairs[t].1 == y
                || pairs[t].0 == y && pairs[t].1 == x);
            law_picks_span(pairs, t);
            if pairs[t].0 == x && pairs[t].1 == y {
                lemma_connects_trans(linked(p), a, x, y);
            } else {
                lemma_joined_sym(p, y, x);
                lemma_connects_trans(linked(p), a, x, y);
            }
        }
        crate::walks::lemma_closed_contains_connected(lq, s, a, b);
    }
}

/// Whether Kruskal's rule picks position `k` depends on the pairs up to `k`
/// alone.
proof fn lemma_picks_prefix(pairs: Seq<(usize, usize)>, k: int)
    requires
        0 <= k < pairs.len(),
    ensures
        greedy_picks(pairs).contains(k) <==> greedy_picks(pairs.take(k + 1)).contains(k),
    decreases pairs.len(),
{
    if k < pairs.len() - 1 {
        let d = pairs.drop_last();
        assert(d.take(k + 1) =~= pairs.take(k + 1));
        lemma_picks_prefix(d, k);
        let prev = greedy_picks(d);
        if greedy_picks(pairs) != prev {
            assert(greedy_picks(pairs) == prev.push(pairs.len() - 1));
            if greedy_picks(pairs).contains(k) {
                let t = choose|t: int| 0 <= t < greedy_picks(pairs).len() && greedy_picks(pairs)[t] == k;
                assert(t < prev.len());
                assert(prev[t] == k);
            }
            if prev.contains(k) {
                let t = choose|t: int| 0 <= t < prev.len() && prev[t] == k;
                assert(greedy_picks(pairs)[t] == k);
            }
        }
    } else {
        assert(pairs.take(k + 1) =~= pairs);
    }
}

/// Kruskal's rule picks a pair exactly when the pairs scanned before it do
/// not already join its ends: with the pairs in order of weight, the picks
/// are the edges that no chain of lighter edges bypasses.
pub proof fn law_picks_exact(pairs: Seq<(usize, usize)>, k: int)
    requires
        0 <= k < pairs.len(),
    ensures
        greedy_picks(pairs).contains(k) <==> !joined(pairs.take(k), pairs[k].0, pairs[k].1),
{
    lemma_picks_prefix(pairs, k);
    let q = pairs.take(k + 1);
    let d = q.drop_last();
    assert(d =~= pairs.take(k));
    let prev = greedy_picks(d);
    crate::mst::lemma_greedy_picks_bound(d);
    assert(prev.map_values(|t: int| q[t]) =~= picked(d)) by {
        assert forall|t: int| 0 <= t < prev.len() implies prev.map_values(|t: int| q[t])[t] == picked(d)[t] by {
            assert(d[prev[t]] == q[prev[t]]);
        }
    }
    lemma_picks_join_iff(d, pairs[k].0, pairs[k].1);
    assert(q.last() == pairs[k]);
    if joined(picked(d), pairs[k].0, pairs[k].1) {
        assert(greedy_picks(q) == prev);
        if prev.contains(k) {
            let t = choose|t: int| 0 <= t < prev.len() && prev[t] == k;
        }
    } else {
        assert(greedy_picks(q) == prev.push(k));
        assert(greedy_picks(q)[prev.len() as int] == k);
    }
}

/// After the same listed nodes a search picks one node next, whatever
/// witnesses are chosen.
proof fn lemma_pick_unique<A, W, Ty: GraphConstructor>(g: &BaseGraph<A, W, Ty>, seen: Seq<usize>, j1: int, x1: usize,
    j2: int, x2: usize, deep: bool)
    requires
        next_pick(g, seen, j1, x1, deep),
        next_pick(g, seen, j2, x2, deep),
    ensures
        x1 == x2,
{
    if j1 < j2 {
        if deep {
            assert(!has_fresh(g, seen, seen[j2]));
        } else {
            assert(!has_fresh(g, seen, seen[j1]));
        }
    }
    if j2 < j1 {
        if deep {
            assert(!has_fresh(g, seen, seen[j1]));
        } else {
            assert(!has_fresh(g, seen, seen[j2]));
        }
    }
    assert(j1 == j2);
    reveal(first_fresh);
    let nb = g.neighbor_seq(seen[j1]);
    let a = choose|jj: int| 0 <= jj < nb.len() && #[trigger] nb[jj] == x1 && !seen.contains(x1)
        && forall|t: int| 0 <= t < jj ==> seen.contains(#[trigger] nb[t]);
    let b = choose|jj: int| 0 <= jj < nb.len() && #[trigger] nb[jj] == x2 && !seen.contains(x2)
        && forall|t: int| 0 <= t < jj ==> seen.contains(#[trigger] nb[t]);
    if a < b {
        assert(seen.contains(nb[a]));
    }
    if b < a {
        assert(seen.contains(nb[b]));
    }
}

/// Two search orders from the same node agree on their first `k` nodes.
proof fn lemma_search_prefix<A, W, Ty: GraphConstructor>(g: &BaseGraph<A, W, Ty>, s: usize, a: Seq<usize>,
    b: Seq<usize>, deep: bool, k: int)
    requires
        search_order(g, s, a, deep),
        search_order(g, s, b, deep),
        0 <= k <= a.len(),
        k <= b.len(),
    ensures
        a.take(k) =~= b.take(k),
    decreases k,
{
    if k > 0 {
        lemma_search_prefix(g, s, a, b, deep, k - 1);
        let i = k - 1;
        if i >= 1 {
            assert(picked_at(g, a, i, deep));
            assert(picked_at(g, b, i, deep));
            let ja = choose|j: int| #[trigger] next_pick(g, a.take(i), j, a[i], deep);
            let jb = choose|j: int| #[trigger] next_pick(g, b.take(i), j, b[i], deep);
            lemma_pick_unique(g, a.take(i), ja, a[i], jb, b[i], deep);
        }
        assert forall|t: int| 0 <= t < k implies a.take(k)[t] == b.take(k)[t] by {
            if t < i {
                assert(a.take(i)[t] == b.take(i)[t]);
            }
        }
    }
}

/// A search from `s` has one possible visiting order: breadth-first order
/// (`deep` false, what `bfs` returns) and depth-first preorder (`deep` true,
/// what `dfs` returns) are each fixed by the graph, its neighbour order and
/// `s`, so two orders that both qualify are the same.
pub proof fn law_search_order_unique<A, W, Ty: GraphConstructor>(g: &BaseGraph<A, W, Ty>, s: usize, a: Seq<usize>,
    b: Seq<usize>, deep: bool)
    requires
        search_order(g, s, a, deep),
        search_order(g, s, b, deep),
    ensures
        a == b,
{
    if a.len() < b.len() {
        lemma_search_prefix(g, s, a, b, deep, a.len() as int);
        let k = a.len() as int;
        assert(picked_at(g, b, k, deep));
        let j = choose|j: int| #[trigger] next_pick(g, b.take(k), j, b[k], deep);
        assert(a.take(k) =~= a);
        assert(b.take(k)[j] == a[j]);
        assert(!has_fresh(g, a, a[j]));
    } else if b.len() < a.len() {
        lemma_search_prefix(g, s, b, a, deep, b.len() as int);
        let k = b.len() as int;
        assert(picked_at(g, a, k, deep));
        let j = choose|j: int| #[trigger] next_pick(g, a.take(k), j, a[k], deep);
        assert(b.take(k) =~= b);
        assert(a.take(k)[j] == b[j]);
        assert(!has_fresh(g, b, b[j]));
    } else {
        lemma_search_prefix(g, s, a, b, deep, a.len() as int);
        assert(a.take(a.len() as int) =~= a);
        assert(b.take(b.len() as int) =~= b);
    }
}

/// In an undirected graph no edge leads into the nodes of an earlier search:
/// whatever reaches one end reaches the other. So the directed clause of
/// `is_bipartite` (false only without a two-coloring or with such an edge)
/// leaves the undirected answer exact.
pub proof fn law_undirected_enters_no_earlier_tree<A, W, Ty: GraphConstructor>(g: &BaseGraph<A, W, Ty>, u: usize,
    x: usize)
    requires
        g.wf(),
        !g.directed(),
        g.adj()(u, x),
    ensures
        !enters_earlier_tree(g, u, x),
{
    if enters_earlier_tree(g, u, x) {
        let z = choose|z: usize| #[trigger] g.reachable(z, x) && forall|y: usize| y <= z && g.has_node(y as int)
            ==> !#[trigger] g.reachable(y, u);
        g.lemma_adj_symmetric_undirected();
        assert(g.adj()(x, u));
        lemma_connects_step(g.adj(), z, x, u);
        assert(g.reachable(z, u));
    }
}

/// The position of the node that a breadth-first order picks node `k` from.
pub open spec fn bfs_picker<A, W, Ty: GraphConstructor>(g: &BaseGraph<A, W, Ty>, a: Seq<usize>, k: int) -> int {
    choose|j: int| #[trigger] next_pick(g, a.take(k), j, a[k], false)
}

/// The level of node `k` of a breadth-first order: one more than the level
/// of the node it was picked from, and 0 for the first node.
pub open spec fn bfs_level<A, W, Ty: GraphConstructor>(g: &BaseGraph<A, W, Ty>, a: Seq<usize>, k: int) -> nat
    decreases k,
{
    if k <= 0 {
        0
    } else {
        let j = bfs_picker(g, a, k);
        if 0 <= j < k { bfs_level(g, a, j) + 1 } else { 0 }
    }
}

/// The picker of a node of a breadth-first order is a valid pick.
proof fn lemma_bfs_picker<A, W, Ty: GraphConstructor>(g: &BaseGraph<A, W, Ty>, s: usize, a: Seq<usize>, k: int)
    requires
        search_order(g, s, a, false),
        1 <= k < a.len(),
    ensures
        next_pick(g, a.take(k), bfs_picker(g, a, k), a[k], false),
        0 <= bfs_picker(g, a, k) < k,
        g.adj()(a[bfs_picker(g, a, k)], a[k]),
        !a.take(k).contains(a[k]),
{
    assert(picked_at(g, a, k, false));
    let j = bfs_picker(g, a, k);
    reveal(first_fresh);
    assert(a.take(k)[j] == a[j]);
    let nb = g.neighbor_seq(a[j]);
    let jj = choose|jj: int| 0 <= jj < nb.len() && #[trigger] nb[jj] == a[k] && !a.take(k).contains(a[k])
        && forall|t: int| 0 <= t < jj ==> a.take(k).contains(#[trigger] nb[t]);
    assert(nb.contains(a[k]));
}

/// A breadth-first order lists no node twice.
proof fn lemma_bfs_distinct<A, W, Ty: GraphConstructor>(g: &BaseGraph<A, W, Ty>, s: usize, a: Seq<usize>, p: int,
    q: int)
    requires
        search_order(g, s, a, false),
        0 <= p < q < a.len(),
    ensures
        a[p] != a[q],
{
    lemma_bfs_picker(g, s, a, q);
    assert(a.take(q)[p] == a[p]);
}

/// Later nodes of a breadth-first order are picked from the same or later
/// nodes.
proof fn lemma_bfs_picker_mono<A, W, Ty: GraphConstructor>(g: &BaseGraph<A, W, Ty>, s: usize, a: Seq<usize>, k1: int,
    k2: int)
    requires
        search_order(g, s, a, false),
        1 <= k1 <= k2 < a.len(),
    ensures
        bfs_picker(g, a, k1) <= bfs_picker(g, a, k2),
{
    lemma_bfs_picker(g, s, a, k1);
    lemma_bfs_picker(g, s, a, k2);
    let j1 = bfs_picker(g, a, k1);
    let j2 = bfs_picker(g, a, k2);
    if j2 < j1 {
        assert(!has_fresh(g, a.take(k1), a.take(k1)[j2]));
        assert(has_fresh(g, a.take(k2), a.take(k2)[j2]));
        reveal(has_fresh);
        let y = choose|y: usize| #[trigger] g.neighbor_seq(a.take(k2)[j2]).contains(y) && !a.take(k2).contains(y);
        assert(a.take(k1)[j2] == a.take(k2)[j2]);
        if a.take(k1).contains(y) {
            let t = choose|t: int| 0 <= t < a.take(k1).len() && a.take(k1)[t] == y;
            assert(a.take(k2)[t] == y);
        }
    }
}

/// Levels never decrease along a breadth-first order.
proof fn lemma_bfs_level_mono<A, W, Ty: GraphConstructor>(g: &BaseGraph<A, W, Ty>, s: usize, a: Seq<usize>, i: int,
    k: int)
    requires
        search_order(g, s, a, false),
        0 <= i <= k < a.len(),
    ensures
        bfs_level(g, a, i) <= bfs_level(g, a, k),
    decreases k,
{
    if i > 0 && i < k {
        lemma_bfs_picker(g, s, a, i);
        lemma_bfs_picker(g, s, a, k);
        lemma_bfs_picker_mono(g, s, a, i, k);
        lemma_bfs_level_mono(g, s, a, bfs_picker(g, a, i), bfs_picker(g, a, k));
    }
}

/// Node `k` lies within its level's number of steps from `s`.
proof fn lemma_bfs_level_walk<A, W, Ty: GraphConstructor>(g: &BaseGraph<A, W, Ty>, s: usize, a: Seq<usize>, k: int)
    requires
        search_order(g, s, a, false),
        0 <= k < a.len(),
    ensures
        within_hops(*g, s, a[k], bfs_level(g, a, k)),
    decreases k,
{
    if k == 0 {
        let w = seq![s];
        assert(is_walk_in(g.adj(), w));
    } else {
        lemma_bfs_picker(g, s, a, k);
        let j = bfs_picker(g, a, k);
        lemma_bfs_level_walk(g, s, a, j);
        let w = choose|w: Seq<usize>| #[trigger] is_walk_in(g.adj(), w) && w[0] == s && w.last() == a[j]
            && w.len() <= bfs_level(g, a, j) + 1;
        let w2 = w.push(a[k]);
        assert forall|t: int| 0 <= t < w2.len() - 1 implies g.adj()(#[trigger] w2[t], w2[t + 1]) by {
            if t < w.len() - 1 {
                assert(w2[t] == w[t] && w2[t + 1] == w[t + 1]);
            }
        }
        assert(is_walk_in(g.adj(), w2));
    }
}

/// A neighbour of a listed node is listed at a level at most one deeper.
proof fn lemma_bfs_neighbour_level<A, W, Ty: GraphConstructor>(g: &BaseGraph<A, W, Ty>, s: usize, a: Seq<usize>,
    m: int, y: usize) -> (p: int)
    requires
        search_order(g, s, a, false),
        0 <= m < a.len(),
        g.adj()(a[m], y),
    ensures
        0 <= p < a.len(),
        a[p] == y,
        bfs_level(g, a, p) <= bfs_level(g, a, m) + 1,
{
    reveal(has_fresh);
    assert(!has_fresh(g, a, a[m]));
    assert(a.contains(y));
    let p = choose|p: int| 0 <= p < a.len() && a[p] == y;
    if p <= m {
        lemma_bfs_level_mono(g, s, a, p, m);
    } else {
        lemma_bfs_picker(g, s, a, p);
        let j = bfs_picker(g, a, p);
        if m < j {
            assert(a.take(p)[m] == a[m]);
            assert(g.neighbor_seq(a.take(p)[m]).contains(y));
            assert(!a.take(p).contains(y));
            assert(has_fresh(g, a.take(p), a.take(p)[m]));
            assert(!has_fresh(g, a.take(p), a.take(p)[m]));
        }
        lemma_bfs_level_mono(g, s, a, j, m);
    }
    p
}

/// Every node on a walk from `s` is listed at a level no deeper than its
/// position on the walk.
proof fn lemma_bfs_walk_levels<A, W, Ty: GraphConstructor>(g: &BaseGraph<A, W, Ty>, s: usize, a: Seq<usize>,
    w: Seq<usize>, t: int) -> (p: int)
    requires
        search_order(g, s, a, false),
        is_walk_in(g.adj(), w),
        w[0] == s,
        0 <= t < w.len(),
    ensures
        0 <= p < a.len(),
        a[p] == w[t],
        bfs_level(g, a, p) <= t,
    decreases t,
{
    if t == 0 {
        0
    } else {
        let p0 = lemma_bfs_walk_levels(g, s, a, w, t - 1);
        assert(g.adj()(w[t - 1], w[t]));
        lemma_bfs_neighbour_level(g, s, a, p0, w[t])
    }
}

/// Breadth-first order goes level by level: a node listed earlier is never
/// farther from the start. Whenever node `k` of the order is within `d`
/// steps of `s`, so is every node listed before it.
pub proof fn law_bfs_levels<A, W, Ty: GraphConstructor>(g: &BaseGraph<A, W, Ty>, s: usize, a: Seq<usize>, i: int,
    k: int, d: nat)
    requires
        search_order(g, s, a, false),
        0 <= i <= k < a.len(),
        within_hops(*g, s, a[k], d),
    ensures
        within_hops(*g, s, a[i], d),
{
    let w = choose|w: Seq<usize>| #[trigger] is_walk_in(g.adj(), w) && w[0] == s && w.last() == a[k] && w.len() <= d + 1;
    let p = lemma_bfs_walk_levels(g, s, a, w, w.len() - 1);
    if p != k {
        if p < k {
            lemma_bfs_distinct(g, s, a, p, k);
        } else {
            lemma_bfs_distinct(g, s, a, k, p);
        }
    }
    lemma_bfs_level_mono(g, s, a, i, k);
    lemma_bfs_level_walk(g, s, a, i);
    law_hops_monotone(*g, s, a[i], bfs_level(g, a, i), d);
}

/// Neighbourhoods grow with the radius.
pub proof fn law_hops_monotone<A, W, Ty: GraphConstructor>(g: BaseGraph<A, W, Ty>, s: usize, x: usize, k: nat, j: nat)
    requires
        within_hops(g, s, x, k),
        k <= j,
    ensures
        within_hops(g, s, x, j),
{
    let w = choose|w: Seq<usize>| #[trigger] is_walk_in(g.adj(), w) && w[0] == s && w.last() == x && w.len() <= k + 1;
    assert(is_walk_in(g.adj(), w));
}

/// A node's neighbourhood lies inside its weakly connected component.
pub proof fn law_hops_in_component<A, W, Ty: GraphConstructor>(g: BaseGraph<A, W, Ty>, s: usize, x: usize, k: nat)
    requires
        g.has_node(s as int),
        within_hops(g, s, x, k),
    ensures
        g.weakly_connected(s, x),
{
    let w = choose|w: Seq<usize>| #[trigger] is_walk_in(g.adj(), w) && w[0] == s && w.last() == x && w.len() <= k + 1;
    assert(connects(g.adj(), s, x));
    g.lemma_adj_is_weak();
    let st = |y: usize| connects(g.weak_adj(), s, y);
    lemma_connects_refl(g.weak_adj(), s);
    assert forall|u: usize, v: usize| st(u) && #[trigger] g.adj()(u, v) implies st(v) by {
        lemma_connects_step(g.weak_adj(), s, u, v);
    }
    crate::walks::lemma_closed_contains_connected(g.adj(), st, s, x);
}

/// Without roots below `k` the count is zero; with exactly the root `r`
/// below `k`, it is one.
proof fn lemma_count_single_root<A, W, Ty: GraphConstructor>(g: BaseGraph<A, W, Ty>, r: usize, k: nat)
    requires
        k <= usize::MAX + 1,
        forall|u: usize| u < k && u != r ==> !is_component_root(&g, u),
        r < k ==> is_component_root(&g, r),
    ensures
        count_roots(&g, k) == if r < k { 1nat } else { 0nat },
    decreases k,
{
    if k > 0 {
        lemma_count_single_root(g, r, (k - 1) as nat);
    }
}

/// A root below `k` makes the count positive, and two make it at least two.
proof fn lemma_count_roots_lower<A, W, Ty: GraphConstructor>(g: BaseGraph<A, W, Ty>, r1: usize, r2: usize, k: nat)
    requires
        k <= usize::MAX + 1,
        r1 < k,
        is_component_root(&g, r1),
    ensures
        count_roots(&g, k) >= 1,
        r1 < r2 < k && is_component_root(&g, r2) ==> count_roots(&g, k) >= 2,
    decreases k,
{
    if k - 1 > r1 {
        lemma_count_roots_lower(g, r1, r2, (k - 1) as nat);
    } else {
        lemma_count_roots_nonneg(g, (k - 1) as nat);
    }
    if r1 < r2 < k && is_component_root(&g, r2) {
        if k - 1 > r2 {
            lemma_count_roots_lower(g, r1, r2, (k - 1) as nat);
        } else {
            lemma_count_roots_lower(g, r1, r1, (k - 1) as nat);
        }
    }
}

/// `count_roots` is a natural number.
proof fn lemma_count_roots_nonneg<A, W, Ty: GraphConstructor>(g: BaseGraph<A, W, Ty>, k: nat)
    ensures
        count_roots(&g, k) >= 0,
{
}

/// The first existing node at or after `i` that is weakly connected to `u`.
proof fn first_connected<A, W, Ty: GraphConstructor>(g: BaseGraph<A, W, Ty>, u: usize, i: usize) -> (m: usize)
    requires
        g.wf(),
        g.has_node(u as int),
        i <= u,
        forall|v: usize| v < i ==> !(#[trigger] g.weakly_connected(v, u)),
    ensures
        m <= u,
        g.weakly_connected(m, u),
        forall|v: usize| v < m ==> !(#[trigger] g.weakly_connected(v, u)),
    decreases u - i,
{
    if g.weakly_connected(i, u) {
        i
    } else {
        if i == u {
            lemma_connects_refl(g.weak_adj(), u);
        }
        first_connected(g, u, (i + 1) as usize)
    }
}

/// A graph is connected exactly when it has one weakly connected component:
/// `is_connected` holds exactly when `count_components` is 1.
pub proof fn law_connected_iff_one_component<A, W, Ty: GraphConstructor>(g: BaseGraph<A, W, Ty>)
    requires
        g.wf(),
        g.node_slots().len() <= usize::MAX,
    ensures
        spec_connected(&g) <==> count_roots(&g, g.node_slots().len()) == 1,
{
    let n = g.node_slots().len();
    g.lemma_weak_adj_symmetric();
    if spec_connected(&g) {
        crate::types::lemma_live_indices(g.node_slots());
        assert(live_indices(g.node_slots()).len() > 0);
        let r = live_indices(g.node_slots())[0];
        assert(g.has_node(r as int));
        assert forall|v: usize| v < r implies !g.has_node(v as int) by {
            if g.has_node(v as int) {
                assert(g.node_slots()[v as int] is Some);
                assert(live_indices(g.node_slots()).contains((v as int) as usize));
                let p = choose|p: int| 0 <= p < live_indices(g.node_slots()).len() && live_indices(g.node_slots())[p] == v;
                if p > 0 {
                    assert(live_indices(g.node_slots())[0] < live_indices(g.node_slots())[p]);
                }
            }
        }
        assert(is_component_root(&g, r));
        assert forall|u: usize| u < n && u != r implies !is_component_root(&g, u) by {
            if g.has_node(u as int) {
                assert(g.weakly_connected(r, u));
                if u < r {
                    assert(!g.has_node(u as int));
                }
            }
        }
        lemma_count_single_root(g, r, n);
    }
    if count_roots(&g, n) == 1 {
        assert(exists|r: usize| r < n && is_component_root(&g, r)) by {
            if !exists|r: usize| r < n && is_component_root(&g, r) {
                lemma_count_single_root(g, n as usize, n);
            }
        }
        let r = choose|r: usize| r < n && is_component_root(&g, r);
        assert forall|r2: usize| r2 < n && r2 != r implies !is_component_root(&g, r2) by {
            if is_component_root(&g, r2) {
                if r < r2 {
                    lemma_count_roots_lower(g, r, r2, n);
                } else {
                    lemma_count_roots_lower(g, r2, r, n);
                }
            }
        }
        assert forall|u: usize| g.has_node(u as int) implies #[trigger] g.weakly_connected(r, u) by {
            let m = first_connected(g, u, 0);
            assert(is_component_root(&g, m)) by {
                assert forall|v: usize| v < m && #[trigger] g.weakly_connected(v, m) implies false by {
                    lemma_connects_trans(g.weak_adj(), v, m, u);
                    assert(g.weakly_connected(v, u));
                }
            }
            assert(m < n);
        }
        assert forall|u: usize, v: usize| g.has_node(u as int) && g.has_node(v as int)
            implies #[trigger] g.weakly_connected(u, v) by {
            assert(g.weakly_connected(r, u));
            assert(g.weakly_connected(r, v));
            crate::walks::lemma_connects_sym(g.weak_adj(), r, u);
            lemma_connects_trans(g.weak_adj(), u, r, v);
        }
        lemma_live_count_pos(g.node_slots(), r as int);
    }
}

/// An occupied slot makes `count_live` positive.
proof fn lemma_live_count_pos<T>(s: Seq<Option<T>>, i: int)
    requires
        0 <= i < s.len(),
        s[i] is Some,
    ensures
        count_live(s) > 0,
    decreases s.len(),
{
    if i < s.len() - 1 {
        lemma_live_count_pos(s.drop_last(), i);
    }
}

/// A sequence without repeats whose entries are all below `k` has at most
/// `k` entries.
pub(crate) proof fn lemma_distinct_below_len(s: Seq<usize>, k: usize)
    requires
        s.no_duplicates(),
        forall|i: int| 0 <= i < s.len() ==> #[trigger] s[i] < k,
    ensures
        s.len() <= k,
    decreases k,
{
    if k == 0 {
        if s.len() > 0 {
            assert(s[0] < 0);
        }
    } else {
        let last = (k - 1) as usize;
        if s.contains(last) {
            let p = choose|p: int| 0 <= p < s.len() && s[p] == last;
            let r = s.subrange(0, p) + s.subrange(p + 1, s.len() as int);
            assert forall|i: int| 0 <= i < r.len() implies #[trigger] r[i] < last by {
                let i2 = if i < p { i } else { i + 1 };
                assert(r[i] == s[i2]);
                assert(i2 != p);
            }
            assert forall|a: int, b: int| 0 <= a < r.len() && 0 <= b < r.len() && a != b implies r[a] != r[b] by {
                let a2 = if a < p { a } else { a + 1 };
                let b2 = if b < p { b } else { b + 1 };
                assert(r[a] == s[a2]);
                assert(r[b] == s[b2]);
            }
            lemma_distinct_below_len(r, last);
        } else {
            assert forall|i: int| 0 <= i < s.len() implies #[trigger] s[i] < last by {
                assert(s[i] != last);
            }
            lemma_distinct_below_len(s, last);
        }
    }
}

/// Every node of a walk from an existing node exists.
proof fn lemma_walk_live<A, W, Ty: GraphConstructor>(g: BaseGraph<A, W, Ty>, s: usize, r: Seq<usize>)
    requires
        g.wf(),
        g.has_node(s as int),
        is_walk_in(g.adj(), r),
        r[0] == s,
    ensures
        forall|i: int| 0 <= i < r.len() ==> #[trigger] r[i] < g.node_slots().len(),
{
    let live = |x: usize| g.has_node(x as int);
    assert forall|u: usize, v: usize| live(u) && #[trigger] g.adj()(u, v) implies live(v) by {
        g.lemma_neighbors_exist(u);
    }
    assert forall|i: int| 0 <= i < r.len() implies #[trigger] r[i] < g.node_slots().len() by {
        let pre = r.take(i + 1);
        assert(is_walk_in(g.adj(), pre)) by {
            assert forall|j: int| 0 <= j < pre.len() - 1 implies g.adj()(#[trigger] pre[j], pre[j + 1]) by {
                assert(pre[j] == r[j] && pre[j + 1] == r[j + 1]);
            }
        }
        assert(connects(g.adj(), s, r[i]));
        crate::walks::lemma_closed_contains_connected(g.adj(), live, s, r[i]);
    }
}

/// Searching deep enough is complete: when iterative deepening with a depth
/// limit of at least the number of node slots less one finds no path (every
/// walk from `s` to `t` is longer than the limit allows), `t` is not
/// reachable from `s`, which is exactly when the bidirectional search finds
/// none either (for `s != t`).
pub proof fn law_deep_search_complete<A, W, Ty: GraphConstructor>(g: BaseGraph<A, W, Ty>, s: usize, t: usize, max_depth: nat)
    requires
        g.wf(),
        g.has_node(s as int),
        g.node_slots().len() <= usize::MAX,
        max_depth + 1 >= g.node_slots().len(),
        forall|q: Seq<usize>| #[trigger] is_walk_in(g.adj(), q) && q[0] == s && q.last() == t ==> q.len() > max_depth + 1,
    ensures
        !g.reachable(s, t),
{
    if g.reachable(s, t) {
        let w = choose|w: Seq<usize>| #[trigger] is_walk_in(g.adj(), w) && w[0] == s && w.last() == t;
        let r = lemma_shorten_walk(g.adj(), w);
        lemma_walk_live(g, s, r);
        lemma_distinct_below_len(r, g.node_slots().len() as usize);
        assert(is_walk_in(g.adj(), r));
    }
}

/// Adding a node and reading it back: the new node exists with the given
/// attribute under an id no earlier node had, the other nodes are unchanged,
/// and the count grows by one.
pub proof fn law_add_node_then_read<A, W, Ty: GraphConstructor>(g: BaseGraph<A, W, Ty>, a: A, h: BaseGraph<A, W, Ty>)
    requires
        g.wf(),
        h.node_slots() == g.node_slots().push(Some(a)),
        h.edge_slots() == g.edge_slots(),
    ensures
        h.has_node(g.node_slots().len() as int),
        h.attr(g.node_slots().len() as int) == a,
        forall|i: int| 0 <= i < g.node_slots().len() ==> #[trigger] h.node_slots()[i] == g.node_slots()[i],
        h.spec_node_count() == g.spec_node_count() + 1,
{
    crate::types::lemma_count_push(g.node_slots(), Some(a));
}

/// Updating a node and reading it back gives the new attribute; nothing else
/// changes.
pub proof fn law_update_then_read<A, W, Ty: GraphConstructor>(g: BaseGraph<A, W, Ty>, x: usize, a: A, h: BaseGraph<A, W, Ty>)
    requires
        g.wf(),
        g.has_node(x as int),
        h.node_slots() == g.node_slots().update(x as int, Some(a)),
        h.edge_slots() == g.edge_slots(),
    ensures
        h.has_node(x as int),
        h.attr(x as int) == a,
        forall|i: int| 0 <= i < g.node_slots().len() && i != x ==> #[trigger] h.node_slots()[i] == g.node_slots()[i],
        h.spec_node_count() == g.spec_node_count(),
{
    crate::types::lemma_count_update(g.node_slots(), x as int, Some(a));
}

/// Removing a node leaves no edge touching it, and its id is not handed out
/// again: the next node added gets a fresh id.
pub proof fn law_remove_node_isolates<A, W, Ty: GraphConstructor>(g: BaseGraph<A, W, Ty>, x: usize, h: BaseGraph<A, W, Ty>, a: A, k: BaseGraph<A, W, Ty>)
    requires
        g.wf(),
        h.wf(),
        g.has_node(x as int),
        h.node_slots() == g.node_slots().update(x as int, None),
        h.edge_slots().len() == g.edge_slots().len(),
        forall|e: int| 0 <= e < g.edge_slots().len() ==> #[trigger] h.edge_slots()[e] == (if g.has_edge(e)
            && (g.src(e) == x || g.tgt(e) == x) { None } else { g.edge_slots()[e] }),
        k.node_slots() == h.node_slots().push(Some(a)),
    ensures
        !h.has_node(x as int),
        forall|e: int| #[trigger] h.has_edge(e) ==> h.src(e) != x && h.tgt(e) != x,
        h.spec_node_count() + 1 == g.spec_node_count(),
        k.has_node(h.node_slots().len() as int) && h.node_slots().len() != x,
        !k.has_node(x as int),
{
    crate::types::lemma_count_update(g.node_slots(), x as int, None);
    assert forall|e: int| #[trigger] h.has_edge(e) implies h.src(e) != x && h.tgt(e) != x by {
        assert(h.edge_slots()[e] == (if g.has_edge(e) && (g.src(e) == x || g.tgt(e) == x) { None } else { g.edge_slots()[e] }));
    }
    assert(k.node_slots()[x as int] == h.node_slots()[x as int]);
}

/// Removing an edge and looking it up again finds nothing; the other edges
/// are unchanged.
pub proof fn law_remove_edge_then_read<A, W, Ty: GraphConstructor>(g: BaseGraph<A, W, Ty>, e: usize, h: BaseGraph<A, W, Ty>)
    requires
        g.wf(),
        g.has_edge(e as int),
        h.edge_slots() == g.edge_slots().update(e as int, None),
        h.node_slots() == g.node_slots(),
    ensures
        !h.has_edge(e as int),
        forall|f: int| 0 <= f < g.edge_slots().len() && f != e ==> #[trigger] h.edge_slots()[f] == g.edge_slots()[f],
        h.spec_edge_count() + 1 == g.spec_edge_count(),
{
    crate::types::lemma_count_update(g.edge_slots(), e as int, None);
}

/// In an undirected graph, two nodes get the same component label exactly
/// when they are connected.
pub proof fn law_labels_match_connectivity<A, W, Ty: GraphConstructor>(g: BaseGraph<A, W, Ty>, x: usize, y: usize,
    cx: nat, cy: nat)
    requires
        g.wf(),
        !g.directed(),
        labelled(g, x, cx),
        labelled(g, y, cy),
    ensures
        cx == cy <==> g.reachable(x, y),
{
    let mx = choose|m: usize| #[trigger] least_reacher(g, m, x) && cx == count_starts(g, m as nat);
    let my = choose|m: usize| #[trigger] least_reacher(g, m, y) && cy == count_starts(g, m as nat);
    g.lemma_adj_symmetric_undirected();
    lemma_least_is_start(g, mx, x);
    lemma_least_is_start(g, my, y);
    if g.reachable(x, y) {
        crate::walks::lemma_connects_sym(g.adj(), x, y);
        lemma_connects_trans(g.adj(), mx, x, y);
        lemma_connects_trans(g.adj(), my, y, x);
        if my < mx {
            assert(!g.reachable(my, x));
        }
        if mx < my {
            assert(!g.reachable(mx, y));
        }
    }
    if cx == cy {
        if mx < my {
            lemma_count_starts_bound(g, (mx + 1) as nat, my as nat);
        } else if my < mx {
            lemma_count_starts_bound(g, (my + 1) as nat, mx as nat);
        }
        assert(mx == my);
        crate::walks::lemma_connects_sym(g.adj(), mx, x);
        lemma_connects_trans(g.adj(), x, mx, y);
        crate::components::lemma_reach_live(g, mx, x);
    }
}

/// What Prim's algorithm returns is a spanning forest: no tree edge joins two
/// nodes that the tree edges before it already join, and the tree edges join
/// the two ends of every edge of the graph.
pub proof fn law_prim_spanning_forest<A, W, Ty: GraphConstructor>(g: BaseGraph<A, W, Ty>, rank: Seq<u64>,
    visit: Seq<usize>, via: Seq<Option<int>>)
    requires
        g.wf(),
        prim_run(g, rank, visit, via),
    ensures
        forall|t: int| 0 <= t < tree_pairs(emitted(g, visit, via, visit.len() as int)).len() ==> !joined(
            tree_pairs(emitted(g, visit, via, visit.len() as int)).take(t),
            (#[trigger] tree_pairs(emitted(g, visit, via, visit.len() as int))[t]).0,
            tree_pairs(emitted(g, visit, via, visit.len() as int))[t].1),
        forall|e: int| #[trigger] g.has_edge(e) ==> joined(tree_pairs(emitted(g, visit, via, visit.len() as int)),
            g.src(e), g.tgt(e)),
{
    let n = visit.len() as int;
    let p = tree_pairs(emitted(g, visit, via, n));
    lemma_emitted_facts(g, rank, visit, via, n);
    assert forall|e: int| #[trigger] g.has_edge(e) implies joined(p, g.src(e), g.tgt(e)) by {
        let a = g.src(e);
        let b = g.tgt(e);
        assert(g.has_node(a as int) && g.has_node(b as int));
        assert(visit.contains(a) && visit.contains(b));
        let ka = choose|i: int| 0 <= i < n && visit[i] == a;
        let kb = choose|i: int| 0 <= i < n && visit[i] == b;
        if ka == kb {
            lemma_connects_refl(linked(p), a);
        } else {
            let (lo, hi) = if ka < kb { (ka, kb) } else { (kb, ka) };
            lemma_edge_in_one_tree(g, rank, visit, via, e, lo, hi, hi);
            lemma_tree_start_range(via, lo, hi);
            let r = visit[tree_start(via, hi)];
            assert(joined(p, visit[lo], r));
            assert(joined(p, visit[hi], r));
            lemma_joined_sym(p, visit[hi], r);
            lemma_connects_trans(linked(p), visit[lo], r, visit[hi]);
            if ka > kb {
                lemma_joined_sym(p, visit[lo], visit[hi]);
            }
        }
    }
}

/// Every count below `count_starts(g, k)` is the count below some start under `k`.
proof fn lemma_start_for_count<A, W, Ty: GraphConstructor>(g: BaseGraph<A, W, Ty>, k: nat, c: nat)
    requires
        c < count_starts(g, k),
        k <= usize::MAX + 1,
    ensures
        exists|y: usize| (y as nat) < k && #[trigger] is_start(g, y) && count_starts(g, y as nat) == c,
    decreases k,
{
    if k > 0 {
        let y = (k - 1) as usize;
        if c < count_starts(g, (k - 1) as nat) {
            lemma_start_for_count(g, (k - 1) as nat, c);
            let z = choose|z: usize| (z as nat) < k - 1 && #[trigger] is_start(g, z) && count_starts(g, z as nat) == c;
            assert((z as nat) < k && is_start(g, z) && count_starts(g, z as nat) == c);
        } else {
            assert(is_start(g, y));
            assert(count_starts(g, y as nat) == c);
        }
    }
}

/// In an undirected graph, starts are the component roots.
proof fn lemma_starts_are_roots<A, W, Ty: GraphConstructor>(g: BaseGraph<A, W, Ty>, k: nat)
    requires
        !g.directed(),
        k <= usize::MAX + 1,
    ensures
        count_starts(g, k) == count_roots(&g, k),
    decreases k,
{
    if k > 0 {
        lemma_starts_are_roots(g, (k - 1) as nat);
        let y = (k - 1) as usize;
        assert(g.adj() =~= g.weak_adj()) by {
            assert forall|u: usize, v: usize| #[trigger] g.adj()(u, v) == g.weak_adj()(u, v) by {}
        }
        assert(is_start(g, y) == is_component_root(&g, y)) by {
            if is_start(g, y) {
                assert forall|v: usize| v < y && #[trigger] g.weakly_connected(v, y) implies false by {
                    assert(g.reachable(v, y));
                }
            }
            if is_component_root(&g, y) {
                assert forall|z: usize| z < y && g.has_node(z as int) implies !#[trigger] g.reachable(z, y) by {
                    if g.reachable(z, y) {
                        assert(g.weakly_connected(z, y));
                    }
                }
            }
        }
    }
}

/// Some node carries label `c`.
pub open spec fn label_used<A, W, Ty: GraphConstructor>(g: BaseGraph<A, W, Ty>, c: nat) -> bool {
    exists|x: usize| g.has_node(x as int) && #[trigger] labelled(g, x, c)
}

/// In an undirected graph the component labels are exactly `0 .. c`, where
/// `c` is the number of connected components: every label is below `c`,
/// and every number below `c` labels some node.
pub proof fn law_labels_count_components<A, W, Ty: GraphConstructor>(g: BaseGraph<A, W, Ty>)
    requires
        g.wf(),
        !g.directed(),
    ensures
        forall|x: usize, c: nat| #[trigger] labelled(g, x, c) ==> c < count_roots(&g, g.node_slots().len()),
        forall|c: nat| c < count_roots(&g, g.node_slots().len()) ==> #[trigger] label_used(g, c),
{
    let n = g.node_slots().len();
    g.lemma_node_slots_bound();
    lemma_starts_are_roots(g, n);
    assert forall|x: usize, c: nat| #[trigger] labelled(g, x, c) implies c < count_roots(&g, n) by {
        let m = choose|m: usize| #[trigger] least_reacher(g, m, x) && c == count_starts(g, m as nat);
        lemma_least_is_start(g, m, x);
        assert(count_starts(g, (m + 1) as nat) == c + 1);
        lemma_count_starts_bound(g, (m + 1) as nat, n);
    }
    assert forall|c: nat| c < count_roots(&g, n) implies #[trigger] label_used(g, c) by {
        lemma_start_for_count(g, n, c);
        let y = choose|y: usize| (y as nat) < n && #[trigger] is_start(g, y) && count_starts(g, y as nat) == c;
        crate::walks::lemma_connects_refl(g.adj(), y);
        assert(least_reacher(g, y, y));
        assert(labelled(g, y, c));
    }
}

} // verus!
