//! Graph validation: emptiness, connectivity, self-loops, acyclicity,
//! bipartiteness, component counts, and the `require_…` checks that turn a
//! failed property into a `GraphinaException` naming the algorithm.

use vstd::prelude::*;
use crate::exceptions::GraphinaException;
use crate::types::{
    BaseGraph, GraphConstructor, NodeId, count_true, count_live, lemma_count_true_set,
    lemma_count_true_bound, lemma_count_true_none, lemma_marked_count, live_indices,
    lemma_live_indices,
};
use crate::traversal::{falses, marked};
use crate::walks::{connects, is_walk_in, lemma_connects_refl, lemma_connects_step,
    lemma_connects_sym, lemma_connects_trans, lemma_closed_contains_connected};

verus! {

/// The marked nodes are closed under steps that ignore direction.
pub open spec fn weakly_closed<A, W, Ty: GraphConstructor>(graph: &BaseGraph<A, W, Ty>, m: Seq<bool>) -> bool {
    forall|u: usize, x: usize| (u as int) < m.len() && m[u as int] && #[trigger] graph.weak_adj()(u, x)
        ==> (x as int) < m.len() && m[x as int]
}

/// Only existing nodes are marked.
pub open spec fn marks_nodes<A, W, Ty: GraphConstructor>(graph: &BaseGraph<A, W, Ty>, m: Seq<bool>) -> bool {
    &&& m.len() == graph.node_slots().len()
    &&& forall|u: int| 0 <= u < m.len() && #[trigger] m[u] ==> graph.has_node(u)
}

/// `u` exists and no existing node with a smaller id is weakly connected to it:
/// `u` is the smallest node of its weakly connected component.
pub open spec fn is_component_root<A, W, Ty: GraphConstructor>(graph: &BaseGraph<A, W, Ty>, u: usize) -> bool {
    &&& graph.has_node(u as int)
    &&& forall|v: usize| v < u && #[trigger] graph.weakly_connected(v, u) ==> false
}

/// Number of component roots among the nodes with id below `k`.
pub open spec fn count_roots<A, W, Ty: GraphConstructor>(graph: &BaseGraph<A, W, Ty>, k: nat) -> nat
    decreases k,
{
    if k == 0 {
        0
    } else {
        count_roots(graph, (k - 1) as nat) + if is_component_root(graph, (k - 1) as usize) { 1nat } else { 0nat }
    }
}

/// The graph has at least one node and every two nodes are joined by a walk
/// that ignores edge direction.
pub open spec fn spec_connected<A, W, Ty: GraphConstructor>(graph: &BaseGraph<A, W, Ty>) -> bool {
    &&& graph.spec_node_count() > 0
    &&& forall|u: usize, v: usize| graph.has_node(u as int) && graph.has_node(v as int)
        ==> #[trigger] graph.weakly_connected(u, v)
}

/// Some edge leads from a node to itself.
pub open spec fn spec_has_self_loop<A, W, Ty: GraphConstructor>(graph: &BaseGraph<A, W, Ty>) -> bool {
    exists|e: int| #[trigger] graph.has_edge(e) && graph.src(e) == graph.tgt(e)
}

/// Returns true if the graph contains no nodes.
pub fn is_empty<A, W, Ty: GraphConstructor>(graph: &BaseGraph<A, W, Ty>) -> (b: bool)
    requires
        graph.wf(),
    ensures
        b == (graph.spec_node_count() == 0),
{
    graph.is_empty()
}

/// Returns true if the graph is connected: for directed graphs, weakly connected.
/// An empty graph is not connected.
pub fn is_connected<A, W, Ty: GraphConstructor>(graph: &BaseGraph<A, W, Ty>) -> (b: bool)
    requires
        graph.wf(),
    ensures
        b == spec_connected(graph),
{
    if graph.is_empty() {
        return false;
    }
    let nodes = graph.node_ids();
    let n = graph.node_bound();
    proof {
        lemma_live_indices(graph.node_slots());
    }
    let s = nodes[0].0;
    assert(s == graph.spec_node_ids()[0]);
    let mut m = falses(n);
    let mut count: usize = 0;
    proof {
        lemma_count_true_none(m@);
    }
    mark_component(graph, s, &mut m, &mut count);
    let b = count == graph.node_count();
    proof {
        lemma_marked_count(m@, graph.node_slots());
        graph.lemma_weak_adj_symmetric();
        if b {
            assert forall|u: usize, v: usize| graph.has_node(u as int) && graph.has_node(v as int)
                implies #[trigger] graph.weakly_connected(u, v) by {
                assert(m@[u as int]);
                assert(m@[v as int]);
                lemma_connects_sym(graph.weak_adj(), s, u);
                lemma_connects_trans(graph.weak_adj(), u, s, v);
            }
        }
        if spec_connected(graph) {
            assert forall|i: int| 0 <= i < graph.node_slots().len() && #[trigger] graph.node_slots()[i] is Some
                implies m@[i] by {
                assert(graph.weakly_connected(s, i as usize));
            }
            assert(count_true(m@) >= count_live(graph.node_slots())) by {
                lemma_marked_all(m@, graph.node_slots());
            }
        }
    }
    b
}

/// A marking of every occupied slot counts at least the occupied slots.
proof fn lemma_marked_all<T>(m: Seq<bool>, s: Seq<Option<T>>)
    requires
        m.len() == s.len(),
        forall|i: int| 0 <= i < s.len() && #[trigger] s[i] is Some ==> m[i],
    ensures
        count_true(m) >= count_live(s),
    decreases s.len(),
{
    if s.len() > 0 {
        let m2 = m.drop_last();
        let s2 = s.drop_last();
        assert forall|i: int| 0 <= i < s2.len() && #[trigger] s2[i] is Some implies m2[i] by {
            assert(s[i] is Some);
        }
        lemma_marked_all(m2, s2);
    }
}

/// Returns the number of connected components; for directed graphs, of weakly
/// connected components. Each component is counted at its smallest node.
pub fn count_components<A, W, Ty: GraphConstructor>(graph: &BaseGraph<A, W, Ty>) -> (c: usize)
    requires
        graph.wf(),
    ensures
        c == count_roots(graph, graph.node_slots().len()),
{
    let n = graph.node_bound();
    let mut m = falses(n);
    let mut count: usize = 0;
    let mut comps: usize = 0;
    proof {
        lemma_count_true_none(m@);
    }
    let mut i: usize = 0;
    while i < n
        invariant
            graph.wf(),
            n == graph.node_slots().len(),
            i <= n,
            marks_nodes(graph, m@),
            count == count_true(m@),
            weakly_closed(graph, m@),
            comps == count_roots(graph, i as nat),
            comps <= i,
            forall|v: usize| v < n ==> (#[trigger] m@[v as int] <==> exists|w: usize| w < i
                && #[trigger] graph.weakly_connected(w, v)),
        decreases n - i,
    {
        let ghost mb = m@;
        if graph.contains_node(NodeId(i)) && !m[i] {
            mark_component(graph, i, &mut m, &mut count);
            comps = comps + 1;
            proof {
                assert(is_component_root(graph, i)) by {
                    assert forall|v: usize| v < i && #[trigger] graph.weakly_connected(v, i) implies false by {
                        assert(mb[i as int]);
                    }
                }
                assert forall|v: usize| v < n implies (#[trigger] m@[v as int] <==> exists|w: usize| w < i + 1
                    && #[trigger] graph.weakly_connected(w, v)) by {
                    if m@[v as int] && !mb[v as int] {
                        assert(graph.weakly_connected(i, v));
                    }
                    if exists|w: usize| w < i + 1 && #[trigger] graph.weakly_connected(w, v) {
                        let w = choose|w: usize| w < i + 1 && #[trigger] graph.weakly_connected(w, v);
                        if w < i {
                            assert(mb[v as int]);
                        }
                    }
                }
            }
        } else {
            proof {
                graph.lemma_weak_adj_symmetric();
                if graph.has_node(i as int) {
                    assert(mb[i as int]);
                    let w0 = choose|w: usize| w < i && #[trigger] graph.weakly_connected(w, i);
                    assert(!is_component_root(graph, i)) by {
                        assert(graph.weakly_connected(w0, i));
                    }
                    assert forall|v: usize| v < n implies (#[trigger] m@[v as int] <==> exists|w: usize| w < i + 1
                        && #[trigger] graph.weakly_connected(w, v)) by {
                        if exists|w: usize| w < i + 1 && #[trigger] graph.weakly_connected(w, v) {
                            let w = choose|w: usize| w < i + 1 && #[trigger] graph.weakly_connected(w, v);
                            if w == i {
                                lemma_connects_trans(graph.weak_adj(), w0, i, v);
                                assert(graph.weakly_connected(w0, v));
                            }
                        }
                    }
                } else {
                    assert(!is_component_root(graph, i));
                    assert forall|v: usize| v < n implies (#[trigger] m@[v as int] <==> exists|w: usize| w < i + 1
                        && #[trigger] graph.weakly_connected(w, v)) by {
                        if exists|w: usize| w < i + 1 && #[trigger] graph.weakly_connected(w, v) {
                            let w = choose|w: usize| w < i + 1 && #[trigger] graph.weakly_connected(w, v);
                            if w == i {
                                assert(!graph.has_node(i as int));
                            }
                        }
                    }
                }
            }
        }
        i = i + 1;
    }
    comps
}

/// Returns true if some edge leads from a node to itself.
pub fn has_self_loops<A, W, Ty: GraphConstructor>(graph: &BaseGraph<A, W, Ty>) -> (b: bool)
    requires
        graph.wf(),
    ensures
        b == spec_has_self_loop(graph),
{
    let edges = graph.edges();
    proof {
        lemma_live_indices(graph.edge_slots());
    }
    let mut k: usize = 0;
    while k < edges.len()
        invariant
            graph.wf(),
            k <= edges@.len(),
            edges@.len() == graph.spec_edge_ids().len(),
            forall|j: int| 0 <= j < edges@.len() ==> (#[trigger] edges@[j]).0.0 == graph.src(graph.spec_edge_ids()[j] as int)
                && edges@[j].1.0 == graph.tgt(graph.spec_edge_ids()[j] as int),
            forall|j: int| 0 <= j < k ==> graph.src(graph.spec_edge_ids()[j] as int) != graph.tgt(#[trigger] graph.spec_edge_ids()[j] as int),
        decreases edges@.len() - k,
    {
        if edges[k].0 == edges[k].1 {
            proof {
                lemma_live_indices(graph.edge_slots());
                let e = graph.spec_edge_ids()[k as int];
                assert(live_indices(graph.edge_slots())[k as int] == e);
                assert(graph.edge_slots()[e as int] is Some);
                assert(graph.has_edge(e as int));
            }
            return true;
        }
        k = k + 1;
    }
    proof {
        if spec_has_self_loop(graph) {
            let e = choose|e: int| #[trigger] graph.has_edge(e) && graph.src(e) == graph.tgt(e);
            assert(graph.spec_edge_ids().contains(e as usize));
            let j = choose|j: int| 0 <= j < graph.spec_edge_ids().len() && graph.spec_edge_ids()[j] == e as usize;
            assert(graph.src(graph.spec_edge_ids()[j] as int) != graph.tgt(graph.spec_edge_ids()[j] as int));
        }
    }
    false
}

/// `algo_name` followed by `suffix`.
fn message(algo_name: &str, suffix: &str) -> (s: String)
    ensures
        s@ == algo_name@ + suffix@,
{
    let s = String::from_str(algo_name);
    s.concat(suffix)
}

/// Requires a non-empty graph: `Ok(())` if it has a node, else an error naming `algo_name`.
pub fn require_non_empty<A, W, Ty: GraphConstructor>(
    graph: &BaseGraph<A, W, Ty>,
    algo_name: &str,
) -> (r: Result<(), GraphinaException>)
    requires
        graph.wf(),
    ensures
        r is Ok <==> graph.spec_node_count() > 0,
        r is Err ==> r->Err_0.message@ == algo_name@ + " requires a non-empty graph"@,
{
    if is_empty(graph) {
        Err(GraphinaException { message: message(algo_name, " requires a non-empty graph") })
    } else {
        Ok(())
    }
}

/// Requires a connected graph: `Ok(())` if it is connected, else an error naming `algo_name`.
pub fn require_connected<A, W, Ty: GraphConstructor>(
    graph: &BaseGraph<A, W, Ty>,
    algo_name: &str,
) -> (r: Result<(), GraphinaException>)
    requires
        graph.wf(),
    ensures
        r is Ok <==> spec_connected(graph),
        r is Err ==> r->Err_0.message@ == algo_name@ + " requires a connected graph"@,
{
    if !is_connected(graph) {
        Err(GraphinaException { message: message(algo_name, " requires a connected graph") })
    } else {
        Ok(())
    }
}

/// Requires a graph without self-loops: `Ok(())` if it has none, else an error naming `algo_name`.
pub fn require_no_self_loops<A, W, Ty: GraphConstructor>(
    graph: &BaseGraph<A, W, Ty>,
    algo_name: &str,
) -> (r: Result<(), GraphinaException>)
    requires
        graph.wf(),
    ensures
        r is Ok <==> !spec_has_self_loop(graph),
        r is Err ==> r->Err_0.message@ == algo_name@ + " does not support graphs with self-loops"@,
{
    if has_self_loops(graph) {
        Err(GraphinaException { message: message(algo_name, " does not support graphs with self-loops") })
    } else {
        Ok(())
    }
}

/// Some walk along edges of at least one step returns to where it started.
pub open spec fn has_cycle<A, W, Ty: GraphConstructor>(graph: &BaseGraph<A, W, Ty>) -> bool {
    exists|w: Seq<usize>| #[trigger] is_walk_in(graph.adj(), w) && w.len() >= 2 && w[0] == w.last()
}

/// The state of the depth-first cycle search: `seen` nodes are on the current
/// path `path` (in order, each a neighbor of the previous) or `done`; a done
/// node's neighbors are all done and ranked lower.
pub open spec fn dag_state<A, W, Ty: GraphConstructor>(
    graph: &BaseGraph<A, W, Ty>,
    seen: Seq<bool>,
    done: Seq<bool>,
    path: Seq<usize>,
    rank: Seq<nat>,
    next: nat,
) -> bool {
    let n = graph.node_slots().len();
    &&& seen.len() == n
    &&& done.len() == n
    &&& rank.len() == n
    &&& forall|v: int| 0 <= v < n && #[trigger] done[v] ==> seen[v] && rank[v] < next
    &&& forall|v: int| 0 <= v < n ==> (#[trigger] seen[v] && !done[v] <==> path.contains(v as usize))
    &&& path.no_duplicates()
    &&& forall|i: int| 0 <= i < path.len() ==> (#[trigger] path[i] as int) < n
    &&& forall|i: int| 0 <= i < path.len() - 1 ==> graph.adj()(#[trigger] path[i], path[i + 1])
    &&& forall|v: usize, x: usize| (v as int) < n && done[v as int] && #[trigger] graph.adj()(v, x)
        ==> (x as int) < n && done[x as int] && rank[x as int] < rank[v as int]
}

/// Returns true if the graph is acyclic. A directed graph is acyclic when no
/// walk along its edges returns to its start; an undirected graph counts as
/// acyclic only when it has no edges.
pub fn is_dag<A, W, Ty: GraphConstructor>(graph: &BaseGraph<A, W, Ty>) -> (b: bool)
    requires
        graph.wf(),
    ensures
        graph.directed() ==> (b <==> !has_cycle(graph)),
        !graph.directed() ==> (b <==> graph.spec_edge_count() == 0),
{
    if !graph.is_directed() {
        return graph.edge_count() == 0;
    }
    let n = graph.node_bound();
    let mut seen = falses(n);
    let mut done = falses(n);
    let ghost mut rank: Seq<nat> = Seq::new(n as nat, |i: int| 0nat);
    let ghost mut next: nat = 0;
    proof {
        lemma_count_true_none(seen@);
    }
    let mut i: usize = 0;
    while i < n
        invariant
            graph.wf(),
            graph.directed(),
            n == graph.node_slots().len(),
            i <= n,
            dag_state(graph, seen@, done@, Seq::<usize>::empty(), rank, next),
            forall|v: int| 0 <= v < i && graph.has_node(v) ==> #[trigger] done@[v],
        decreases n - i,
    {
        if graph.contains_node(NodeId(i)) && !seen[i] {
            let (found, Ghost(r2), Ghost(n2)) = dfs_has_cycle(graph, i, &mut seen, &mut done,
                Ghost(Seq::<usize>::empty()), Ghost(rank), Ghost(next));
            if found {
                return false;
            }
            proof {
                rank = r2;
                next = n2;
            }
        } else {
            proof {
                if graph.has_node(i as int) {
                    assert(seen@[i as int]);
                    assert(!Seq::<usize>::empty().contains(i));
                }
            }
        }
        i = i + 1;
    }
    proof {
        if has_cycle(graph) {
            let w = choose|w: Seq<usize>| #[trigger] is_walk_in(graph.adj(), w) && w.len() >= 2 && w[0] == w.last();
            assert(graph.adj()(w[0], w[1]));
            if !graph.has_node(w[0] as int) {
                graph.lemma_missing_node_isolated(w[0]);
            }
            assert(done@[w[0] as int]);
            lemma_rank_descends(graph, done@, rank, w, w.len() - 1);
        }
    }
    true
}

/// Along a walk from a done node, every later node is done and ranked lower.
proof fn lemma_rank_descends<A, W, Ty: GraphConstructor>(
    graph: &BaseGraph<A, W, Ty>,
    done: Seq<bool>,
    rank: Seq<nat>,
    w: Seq<usize>,
    k: int,
)
    requires
        is_walk_in(graph.adj(), w),
        1 <= k < w.len(),
        (w[0] as int) < done.len(),
        done[w[0] as int],
        rank.len() == done.len(),
        forall|v: usize, x: usize| (v as int) < done.len() && done[v as int] && #[trigger] graph.adj()(v, x)
            ==> (x as int) < done.len() && done[x as int] && rank[x as int] < rank[v as int],
    ensures
        (w[k] as int) < done.len(),
        done[w[k] as int],
        rank[w[k] as int] < rank[w[0] as int],
    decreases k,
{
    assert(graph.adj()(w[k - 1], w[k]));
    if k > 1 {
        lemma_rank_descends(graph, done, rank, w, k - 1);
    }
}

/// Depth-first search from the unseen node `u` for a walk back to a node on the
/// current path. Returns whether a cycle was found, with the updated ranks.
fn dfs_has_cycle<A, W, Ty: GraphConstructor>(
    graph: &BaseGraph<A, W, Ty>,
    u: usize,
    seen: &mut Vec<bool>,
    done: &mut Vec<bool>,
    Ghost(path): Ghost<Seq<usize>>,
    Ghost(rank): Ghost<Seq<nat>>,
    Ghost(next): Ghost<nat>,
) -> (res: (bool, Ghost<Seq<nat>>, Ghost<nat>))
    requires
        graph.wf(),
        graph.has_node(u as int),
        dag_state(graph, old(seen)@, old(done)@, path, rank, next),
        !old(seen)@[u as int],
        path.len() > 0 ==> graph.adj()(path.last(), u),
    ensures
        res.0 ==> has_cycle(graph),
        !res.0 ==> dag_state(graph, final(seen)@, final(done)@, path, res.1@, res.2@),
        !res.0 ==> final(done)@[u as int],
        !res.0 ==> forall|v: int| 0 <= v < old(done)@.len() && old(done)@[v] ==> #[trigger] final(done)@[v],
        !res.0 ==> forall|v: int| 0 <= v < old(seen)@.len() && old(seen)@[v] ==> #[trigger] final(seen)@[v],
    decreases graph.node_slots().len() - count_true(old(seen)@),
{
    let n = graph.node_bound();
    let ghost seen0 = seen@;
    let ghost done0 = done@;
    proof {
        lemma_count_true_set(seen@, u as int);
        lemma_count_true_bound(seen@.update(u as int, true));
    }
    seen.set(u, true);
    let ghost p1 = path.push(u);
    proof {
        assert forall|v: int| 0 <= v < n implies (#[trigger] seen@[v] && !done@[v] <==> p1.contains(v as usize)) by {
            if v == u as int {
                assert(p1[path.len() as int] == u);
                assert(!done0[v]);
            } else {
                if p1.contains(v as usize) {
                    let k = choose|k: int| 0 <= k < p1.len() && p1[k] == v as usize;
                    if k < path.len() {
                        assert(path[k] == v as usize);
                        assert(path.contains(v as usize));
                    }
                }
                if path.contains(v as usize) {
                    let k = choose|k: int| 0 <= k < path.len() && path[k] == v as usize;
                    assert(p1[k] == v as usize);
                }
            }
        }
        assert forall|a: int, b: int| 0 <= a < p1.len() && 0 <= b < p1.len() && a != b implies p1[a] != p1[b] by {
            assert(!path.contains(u)) by {
                assert(!seen0[u as int]);
            }
            if a == path.len() {
                assert(p1[b] == path[b]);
                assert(path.contains(path[b]));
            } else if b == path.len() {
                assert(p1[a] == path[a]);
                assert(path.contains(path[a]));
            }
        }
        assert forall|i: int| 0 <= i < p1.len() - 1 implies graph.adj()(#[trigger] p1[i], p1[i + 1]) by {
            if i < path.len() - 1 {
                assert(p1[i] == path[i] && p1[i + 1] == path[i + 1]);
            } else {
                assert(p1[i] == path.last());
            }
        }
    }
    let nbrs = graph.neighbor_indices(u);
    proof {
        graph.lemma_neighbors_exist(u);
    }
    let ghost mut rk = rank;
    let ghost mut nx = next;
    let mut j: usize = 0;
    while j < nbrs.len()
        invariant
            graph.wf(),
            n == graph.node_slots().len(),
            graph.has_node(u as int),
            nbrs@ == graph.neighbor_seq(u),
            j <= nbrs@.len(),
            forall|x: usize| #[trigger] graph.neighbor_seq(u).contains(x) ==> graph.has_node(x as int),
            dag_state(graph, seen@, done@, p1, rk, nx),
            p1 == path.push(u),
            seen0 == old(seen)@,
            done0 == old(done)@,
            seen0.len() == n,
            count_true(seen@) > count_true(seen0),
            !done@[u as int],
            forall|v: int| 0 <= v < n && done0[v] ==> #[trigger] done@[v],
            forall|v: int| 0 <= v < n && seen0[v] ==> #[trigger] seen@[v],
            forall|jj: int| 0 <= jj < j ==> done@[#[trigger] nbrs@[jj] as int],
        decreases nbrs@.len() - j,
    {
        let x = nbrs[j];
        assert(graph.neighbor_seq(u).contains(x));
        if done[x] {
        } else if seen[x] {
            proof {
                assert(p1.contains(x));
                let i = choose|i: int| 0 <= i < p1.len() && p1[i] == x;
                let c = p1.subrange(i, p1.len() as int).push(x);
                assert forall|k: int| 0 <= k < c.len() - 1 implies graph.adj()(#[trigger] c[k], c[k + 1]) by {
                    if k < c.len() - 2 {
                        assert(c[k] == p1[i + k] && c[k + 1] == p1[i + k + 1]);
                    } else {
                        assert(c[k] == p1.last());
                        assert(p1.last() == u);
                        assert(c[k + 1] == x);
                    }
                }
                assert(is_walk_in(graph.adj(), c));
            }
            return (true, Ghost(rk), Ghost(nx));
        } else {
            let ghost db = done@;
            let ghost sb = seen@;
            proof {
                lemma_count_true_bound(seen@);
                assert(p1.last() == u);
            }
            let (found, Ghost(r2), Ghost(n2)) = dfs_has_cycle(graph, x, seen, done, Ghost(p1), Ghost(rk), Ghost(nx));
            if found {
                return (true, Ghost(r2), Ghost(n2));
            }
            proof {
                rk = r2;
                nx = n2;
                assert(!done@[u as int]) by {
                    assert(p1.contains(u)) by {
                        assert(p1[path.len() as int] == u);
                    }
                }
                assert forall|jj: int| 0 <= jj < j implies done@[#[trigger] nbrs@[jj] as int] by {
                    assert(nbrs@.contains(nbrs@[jj]));
                    assert(db[nbrs@[jj] as int]);
                }
                lemma_count_true_monotone(sb, seen@);
            }
        }
        proof {
            assert forall|jj: int| 0 <= jj < j + 1 implies done@[#[trigger] nbrs@[jj] as int] by {
                if jj == j {
                    assert(nbrs@[jj] == x);
                }
            }
        }
        j = j + 1;
    }
    let ghost db = done@;
    done.set(u, true);
    proof {
        rk = rk.update(u as int, nx);
        nx = nx + 1;
        assert(p1.last() == u);
        let pp = p1.drop_last();
        assert(pp =~= path);
        assert forall|v: int| 0 <= v < n implies (#[trigger] seen@[v] && !done@[v] <==> path.contains(v as usize)) by {
            if v == u as int {
                assert(!path.contains(u)) by {
                    assert(!seen0[u as int]);
                }
            } else {
                assert(done@[v] == db[v]);
                if path.contains(v as usize) {
                    let k = choose|k: int| 0 <= k < path.len() && path[k] == v as usize;
                    assert(p1[k] == v as usize);
                    assert(p1.contains(v as usize));
                }
                if p1.contains(v as usize) {
                    let k = choose|k: int| 0 <= k < p1.len() && p1[k] == v as usize;
                    if k < path.len() {
                        assert(path[k] == v as usize);
                        assert(path.contains(v as usize));
                    } else {
                        assert(p1[k] == u);
                    }
                }
            }
        }
        assert forall|v: usize, y: usize| (v as int) < n && done@[v as int] && #[trigger] graph.adj()(v, y)
            implies (y as int) < n && done@[y as int] && rk[y as int] < rk[v as int] by {
            if v == u {
                assert(nbrs@.contains(y));
                let jj = choose|jj: int| 0 <= jj < nbrs@.len() && nbrs@[jj] == y;
                assert(db[y as int]);
            } else {
                assert(db[v as int]);
                assert(db[y as int]);
            }
        }
        assert forall|v: int| 0 <= v < n && #[trigger] done@[v] implies seen@[v] && rk[v] < nx by {
            if v != u as int {
                assert(db[v]);
            }
        }
    }
    (false, Ghost(rk), Ghost(nx))
}

/// Marking more entries never lowers `count_true`.
proof fn lemma_count_true_monotone(a: Seq<bool>, b: Seq<bool>)
    requires
        a.len() == b.len(),
        forall|i: int| 0 <= i < a.len() && a[i] ==> #[trigger] b[i],
    ensures
        count_true(a) <= count_true(b),
    decreases a.len(),
{
    if a.len() > 0 {
        lemma_count_true_monotone(a.drop_last(), b.drop_last());
    }
}

/// Requires a directed acyclic graph: `Ok(())` for a DAG, else an error naming
/// `algo_name` that says whether the graph is undirected or has a cycle.
pub fn require_dag<A, W, Ty: GraphConstructor>(
    graph: &BaseGraph<A, W, Ty>,
    algo_name: &str,
) -> (r: Result<(), GraphinaException>)
    requires
        graph.wf(),
    ensures
        r is Ok <==> graph.directed() && !has_cycle(graph),
        !graph.directed() ==> r is Err && r->Err_0.message@ == algo_name@ + " requires a directed graph"@,
        graph.directed() && has_cycle(graph) ==> r is Err
            && r->Err_0.message@ == algo_name@ + " requires a directed acyclic graph (DAG)"@,
{
    if !graph.is_directed() {
        return Err(GraphinaException { message: message(algo_name, " requires a directed graph") });
    }
    if !is_dag(graph) {
        Err(GraphinaException { message: message(algo_name, " requires a directed acyclic graph (DAG)") })
    } else {
        Ok(())
    }
}

/// `c` gives the two ends of every step along edges different colors.
pub open spec fn valid_two_coloring<A, W, Ty: GraphConstructor>(
    graph: &BaseGraph<A, W, Ty>,
    c: spec_fn(usize) -> bool,
) -> bool {
    forall|u: usize, v: usize| #[trigger] graph.adj()(u, v) ==> c(u) != c(v)
}

/// The nodes can be split into two sets with every edge between the sets.
pub open spec fn spec_bipartite<A, W, Ty: GraphConstructor>(graph: &BaseGraph<A, W, Ty>) -> bool {
    exists|c: spec_fn(usize) -> bool| valid_two_coloring(graph, c)
}

/// A walk of exactly `k` steps leads from `a` to `b`.
pub open spec fn walk_of_len(rel: spec_fn(usize, usize) -> bool, a: usize, b: usize, k: nat) -> bool {
    exists|w: Seq<usize>| #[trigger] is_walk_in(rel, w) && w.len() == k + 1 && w[0] == a && w.last() == b
}

proof fn lemma_walk_of_len_step(rel: spec_fn(usize, usize) -> bool, a: usize, u: usize, x: usize, k: nat)
    requires
        walk_of_len(rel, a, u, k),
        rel(u, x),
    ensures
        walk_of_len(rel, a, x, k + 1),
{
    let w = choose|w: Seq<usize>| #[trigger] is_walk_in(rel, w) && w.len() == k + 1 && w[0] == a && w.last() == u;
    let w2 = w.push(x);
    assert forall|i: int| 0 <= i < w2.len() - 1 implies rel(#[trigger] w2[i], w2[i + 1]) by {
        if i < w.len() - 1 {
            assert(w2[i] == w[i] && w2[i + 1] == w[i + 1]);
        }
    }
    assert(is_walk_in(rel, w2));
}

/// Along a walk, a valid two-coloring alternates: the ends have the same color
/// exactly when the walk has an even number of steps.
proof fn lemma_coloring_parity<A, W, Ty: GraphConstructor>(
    graph: &BaseGraph<A, W, Ty>,
    c: spec_fn(usize) -> bool,
    w: Seq<usize>,
    k: int,
)
    requires
        valid_two_coloring(graph, c),
        is_walk_in(graph.adj(), w),
        0 <= k < w.len(),
    ensures
        (c(w[k]) == c(w[0])) == (k % 2 == 0),
    decreases k,
{
    if k > 0 {
        lemma_coloring_parity(graph, c, w, k - 1);
        assert(graph.adj()(w[k - 1], w[k]));
    }
}

/// Number of colored entries (those other than 2).
pub open spec fn count_colored(s: Seq<u8>) -> nat
    decreases s.len(),
{
    if s.len() == 0 {
        0
    } else {
        count_colored(s.drop_last()) + if s.last() != 2 { 1nat } else { 0nat }
    }
}

proof fn lemma_count_colored_set(s: Seq<u8>, i: int, c: u8)
    requires
        0 <= i < s.len(),
        s[i] == 2,
        c != 2,
    ensures
        count_colored(s.update(i, c)) == count_colored(s) + 1,
    decreases s.len(),
{
    let t = s.update(i, c);
    if i == s.len() - 1 {
        assert(t.drop_last() =~= s.drop_last());
    } else {
        assert(t.drop_last() =~= s.drop_last().update(i, c));
        lemma_count_colored_set(s.drop_last(), i, c);
    }
}

proof fn lemma_count_colored_bound(s: Seq<u8>)
    ensures
        count_colored(s) <= s.len(),
    decreases s.len(),
{
    if s.len() > 0 {
        lemma_count_colored_bound(s.drop_last());
    }
}

proof fn lemma_count_colored_none(s: Seq<u8>)
    requires
        forall|i: int| 0 <= i < s.len() ==> s[i] == 2,
    ensures
        count_colored(s) == 0,
    decreases s.len(),
{
    if s.len() > 0 {
        lemma_count_colored_none(s.drop_last());
    }
}

/// The state of the two-coloring search: `col` holds 0 or 1 for the colored
/// nodes and 2 for the others; `q` lists the colored nodes in coloring order;
/// the first `head` have all their neighbors colored differently; the first
/// `ts` (earlier trees) have all their neighbors among themselves.
pub open spec fn bip_state<A, W, Ty: GraphConstructor>(
    graph: &BaseGraph<A, W, Ty>,
    col: Seq<u8>,
    q: Seq<usize>,
    head: int,
    ts: int,
) -> bool {
    let n = graph.node_slots().len();
    &&& col.len() == n
    &&& count_colored(col) == q.len()
    &&& forall|v: int| 0 <= v < n ==> #[trigger] col[v] <= 2
    &&& forall|v: int| 0 <= v < n ==> (#[trigger] col[v] != 2 <==> q.contains(v as usize))
    &&& q.no_duplicates()
    &&& forall|i: int| 0 <= i < q.len() ==> (#[trigger] q[i] as int) < n && graph.has_node(q[i] as int)
    &&& 0 <= ts <= head <= q.len()
    &&& forall|i: int, x: usize| 0 <= i < head && #[trigger] graph.adj()(q[i], x)
        ==> (x as int) < n && col[x as int] != 2 && col[x as int] != col[q[i] as int]
    &&& forall|i: int, x: usize| 0 <= i < ts && #[trigger] graph.adj()(q[i], x)
        ==> q.subrange(0, ts).contains(x)
}

/// Some node with id below `i` reaches `x`.
pub open spec fn reached_below<A, W, Ty: GraphConstructor>(graph: &BaseGraph<A, W, Ty>, x: usize, i: int) -> bool {
    exists|z: usize| (z as int) < i && #[trigger] graph.reachable(z, x)
}

/// Edge `u → x` leads into the nodes of an earlier search: some node `z`
/// reaches `x`, while no node with id at most `z` reaches `u`.
pub open spec fn enters_earlier_tree<A, W, Ty: GraphConstructor>(graph: &BaseGraph<A, W, Ty>, u: usize, x: usize)
    -> bool {
    exists|z: usize| #[trigger] graph.reachable(z, x) && forall|y: usize| y <= z && graph.has_node(y as int)
        ==> !#[trigger] graph.reachable(y, u)
}

/// Returns true if the graph is bipartite, by coloring breadth-first from each
/// uncolored node in id order. `true` means a valid two-coloring exists; for an
/// undirected graph `false` means none exists. For a directed graph, `false`
/// means that none exists or that some edge leads into the nodes an earlier
/// search colored (`enters_earlier_tree`); a two-colorable directed graph
/// without such an edge is reported bipartite.
pub fn is_bipartite<A, W, Ty: GraphConstructor>(graph: &BaseGraph<A, W, Ty>) -> (b: bool)
    requires
        graph.wf(),
    ensures
        b ==> spec_bipartite(graph),
        !b && !graph.directed() ==> !spec_bipartite(graph),
        !b ==> !spec_bipartite(graph) || exists|u: usize, x: usize| #[trigger] graph.adj()(u, x)
            && enters_earlier_tree(graph, u, x),
{
    if graph.is_empty() {
        proof {
            let c = |v: usize| true;
            assert forall|u: usize, v: usize| #[trigger] graph.adj()(u, v) implies c(u) != c(v) by {
                graph.lemma_neighbors_exist(u);
                lemma_count_live_zero(graph.node_slots(), v as int);
            }
            assert(valid_two_coloring(graph, c));
        }
        return true;
    }
    let n = graph.node_bound();
    let mut col: Vec<u8> = Vec::new();
    while col.len() < n
        invariant
            col@.len() <= n,
            forall|v: int| 0 <= v < col@.len() ==> #[trigger] col@[v] == 2,
        decreases n - col@.len(),
    {
        col.push(2);
    }
    proof {
        lemma_count_colored_none(col@);
    }
    let mut q: Vec<usize> = Vec::new();
    let mut head: usize = 0;
    let mut i: usize = 0;
    while i < n
        invariant
            graph.wf(),
            n == graph.node_slots().len(),
            i <= n,
            bip_state(graph, col@, q@, head as int, q@.len() as int),
            head == q@.len(),
            forall|v: int| 0 <= v < i && graph.has_node(v) ==> #[trigger] col@[v] != 2,
            forall|k: int| #![trigger q@[k]] 0 <= k < q@.len() ==> reached_below(graph, q@[k], i as int),
        decreases n - i,
    {
        if graph.contains_node(NodeId(i)) && col[i] == 2 {
            let ghost qo = q@;
            let ghost co = col@;
            if !color_tree(graph, i, &mut col, &mut q, &mut head) {
                proof {
                    if spec_bipartite(graph) {
                        let (u, x) = choose|u: usize, x: usize| #[trigger] graph.adj()(u, x) && qo.contains(x)
                            && !qo.contains(u) && graph.reachable(i, u);
                        let kx = choose|k: int| 0 <= k < qo.len() && qo[k] == x;
                        assert(reached_below(graph, qo[kx], i as int));
                        let z = choose|z: usize| (z as int) < i && #[trigger] graph.reachable(z, qo[kx]);
                        let set = |v: usize| qo.contains(v);
                        assert forall|a: usize, b2: usize| set(a) && #[trigger] graph.adj()(a, b2) implies set(b2) by {
                            let ka = choose|k: int| 0 <= k < qo.len() && qo[k] == a;
                            assert(qo.subrange(0, qo.len() as int).contains(b2));
                            assert(qo.subrange(0, qo.len() as int) =~= qo);
                        }
                        assert forall|y: usize| y <= z && graph.has_node(y as int) implies !#[trigger] graph.reachable(y, u) by {
                            if graph.reachable(y, u) {
                                assert(co[y as int] != 2);
                                assert(set(y));
                                lemma_closed_contains_connected(graph.adj(), set, y, u);
                            }
                        }
                        assert(enters_earlier_tree(graph, u, x));
                    }
                }
                return false;
            }
            proof {
                assert forall|k: int| #![trigger q@[k]] 0 <= k < q@.len() implies reached_below(graph, q@[k], i + 1) by {
                    if k < qo.len() {
                        assert(q@.subrange(0, qo.len() as int)[k] == qo[k]);
                        assert(reached_below(graph, qo[k], i as int));
                        let z = choose|z: usize| (z as int) < i && #[trigger] graph.reachable(z, qo[k]);
                        assert(graph.reachable(z, q@[k]));
                    } else {
                        assert(graph.reachable(i, q@[k]));
                    }
                }
            }
        }
        i = i + 1;
    }
    proof {
        let cv = col@;
        let c = |v: usize| (v as int) < cv.len() && cv[v as int] == 1;
        assert forall|u: usize, v: usize| #[trigger] graph.adj()(u, v) implies c(u) != c(v) by {
            if !graph.has_node(u as int) {
                graph.lemma_missing_node_isolated(u);
            }
            assert(cv[u as int] != 2);
            assert(q@.contains(u));
            let k = choose|k: int| 0 <= k < q@.len() && q@[k] == u;
            assert(graph.adj()(q@[k], v));
        }
        assert(valid_two_coloring(graph, c));
    }
    true
}

proof fn lemma_count_live_zero<T>(s: Seq<Option<T>>, i: int)
    requires
        count_live(s) == 0,
        0 <= i < s.len(),
    ensures
        s[i] is None,
    decreases s.len(),
{
    if i < s.len() - 1 {
        lemma_count_live_zero(s.drop_last(), i);
    }
}

/// Colors, breadth-first, every node reachable from the uncolored node `start`,
/// alternating colors by level. Returns false on finding a neighbor with the
/// same color as the node being expanded.
#[verifier::rlimit(100)]
#[verifier::spinoff_prover]
fn color_tree<A, W, Ty: GraphConstructor>(
    graph: &BaseGraph<A, W, Ty>,
    start: usize,
    col: &mut Vec<u8>,
    q: &mut Vec<usize>,
    head: &mut usize,
) -> (ok: bool)
    requires
        graph.wf(),
        graph.has_node(start as int),
        bip_state(graph, old(col)@, old(q)@, *old(head) as int, old(q)@.len() as int),
        *old(head) == old(q)@.len(),
        old(col)@[start as int] == 2,
    ensures
        ok ==> bip_state(graph, final(col)@, final(q)@, *final(head) as int, final(q)@.len() as int),
        ok ==> *final(head) == final(q)@.len(),
        ok ==> forall|v: int| 0 <= v < old(col)@.len() && old(col)@[v] != 2 ==> #[trigger] final(col)@[v] != 2,
        ok ==> final(col)@[start as int] != 2,
        ok ==> final(q)@.len() > old(q)@.len(),
        ok ==> final(q)@.subrange(0, old(q)@.len() as int) == old(q)@,
        ok ==> forall|k: int| old(q)@.len() <= k < final(q)@.len() ==> graph.reachable(start, #[trigger] final(q)@[k]),
        !ok && !graph.directed() ==> !spec_bipartite(graph),
        !ok ==> !spec_bipartite(graph) || exists|u: usize, x: usize| #[trigger] graph.adj()(u, x) && old(q)@.contains(x)
            && !old(q)@.contains(u) && graph.reachable(start, u),
{
    let n = graph.node_bound();
    let ts = q.len();
    let ghost col0 = col@;
    let ghost q0 = q@;
    let ghost mut depth: Seq<nat> = Seq::new(n as nat, |i: int| 0nat);
    proof {
        lemma_count_colored_set(col@, start as int, 0);
    }
    col.set(start, 0);
    q.push(start);
    proof {
        let w = seq![start];
        assert(is_walk_in(graph.adj(), w));
        assert(walk_of_len(graph.adj(), start, start, 0));
        assert(q@.subrange(0, ts as int) =~= q0);
        assert forall|v: int| 0 <= v < n implies (#[trigger] col@[v] != 2 <==> q@.contains(v as usize)) by {
            if v == start as int {
                assert(q@[ts as int] == start);
            } else {
                if q@.contains(v as usize) {
                    let k = choose|k: int| 0 <= k < q@.len() && q@[k] == v as usize;
                    if k < q0.len() {
                        assert(q0[k] == v as usize);
                        assert(q0.contains(v as usize));
                    }
                }
                if q0.contains(v as usize) {
                    let k = choose|k: int| 0 <= k < q0.len() && q0[k] == v as usize;
                    assert(q@[k] == v as usize);
                }
            }
        }
        assert forall|a: int, b: int| 0 <= a < q@.len() && 0 <= b < q@.len() && a != b implies q@[a] != q@[b] by {
            if a == ts as int {
                assert(q0.contains(q@[b]));
            } else if b == ts as int {
                assert(q0.contains(q@[a]));
            }
        }
        assert forall|i: int, x: usize| 0 <= i < ts && #[trigger] graph.adj()(q@[i], x)
            implies q@.subrange(0, ts as int).contains(x) by {
            assert(q@[i] == q0[i]);
        }
    }
    while *head < q.len()
        invariant
            graph.wf(),
            n == graph.node_slots().len(),
            ts <= *head,
            ts < q@.len(),
            q@[ts as int] == start,
            q@.subrange(0, ts as int) == q0,
            col0 == old(col)@,
            col0.len() == n,
            q0 == old(q)@,
            ts == q0.len(),
            bip_state(graph, col@, q@, *head as int, ts as int),
            depth.len() == n,
            forall|k: int| ts <= k < q@.len() ==> walk_of_len(graph.adj(), start, #[trigger] q@[k], depth[q@[k] as int])
                && col@[q@[k] as int] as int == depth[q@[k] as int] as int % 2,
            forall|v: int| 0 <= v < col0.len() && col0[v] != 2 ==> #[trigger] col@[v] != 2,
        decreases n - *head,
    {
        proof {
            lemma_count_colored_bound(col@);
        }
        let u = q[*head];
        let cu = col[u];
        let nbrs = graph.neighbor_indices(u);
        proof {
            graph.lemma_neighbors_exist(u);
            assert(q@.contains(u));
        }
        let mut j: usize = 0;
        while j < nbrs.len()
            invariant
                graph.wf(),
                n == graph.node_slots().len(),
                ts <= *head,
                *head < q@.len(),
                q@[*head as int] == u,
                (u as int) < n,
                col@[u as int] == cu,
                cu != 2,
                nbrs@ == graph.neighbor_seq(u),
                j <= nbrs@.len(),
                forall|x: usize| #[trigger] graph.neighbor_seq(u).contains(x) ==> graph.has_node(x as int),
                q@[ts as int] == start,
                q@.subrange(0, ts as int) == q0,
                col0 == old(col)@,
                col0.len() == n,
                q0 == old(q)@,
                ts == q0.len(),
                bip_state(graph, col@, q@, *head as int, ts as int),
                depth.len() == n,
                forall|k: int| ts <= k < q@.len() ==> walk_of_len(graph.adj(), start, #[trigger] q@[k], depth[q@[k] as int])
                    && col@[q@[k] as int] as int == depth[q@[k] as int] as int % 2,
                forall|v: int| 0 <= v < col0.len() && col0[v] != 2 ==> #[trigger] col@[v] != 2,
                forall|jj: int| 0 <= jj < j ==> col@[#[trigger] nbrs@[jj] as int] != 2
                    && col@[nbrs@[jj] as int] != cu,
            decreases nbrs@.len() - j,
        {
            let x = nbrs[j];
            assert(graph.neighbor_seq(u).contains(x));
            if col[x] != 2 {
                if col[x] == cu {
                    proof {
                        lemma_conflict(graph, col@, q@, *head as int, ts as int, depth, start, u, x);
                        if spec_bipartite(graph) {
                            assert(q@.subrange(0, ts as int).contains(x));
                            assert(q0.contains(x));
                            assert(!q0.contains(u)) by {
                                if q0.contains(u) {
                                    let k = choose|k: int| 0 <= k < q0.len() && q0[k] == u;
                                    assert(q@.subrange(0, ts as int)[k] == u);
                                    assert(q@[k] == u);
                                }
                            }
                            lemma_walk_of_len_connects(graph, start, q@[*head as int], depth[q@[*head as int] as int]);
                            assert(graph.reachable(start, u));
                            assert(graph.adj()(u, x));
                        }
                    }
                    return false;
                }
            } else {
                let ghost cb = col@;
                let ghost qb = q@;
                let nc: u8 = 1 - cu;
                proof {
                    assert(cu == 0 || cu == 1);
                    lemma_count_colored_set(col@, x as int, nc);
                    lemma_count_colored_bound(col@.update(x as int, nc));
                    let k = choose|k: int| 0 <= k < q@.len() && q@[k] == u;
                    assert(ts <= *head);
                    assert(q@[*head as int] == u);
                    assert(walk_of_len(graph.adj(), start, q@[*head as int], depth[q@[*head as int] as int]));
                    lemma_walk_of_len_step(graph.adj(), start, u, x, depth[u as int]);
                    depth = depth.update(x as int, depth[u as int] + 1);
                }
                col.set(x, nc);
                q.push(x);
                proof {
                    lemma_bip_push(graph, cb, qb, *head as int, ts as int, x, nc);
                    assert(q@.subrange(0, ts as int) =~= qb.subrange(0, ts as int));
                    assert forall|k: int| ts <= k < q@.len() implies walk_of_len(graph.adj(), start, #[trigger] q@[k], depth[q@[k] as int])
                        && col@[q@[k] as int] as int == depth[q@[k] as int] as int % 2 by {
                        if k < qb.len() {
                            assert(q@[k] == qb[k]);
                            assert(qb[k] != x);
                        }
                    }
                    assert forall|v: int| 0 <= v < col0.len() && col0[v] != 2 implies #[trigger] col@[v] != 2 by {
                        if v != x as int {
                            assert(cb[v] != 2);
                        }
                    }
                }
            }
            proof {
                assert forall|jj: int| 0 <= jj < j + 1 implies col@[#[trigger] nbrs@[jj] as int] != 2
                    && col@[nbrs@[jj] as int] != cu by {
                    assert(nbrs@.contains(nbrs@[jj]));
                }
            }
            j = j + 1;
        }
        *head = *head + 1;
        proof {
            assert forall|i: int, y: usize| 0 <= i < *head && #[trigger] graph.adj()(q@[i], y)
                implies (y as int) < n && col@[y as int] != 2 && col@[y as int] != col@[q@[i] as int] by {
                if i == *head - 1 {
                    assert(nbrs@.contains(y));
                    let jj = choose|jj: int| 0 <= jj < nbrs@.len() && nbrs@[jj] == y;
                }
            }
        }
    }
    proof {
        assert forall|i: int, x: usize| 0 <= i < q@.len() && #[trigger] graph.adj()(q@[i], x)
            implies q@.subrange(0, q@.len() as int).contains(x) by {
            assert(col@[x as int] != 2);
            assert(q@.subrange(0, q@.len() as int) =~= q@);
        }
        assert forall|k: int| q0.len() <= k < q@.len() implies graph.reachable(start, #[trigger] q@[k]) by {
            lemma_walk_of_len_connects(graph, start, q@[k], depth[q@[k] as int]);
        }
    }
    true
}

/// A walk of known length from an existing node reaches its end.
proof fn lemma_walk_of_len_connects<A, W, Ty: GraphConstructor>(graph: &BaseGraph<A, W, Ty>, a: usize, b: usize, k: nat)
    requires
        graph.has_node(a as int),
        walk_of_len(graph.adj(), a, b, k),
    ensures
        graph.reachable(a, b),
{
    let w = choose|w: Seq<usize>| #[trigger] is_walk_in(graph.adj(), w) && w.len() == k + 1 && w[0] == a && w.last() == b;
    assert(is_walk_in(graph.adj(), w));
}

/// Coloring the uncolored node `x` and queueing it keeps the search state.
proof fn lemma_bip_push<A, W, Ty: GraphConstructor>(
    graph: &BaseGraph<A, W, Ty>,
    cb: Seq<u8>,
    qb: Seq<usize>,
    head: int,
    ts: int,
    x: usize,
    nc: u8,
)
    requires
        bip_state(graph, cb, qb, head, ts),
        (x as int) < cb.len(),
        graph.has_node(x as int),
        cb[x as int] == 2,
        nc <= 1,
        cb.len() <= usize::MAX,
    ensures
        bip_state(graph, cb.update(x as int, nc), qb.push(x), head, ts),
{
    let n = graph.node_slots().len();
    let col = cb.update(x as int, nc);
    let q = qb.push(x);
    lemma_count_colored_set(cb, x as int, nc);
    assert forall|v: int| 0 <= v < n implies (#[trigger] col[v] != 2 <==> q.contains(v as usize)) by {
        if v == x as int {
            assert(q.last() == x);
        } else {
            if q.contains(v as usize) {
                let k = choose|k: int| 0 <= k < q.len() && q[k] == v as usize;
                if k < qb.len() {
                    assert(qb[k] == v as usize);
                    assert(qb.contains(v as usize));
                }
            }
            if qb.contains(v as usize) {
                let k = choose|k: int| 0 <= k < qb.len() && qb[k] == v as usize;
                assert(q[k] == v as usize);
            }
        }
    }
    assert forall|a: int, b: int| 0 <= a < q.len() && 0 <= b < q.len() && a != b implies q[a] != q[b] by {
        if a == qb.len() {
            assert(qb.contains(q[b]));
        } else if b == qb.len() {
            assert(qb.contains(q[a]));
        }
    }
    assert forall|i: int, y: usize| 0 <= i < head && #[trigger] graph.adj()(q[i], y)
        implies (y as int) < n && col[y as int] != 2 && col[y as int] != col[q[i] as int] by {
        assert(q[i] == qb[i]);
        assert(cb[y as int] != 2);
    }
    assert forall|i: int, y: usize| 0 <= i < ts && #[trigger] graph.adj()(q[i], y)
        implies q.subrange(0, ts).contains(y) by {
        assert(q[i] == qb[i]);
        assert(qb.subrange(0, ts).contains(y));
        assert(q.subrange(0, ts) =~= qb.subrange(0, ts));
    }
    assert forall|i: int| 0 <= i < q.len() implies (#[trigger] q[i] as int) < n && graph.has_node(q[i] as int) by {
        if i < qb.len() {
            assert(q[i] == qb[i]);
        }
    }
    assert forall|v: int| 0 <= v < n implies #[trigger] col[v] <= 2 by {
        if v != x as int {
            assert(col[v] == cb[v]);
        }
    }
}

/// A neighbor colored like the node being expanded, in an undirected graph,
/// closes a walk of odd length: no two-coloring exists.
proof fn lemma_conflict<A, W, Ty: GraphConstructor>(
    graph: &BaseGraph<A, W, Ty>,
    col: Seq<u8>,
    q: Seq<usize>,
    head: int,
    ts: int,
    depth: Seq<nat>,
    start: usize,
    u: usize,
    x: usize,
)
    requires
        bip_state(graph, col, q, head, ts),
        ts <= head < q.len(),
        q[head] == u,
        (u as int) < col.len(),
        (x as int) < col.len(),
        graph.adj()(u, x),
        col[x as int] != 2,
        col[x as int] == col[u as int],
        depth.len() == col.len(),
        forall|k: int| ts <= k < q.len() ==> walk_of_len(graph.adj(), start, #[trigger] q[k], depth[q[k] as int])
            && col[q[k] as int] as int == depth[q[k] as int] as int % 2,
    ensures
        !graph.directed() ==> !spec_bipartite(graph),
        !spec_bipartite(graph) || q.subrange(0, ts).contains(x),
{
    if spec_bipartite(graph) && (!graph.directed() || !q.subrange(0, ts).contains(x)) {
        assert(q.contains(x));
        let kx = choose|k: int| 0 <= k < q.len() && q[k] == x;
        if kx < ts {
            assert(q.subrange(0, ts)[kx] == x);
            graph.lemma_adj_symmetric_undirected();
            assert(graph.adj()(x, u));
            assert(graph.adj()(q[kx], u));
            assert(q.subrange(0, ts).contains(u));
            let ku = choose|k: int| 0 <= k < q.subrange(0, ts).len() && q.subrange(0, ts)[k] == u;
            assert(q[ku] == u);
            assert(ku != head);
        } else {
            let c = choose|c: spec_fn(usize) -> bool| valid_two_coloring(graph, c);
            assert(walk_of_len(graph.adj(), start, q[head], depth[q[head] as int]));
            assert(walk_of_len(graph.adj(), start, q[kx], depth[q[kx] as int]));
            let wu = choose|w: Seq<usize>| #[trigger] is_walk_in(graph.adj(), w) && w.len() == depth[u as int] + 1
                && w[0] == start && w.last() == u;
            let wx = choose|w: Seq<usize>| #[trigger] is_walk_in(graph.adj(), w) && w.len() == depth[x as int] + 1
                && w[0] == start && w.last() == x;
            lemma_coloring_parity(graph, c, wu, wu.len() - 1);
            lemma_coloring_parity(graph, c, wx, wx.len() - 1);
            assert(c(u) != c(x));
        }
    }
}

/// Marks every node weakly connected to the unmarked node `s`.
fn mark_component<A, W, Ty: GraphConstructor>(
    graph: &BaseGraph<A, W, Ty>,
    s: usize,
    m: &mut Vec<bool>,
    count: &mut usize,
)
    requires
        graph.wf(),
        graph.has_node(s as int),
        marks_nodes(graph, old(m)@),
        !old(m)@[s as int],
        *old(count) == count_true(old(m)@),
        weakly_closed(graph, old(m)@),
    ensures
        marks_nodes(graph, final(m)@),
        *final(count) == count_true(final(m)@),
        weakly_closed(graph, final(m)@),
        forall|v: int| 0 <= v < final(m)@.len() ==> (#[trigger] final(m)@[v] <==> old(m)@[v]
            || graph.weakly_connected(s, v as usize)),
{
    let n = graph.node_bound();
    let ghost m0 = m@;
    let mut stack: Vec<usize> = Vec::new();
    proof {
        lemma_count_true_set(m@, s as int);
        lemma_count_true_bound(m@.update(s as int, true));
        lemma_connects_refl(graph.weak_adj(), s);
    }
    m.set(s, true);
    *count = *count + 1;
    stack.push(s);
    proof {
        assert forall|v: usize, x: usize| v < n && m@[v as int] && !stack@.contains(v)
            && #[trigger] graph.weak_adj()(v, x) implies (x as int) < n && m@[x as int] by {
            if v == s {
                assert(stack@[0] == s);
            } else {
                assert(m0[v as int]);
            }
        }
    }
    while stack.len() > 0
        invariant
            graph.wf(),
            n == graph.node_slots().len(),
            graph.has_node(s as int),
            marks_nodes(graph, m@),
            m0.len() == n,
            *count == count_true(m@),
            weakly_closed(graph, m0),
            forall|v: int| 0 <= v < n && m0[v] ==> #[trigger] m@[v],
            forall|v: int| 0 <= v < n && #[trigger] m@[v] && !m0[v] ==> graph.weakly_connected(s, v as usize),
            m@[s as int],
            forall|i: int| 0 <= i < stack@.len() ==> (#[trigger] stack@[i] as int) < n && m@[stack@[i] as int],
            forall|v: usize, x: usize| v < n && m@[v as int] && !stack@.contains(v)
                && #[trigger] graph.weak_adj()(v, x) ==> (x as int) < n && m@[x as int],
        decreases n - count_true(m@), stack@.len(),
    {
        proof {
            lemma_count_true_bound(m@);
        }
        let ghost st0 = stack@;
        let u = stack.pop().unwrap();
        let ghost mb = m@;
        let ghost sb = stack@;
        mark_neighbors(graph, u, m, count, &mut stack);
        proof {
            assert forall|v: int| 0 <= v < n && #[trigger] m@[v] && !m0[v] implies graph.weakly_connected(s, v as usize) by {
                if !mb[v] {
                    assert(graph.weak_adj()(u, v as usize));
                    if m0[u as int] {
                        assert(m0[v]);
                    } else {
                        lemma_connects_step(graph.weak_adj(), s, u, v as usize);
                    }
                }
            }
            assert forall|i: int| 0 <= i < stack@.len() implies (#[trigger] stack@[i] as int) < n && m@[stack@[i] as int] by {
            }
        }
        proof {
            assert forall|v: usize, x: usize| v < n && m@[v as int] && !stack@.contains(v)
                && #[trigger] graph.weak_adj()(v, x) implies (x as int) < n && m@[x as int] by {
                if v != u {
                    if st0.contains(v) {
                        let k = choose|k: int| 0 <= k < st0.len() && st0[k] == v;
                        if k < st0.len() - 1 {
                            assert(stack@.contains(v)) by {
                                assert(sb[k] == v);
                                assert(stack@[k] == v);
                            }
                        }
                    }
                    if mb[v as int] {
                        assert((x as int) < n && mb[x as int]);
                    } else {
                        assert(stack@.contains(v));
                    }
                }
            }
            lemma_count_true_bound(m@);
        }
    }
    proof {
        assert forall|v: int| 0 <= v < m@.len() implies (#[trigger] m@[v] <==> m0[v]
            || graph.weakly_connected(s, v as usize)) by {
            if graph.weakly_connected(s, v as usize) && !m@[v] {
                let set = marked(m@);
                assert forall|a: usize, b: usize| set(a) && #[trigger] graph.weak_adj()(a, b) implies set(b) by {
                    assert(stack@.len() == 0);
                    assert(!stack@.contains(a));
                }
                lemma_closed_contains_connected(graph.weak_adj(), set, s, v as usize);
            }
        }
        assert forall|u: usize, x: usize| (u as int) < m@.len() && m@[u as int] && #[trigger] graph.weak_adj()(u, x)
            implies (x as int) < m@.len() && m@[x as int] by {
            assert(stack@.len() == 0);
            assert(!stack@.contains(u));
        }
    }
}

/// Marks the unmarked neighbors (ignoring direction) of the marked node `u` and
/// pushes them on `stack`.
fn mark_neighbors<A, W, Ty: GraphConstructor>(
    graph: &BaseGraph<A, W, Ty>,
    u: usize,
    m: &mut Vec<bool>,
    count: &mut usize,
    stack: &mut Vec<usize>,
)
    requires
        graph.wf(),
        marks_nodes(graph, old(m)@),
        (u as int) < old(m)@.len(),
        old(m)@[u as int],
        *old(count) == count_true(old(m)@),
        forall|i: int| 0 <= i < old(stack)@.len() ==> (#[trigger] old(stack)@[i] as int) < old(m)@.len()
            && old(m)@[old(stack)@[i] as int],
    ensures
        marks_nodes(graph, final(m)@),
        *final(count) == count_true(final(m)@),
        count_true(final(m)@) >= count_true(old(m)@),
        count_true(final(m)@) == count_true(old(m)@) ==> final(stack)@ == old(stack)@,
        final(stack)@.len() >= old(stack)@.len(),
        final(stack)@.subrange(0, old(stack)@.len() as int) == old(stack)@,
        forall|v: int| 0 <= v < old(m)@.len() && old(m)@[v] ==> #[trigger] final(m)@[v],
        forall|v: int| 0 <= v < final(m)@.len() && #[trigger] final(m)@[v] && !old(m)@[v]
            ==> graph.weak_adj()(u, v as usize) && final(stack)@.contains(v as usize),
        forall|x: usize| #[trigger] graph.weak_adj()(u, x) ==> (x as int) < final(m)@.len() && final(m)@[x as int],
        forall|i: int| 0 <= i < final(stack)@.len() ==> (#[trigger] final(stack)@[i] as int) < final(m)@.len()
            && final(m)@[final(stack)@[i] as int],
{
    let nbrs = graph.weak_neighbor_indices(u);
    proof {
        graph.lemma_neighbors_exist(u);
    }
    let ghost m0 = m@;
    let ghost s0 = stack@;
    let mut j: usize = 0;
    while j < nbrs.len()
        invariant
            graph.wf(),
            marks_nodes(graph, m@),
            m0.len() == m@.len(),
            *count == count_true(m@),
            count_true(m@) >= count_true(m0),
            count_true(m@) == count_true(m0) ==> stack@ == s0,
            stack@.len() >= s0.len(),
            stack@.subrange(0, s0.len() as int) == s0,
            nbrs@ == graph.weak_neighbor_seq(u),
            j <= nbrs@.len(),
            forall|x: usize| #[trigger] graph.weak_neighbor_seq(u).contains(x) ==> graph.has_node(x as int),
            forall|v: int| 0 <= v < m0.len() && m0[v] ==> #[trigger] m@[v],
            forall|v: int| 0 <= v < m@.len() && #[trigger] m@[v] && !m0[v]
                ==> graph.weak_adj()(u, v as usize) && stack@.contains(v as usize),
            forall|jj: int| 0 <= jj < j ==> m@[#[trigger] nbrs@[jj] as int],
            forall|i: int| 0 <= i < stack@.len() ==> (#[trigger] stack@[i] as int) < m@.len() && m@[stack@[i] as int],
        decreases nbrs@.len() - j,
    {
        let x = nbrs[j];
        assert(graph.weak_neighbor_seq(u).contains(x));
        let ghost mb = m@;
        let ghost sb = stack@;
        if !m[x] {
            let ml = m.len();
            proof {
                lemma_count_true_set(m@, x as int);
                lemma_count_true_bound(m@.update(x as int, true));
                lemma_count_true_bound(m@);
            }
            m.set(x, true);
            *count = *count + 1;
            stack.push(x);
            proof {
                assert(stack@.subrange(0, s0.len() as int) =~= sb.subrange(0, s0.len() as int));
                assert forall|v: int| 0 <= v < m@.len() && #[trigger] m@[v] && !m0[v]
                    implies graph.weak_adj()(u, v as usize) && stack@.contains(v as usize) by {
                    if v == x as int {
                        assert(stack@.last() == x);
                    } else {
                        assert(mb[v]);
                        assert(sb.contains(v as usize));
                        let k = choose|k: int| 0 <= k < sb.len() && sb[k] == v as usize;
                        assert(stack@[k] == v as usize);
                    }
                }
            }
        }
        proof {
            assert forall|jj: int| 0 <= jj < j + 1 implies m@[#[trigger] nbrs@[jj] as int] by {
                assert(nbrs@.contains(nbrs@[jj]));
                if jj < j {
                    assert(mb[nbrs@[jj] as int]);
                }
            }
        }
        j = j + 1;
    }
    proof {
        assert forall|x: usize| #[trigger] graph.weak_adj()(u, x) implies (x as int) < m@.len() && m@[x as int] by {
            assert(nbrs@.contains(x));
            let jj = choose|jj: int| 0 <= jj < nbrs@.len() && nbrs@[jj] == x;
        }
    }
}

} // verus!
