//! Layout choices and the discrete part of laying out a graph: which cell
//! of a grid each node takes. Turning cells into coordinates is left to the
//! caller.

use vstd::prelude::*;
use crate::types::{BaseGraph, GraphConstructor, NodeId, ids, count_true, lemma_count_true_set, lemma_count_true_bound};
use crate::subgraphs::{within_hops, lemma_within_extend, lemma_within_last_step};
use crate::traversal::falses;
use crate::hops::lemma_within_zero;

verus! {

/// Layout algorithms for graph visualization.
#[derive(Debug, Clone, Copy, PartialEq, Eq, Structural)]
pub enum LayoutAlgorithm {
    /// Force-directed layout (the default).
    ForceDirected,
    /// Circular layout.
    Circular,
    /// Hierarchical (tree) layout.
    Hierarchical,
    /// Grid layout.
    Grid,
    /// Random layout.
    Random,
}

impl Default for LayoutAlgorithm {
    fn default() -> (a: Self)
        ensures
            a == LayoutAlgorithm::ForceDirected,
    {
        LayoutAlgorithm::ForceDirected
    }
}

/// Computes node placements.
pub struct LayoutEngine;

/// `c` is the number of columns of a square-ish grid for `n` cells: the
/// least `c` with `c * c >= n`.
pub open spec fn grid_columns(n: nat, c: nat) -> bool {
    c * c >= n && (c == 0 || (c - 1) * (c - 1) < n)
}

impl LayoutEngine {
    /// The grid for the nodes: the number of columns (the least whose square
    /// holds every node), the number of rows (enough rows of that many
    /// columns), and for each node, in id order, its row and column: the
    /// `k`-th node fills cell `k`, row by row.
    pub fn grid_cells<A, W, Ty: GraphConstructor>(graph: &BaseGraph<A, W, Ty>)
        -> (r: (usize, usize, Vec<(NodeId, usize, usize)>))
        requires
            graph.wf(),
        ensures
            grid_columns(graph.spec_node_ids().len(), r.0 as nat),
            r.1 * r.0 >= graph.spec_node_ids().len(),
            r.1 == 0 || (r.1 - 1) * r.0 < graph.spec_node_ids().len(),
            r.2@.len() == graph.spec_node_ids().len(),
            forall|k: int| 0 <= k < r.2@.len() ==> (#[trigger] r.2@[k]).0.0 == graph.spec_node_ids()[k]
                && r.2@[k].1 == k / (r.0 as int) && r.2@[k].2 == k % (r.0 as int),
    {
        let nodes = graph.node_ids();
        let n = nodes.len();
        let cols = ceil_sqrt(n);
        let rows = if n == 0 { 0 } else { (n - 1) / cols + 1 };
        proof {
            if n > 0 {
                let m = (n - 1) as int;
                let q = m / (cols as int);
                let r = m % (cols as int);
                assert(m == cols * q + r && 0 <= r < cols) by (nonlinear_arith)
                    requires cols >= 1, q == m / (cols as int), r == m % (cols as int), m >= 0;
                assert((q + 1) * cols >= n && q * cols < n) by (nonlinear_arith)
                    requires cols >= 1, m == cols * q + r, 0 <= r < cols, m == n - 1, q >= 0;
            }
            assert(ids(nodes@).len() == n);
        }
        let mut cells: Vec<(NodeId, usize, usize)> = Vec::new();
        let mut k: usize = 0;
        while k < n
            invariant
                k <= n,
                n == nodes@.len(),
                cols > 0 || n == 0,
                ids(nodes@) == graph.spec_node_ids(),
                cells@.len() == k,
                forall|j: int| 0 <= j < k ==> (#[trigger] cells@[j]).0.0 == graph.spec_node_ids()[j]
                    && cells@[j].1 == j / (cols as int) && cells@[j].2 == j % (cols as int),
            decreases n - k,
        {
            proof {
                assert(ids(nodes@)[k as int] == nodes@[k as int].0);
            }
            cells.push((nodes[k], k / cols, k % cols));
            k = k + 1;
        }
        proof {
            assert(ids(nodes@).len() == n);
        }
        (cols, rows, cells)
    }
}

/// The least `c` with `c * c >= n`.
fn ceil_sqrt(n: usize) -> (c: usize)
    ensures
        grid_columns(n as nat, c as nat),
        c <= n,
        n > 0 ==> c > 0,
{
    if n == 0 {
        return 0;
    }
    let mut c: usize = 1;
    while c <= (n - 1) / c
        invariant
            n > 0,
            1 <= c <= n,
            (c - 1) * (c - 1) < n,
        decreases n - c,
    {
        proof {
            let m = (n - 1) as int;
            let q = m / (c as int);
            assert(c * c <= m) by (nonlinear_arith)
                requires c >= 1, c <= q, q == m / (c as int), m >= 0;
        }
        c = c + 1;
    }
    proof {
        let m = (n - 1) as int;
        let q = m / (c as int);
        let r = m % (c as int);
        assert(m == c * q + r && 0 <= r < c) by (nonlinear_arith)
            requires c >= 1, q == m / (c as int), r == m % (c as int), m >= 0;
        assert(c * c >= n) by (nonlinear_arith)
            requires c >= 1, q < c, m == c * q + r, 0 <= r < c, m == n - 1, q >= 0;
    }
    c
}

/// `x` is a node that nothing enters (directed graphs) or that has no
/// neighbour (undirected graphs).
pub open spec fn is_source_node<A, W, Ty: GraphConstructor>(g: BaseGraph<A, W, Ty>, x: usize) -> bool {
    &&& g.has_node(x as int)
    &&& if g.directed() { g.spec_in_count(x) == 0 } else { g.spec_degree(x) == 0 }
}

/// Where the layered layout starts: the source nodes, or the first node when
/// there is none.
pub open spec fn layout_start<A, W, Ty: GraphConstructor>(g: BaseGraph<A, W, Ty>, x: usize) -> bool {
    if exists|y: usize| #[trigger] is_source_node(g, y) {
        is_source_node(g, x)
    } else {
        g.spec_node_ids().len() > 0 && x == g.spec_node_ids()[0]
    }
}

/// Some start reaches `x` in at most `k` steps.
pub open spec fn near<A, W, Ty: GraphConstructor>(g: BaseGraph<A, W, Ty>, x: usize, k: nat) -> bool {
    exists|s: usize| layout_start(g, s) && #[trigger] within_hops(g, s, x, k)
}

/// `x` lies exactly `k` steps from the starts.
pub open spec fn at_level<A, W, Ty: GraphConstructor>(g: BaseGraph<A, W, Ty>, x: usize, k: nat) -> bool {
    near(g, x, k) && (k == 0 || !near(g, x, (k - 1) as nat))
}

/// Some start reaches `x`.
pub open spec fn reached_from_starts<A, W, Ty: GraphConstructor>(g: BaseGraph<A, W, Ty>, x: usize) -> bool {
    exists|k: nat| #[trigger] near(g, x, k)
}

/// The nodes among the first `j` of `nodes` that no start reaches, in order.
pub open spec fn unreached_prefix<A, W, Ty: GraphConstructor>(g: BaseGraph<A, W, Ty>, nodes: Seq<usize>, j: int) -> Seq<usize>
    decreases j,
{
    if j <= 0 {
        seq![]
    } else {
        let prev = unreached_prefix(g, nodes, j - 1);
        if reached_from_starts(g, nodes[j - 1]) { prev } else { prev.push(nodes[j - 1]) }
    }
}

/// Being near grows with the distance.
proof fn lemma_near_mono<A, W, Ty: GraphConstructor>(g: BaseGraph<A, W, Ty>, x: usize, k: nat, j: nat)
    requires
        near(g, x, k),
        k <= j,
    ensures
        near(g, x, j),
{
    let s = choose|s: usize| layout_start(g, s) && #[trigger] within_hops(g, s, x, k);
    crate::laws::law_hops_monotone(g, s, x, k, j);
}

/// A node `k + 1` steps away has a neighbour-before `k` steps away.
proof fn lemma_level_predecessor<A, W, Ty: GraphConstructor>(g: BaseGraph<A, W, Ty>, x: usize, k: nat)
    requires
        at_level(g, x, k + 1),
    ensures
        exists|p: usize| #[trigger] at_level(g, p, k) && g.adj()(p, x),
    decreases k,
{
    let s = choose|s: usize| layout_start(g, s) && #[trigger] within_hops(g, s, x, k + 1);
    lemma_within_last_step(g, s, x, k);
    if within_hops(g, s, x, k) {
        assert(near(g, x, k));
    } else {
        let p = choose|p: usize| within_hops(g, s, p, k) && #[trigger] g.adj()(p, x);
        assert(near(g, p, k));
        if k > 0 && near(g, p, (k - 1) as nat) {
            let s2 = choose|s2: usize| layout_start(g, s2) && #[trigger] within_hops(g, s2, p, (k - 1) as nat);
            lemma_within_extend(g, s2, p, x, (k - 1) as nat);
            assert(near(g, x, k));
        }
        assert(at_level(g, p, k));
    }
}

/// A node near the starts is at some level no further than that.
proof fn lemma_has_level<A, W, Ty: GraphConstructor>(g: BaseGraph<A, W, Ty>, x: usize, k: nat)
    requires
        near(g, x, k),
    ensures
        exists|m: nat| m <= k && #[trigger] at_level(g, x, m),
    decreases k,
{
    if k == 0 || !near(g, x, (k - 1) as nat) {
        assert(at_level(g, x, k));
    } else {
        lemma_has_level(g, x, (k - 1) as nat);
        let m = choose|m: nat| m <= (k - 1) as nat && #[trigger] at_level(g, x, m);
    }
}

/// When no node is at level `r`, no node is at any level beyond.
proof fn lemma_levels_end<A, W, Ty: GraphConstructor>(g: BaseGraph<A, W, Ty>, x: usize, k: nat, r: nat)
    requires
        forall|y: usize| !#[trigger] at_level(g, y, r),
        at_level(g, x, k),
    ensures
        k < r,
    decreases k,
{
    if k >= r {
        if k == r {
            assert(at_level(g, x, r));
        } else {
            lemma_level_predecessor(g, x, (k - 1) as nat);
            let p = choose|p: usize| #[trigger] at_level(g, p, (k - 1) as nat) && g.adj()(p, x);
            lemma_levels_end(g, p, (k - 1) as nat, r);
        }
    }
}

/// The unvisited nodes waiting in `queue` at or after position `h` are
/// exactly those at level `r`.
pub open spec fn frontier<A, W, Ty: GraphConstructor>(g: BaseGraph<A, W, Ty>, queue: Seq<usize>, h: int,
    visited: Seq<bool>, r: nat) -> bool {
    forall|x: usize| (#[trigger] pending(queue, h, x) && !visited[x as int]) <==> at_level(g, x, r)
}

/// `x` waits in `queue` at or after position `h`.
pub open spec fn pending(queue: Seq<usize>, h: int, x: usize) -> bool {
    queue.subrange(h, queue.len() as int).contains(x)
}

/// One round of the layered search: takes every node waiting in the queue,
/// visits those not yet visited (they form the round's layer) and queues
/// their unvisited neighbours.
#[verifier::rlimit(100)]
#[verifier::spinoff_prover]
fn layout_round<A, W, Ty: GraphConstructor>(g: &BaseGraph<A, W, Ty>, queue: &mut Vec<usize>, head: &mut usize,
    visited: &mut Vec<bool>, Ghost(r): Ghost<nat>) -> (current: Vec<NodeId>)
    requires
        g.wf(),
        old(visited)@.len() == g.node_slots().len(),
        *old(head) < old(queue)@.len(),
        forall|k: int| 0 <= k < old(queue)@.len() ==> (#[trigger] old(queue)@[k] as int) < g.node_slots().len(),
        forall|x: usize| (x as int) < g.node_slots().len() ==> (#[trigger] old(visited)@[x as int]
            <==> (r > 0 && near(*g, x, (r - 1) as nat))),
        frontier(*g, old(queue)@, *old(head) as int, old(visited)@, r),
        forall|x: usize| #[trigger] pending(old(queue)@, *old(head) as int, x) ==> near(*g, x, r),
    ensures
        final(visited)@.len() == old(visited)@.len(),
        *final(head) == old(queue)@.len(),
        final(queue)@.len() >= old(queue)@.len(),
        forall|k: int| 0 <= k < final(queue)@.len() ==> (#[trigger] final(queue)@[k] as int) < g.node_slots().len(),
        forall|x: usize| (x as int) < g.node_slots().len() ==> (#[trigger] final(visited)@[x as int] <==> near(*g, x, r)),
        forall|x: usize| #[trigger] ids(current@).contains(x) <==> at_level(*g, x, r),
        ids(current@).no_duplicates(),
        forall|x: usize| #[trigger] pending(final(queue)@, *final(head) as int, x) ==> near(*g, x, r + 1),
        frontier(*g, final(queue)@, *final(head) as int, final(visited)@, (r + 1) as nat),
        current@.len() == 0 ==> final(queue)@.len() == old(queue)@.len(),
        count_true(final(visited)@) == count_true(old(visited)@) + current@.len(),
{
    let n = g.node_bound();
    let end = queue.len();
    let mut hd: usize = *head;
    let ghost h0 = hd as int;
    let ghost q0 = queue@;
    let ghost vis0 = visited@;
    let mut current: Vec<NodeId> = Vec::new();
    while hd < end
        invariant
            g.wf(),
            n == g.node_slots().len(),
            visited@.len() == n,
            vis0.len() == n,
            end == q0.len(),
            0 <= h0 <= hd <= end,
            q0.is_prefix_of(queue@),
            forall|k: int| 0 <= k < queue@.len() ==> (#[trigger] queue@[k] as int) < n,
            forall|x: usize| (x as int) < n ==> (#[trigger] vis0[x as int] <==> (r > 0 && near(*g, x, (r - 1) as nat))),
            frontier(*g, q0, h0, vis0, r),
            forall|x: usize| #[trigger] pending(q0, h0, x) ==> near(*g, x, r),
            forall|x: usize| (x as int) < n ==> (#[trigger] visited@[x as int] <==> vis0[x as int] || ids(current@).contains(x)),
            forall|x: usize| #[trigger] ids(current@).contains(x) <==> (q0.subrange(h0, hd as int).contains(x)
                && !vis0[x as int]),
            ids(current@).no_duplicates(),
            forall|k: int| end <= k < queue@.len() ==> near(*g, #[trigger] queue@[k], r + 1),
            forall|y: usize, v: usize| #[trigger] ids(current@).contains(y) && #[trigger] g.adj()(y, v)
                ==> (v as int) < n && (visited@[v as int] || queue@.subrange(end as int, queue@.len() as int).contains(v)),
            current@.len() == 0 ==> queue@.len() == end,
            count_true(visited@) == count_true(vis0) + current@.len(),
        decreases end - hd,
    {
        let u = queue[hd];
        let ghost hb = hd as int;
        proof {
            assert(hb < q0.len());
            assert(queue@[hb] == u);
            assert(q0.is_prefix_of(queue@));
            assert(q0[hb] == queue@[hb]);
        }
        hd = hd + 1;
        proof {
            assert(q0[hb] == u);
            assert(0 <= h0 <= hb < q0.len());
            assert(q0.subrange(h0, hb + 1).len() == hb + 1 - h0);
            assert(q0.subrange(h0, hb + 1)[hb - h0] == u);
            assert(q0.subrange(h0, hb + 1) =~= q0.subrange(h0, hb).push(u));
        }
        if !visited[u] {
            proof {
                assert(pending(q0, h0, u)) by {
                    assert(q0.subrange(h0, q0.len() as int)[hb - h0] == u);
                }
                assert(at_level(*g, u, r));
                lemma_count_true_set(visited@, u as int);
                lemma_count_true_bound(visited@.update(u as int, true));
            }
            proof {
                assert(!vis0[u as int]);
                assert(!ids(current@).contains(u));
            }
            visited.set(u, true);
            let ghost cur0 = current@;
            current.push(NodeId(u));
            proof {
                assert(ids(current@) =~= ids(cur0).push(u));
            }
            let nbrs = g.neighbor_indices(u);
            proof {
                g.lemma_neighbors_exist(u);
            }
            let ghost qm = queue@;
            let mut j: usize = 0;
            while j < nbrs.len()
                invariant
                    g.wf(),
                    n == g.node_slots().len(),
                    visited@.len() == n,
                    end == q0.len(),
                    qm.is_prefix_of(queue@),
                    qm.len() >= end,
                    q0.is_prefix_of(qm),
                    nbrs@ == g.neighbor_seq(u),
                    j <= nbrs@.len(),
                    near(*g, u, r),
                    forall|x: usize| #[trigger] g.neighbor_seq(u).contains(x) ==> g.has_node(x as int),
                    forall|k: int| 0 <= k < queue@.len() ==> (#[trigger] queue@[k] as int) < n,
                    forall|k: int| end <= k < queue@.len() ==> near(*g, #[trigger] queue@[k], r + 1),
                    forall|jj: int| 0 <= jj < j ==> (#[trigger] nbrs@[jj] as int) < n && (visited@[nbrs@[jj] as int]
                        || queue@.subrange(end as int, queue@.len() as int).contains(nbrs@[jj])),
                decreases nbrs@.len() - j,
            {
                let x = nbrs[j];
                assert(g.neighbor_seq(u).contains(x));
                if !visited[x] {
                    let ghost qb = queue@;
                    proof {
                        let s0 = choose|s0: usize| layout_start(*g, s0) && #[trigger] within_hops(*g, s0, u, r);
                        lemma_within_extend(*g, s0, u, x, r);
                        assert(near(*g, x, r + 1));
                    }
                    queue.push(x);
                    proof {
                        assert forall|jj: int| 0 <= jj < j + 1 implies (#[trigger] nbrs@[jj] as int) < n && (visited@[nbrs@[jj] as int]
                            || queue@.subrange(end as int, queue@.len() as int).contains(nbrs@[jj])) by {
                            if jj == j as int {
                                assert(queue@.subrange(end as int, queue@.len() as int)[queue@.len() - 1 - end] == x);
                            } else if !visited@[nbrs@[jj] as int] {
                                let m = choose|m: int| 0 <= m < qb.len() - end
                                    && qb.subrange(end as int, qb.len() as int)[m] == nbrs@[jj];
                                assert(queue@.subrange(end as int, queue@.len() as int)[m] == nbrs@[jj]);
                            }
                        }
                        assert(qm.is_prefix_of(queue@)) by {
                            assert forall|k: int| 0 <= k < qm.len() implies qm[k] == queue@[k] by {
                                assert(qb[k] == queue@[k]);
                            }
                        }
                    }
                }
                j = j + 1;
            }
            proof {
                assert forall|k: int| 0 <= k < q0.len() implies q0[k] == queue@[k] by {
                    assert(q0[k] == qm[k]);
                }
                assert(q0.is_prefix_of(queue@));
                assert forall|y: usize, v: usize| #[trigger] ids(current@).contains(y) && #[trigger] g.adj()(y, v)
                    implies (v as int) < n && (visited@[v as int] || queue@.subrange(end as int, queue@.len() as int).contains(v)) by {
                    if y == u {
                        let jj = choose|jj: int| 0 <= jj < nbrs@.len() && nbrs@[jj] == v;
                    } else {
                        assert(ids(cur0).contains(y));
                        if !visited@[v as int] {
                            assert(qm.subrange(end as int, qm.len() as int).contains(v));
                            let m = choose|m: int| 0 <= m < qm.len() - end && qm.subrange(end as int, qm.len() as int)[m] == v;
                            assert(queue@.subrange(end as int, queue@.len() as int)[m] == v);
                        }
                    }
                }
                let sub0 = q0.subrange(h0, hb);
                let sub1 = q0.subrange(h0, hd as int);
                assert(sub1 == sub0.push(u));
                assert forall|x: usize| #[trigger] ids(current@).contains(x) <==> (sub1.contains(x)
                    && !vis0[x as int]) by {
                    assert(ids(current@).contains(x) <==> ids(cur0).contains(x) || x == u) by {
                        if ids(current@).contains(x) {
                            let m = choose|m: int| 0 <= m < ids(current@).len() && ids(current@)[m] == x;
                            if m < ids(cur0).len() {
                                assert(ids(cur0)[m] == x);
                            }
                        }
                        if ids(cur0).contains(x) {
                            let m = choose|m: int| 0 <= m < ids(cur0).len() && ids(cur0)[m] == x;
                            assert(ids(current@)[m] == x);
                        }
                        if x == u {
                            assert(ids(current@)[ids(cur0).len() as int] == u);
                        }
                    }
                    if sub1.contains(x) {
                        let m = choose|m: int| 0 <= m < sub1.len() && sub1[m] == x;
                        if m < sub0.len() {
                            assert(sub0[m] == x);
                        }
                    }
                    if sub0.contains(x) {
                        let m = choose|m: int| 0 <= m < sub0.len() && sub0[m] == x;
                        assert(sub1[m] == x);
                    }
                    if x == u {
                        assert(sub1[sub0.len() as int] == u);
                    }
                }
            }
        } else {
            proof {
                let sub0 = q0.subrange(h0, hb);
                let sub1 = q0.subrange(h0, hd as int);
                assert(sub1 == sub0.push(u));
                assert(visited@[u as int] <==> vis0[u as int] || ids(current@).contains(u));
                assert forall|x: usize| #[trigger] ids(current@).contains(x) <==> (sub1.contains(x)
                    && !vis0[x as int]) by {
                    if sub1.contains(x) {
                        let m = choose|m: int| 0 <= m < sub1.len() && sub1[m] == x;
                        if m < sub0.len() {
                            assert(sub0[m] == x);
                        }
                    }
                    if sub0.contains(x) {
                        let m = choose|m: int| 0 <= m < sub0.len() && sub0[m] == x;
                        assert(sub1[m] == x);
                    }
                    if x == u {
                        assert(sub1[sub0.len() as int] == u);
                    }
                }
            }
        }
    }
    proof {
        assert(q0.subrange(h0, end as int) =~= q0.subrange(h0, q0.len() as int));
        assert forall|x: usize| #[trigger] ids(current@).contains(x) <==> at_level(*g, x, r) by {
            assert(pending(q0, h0, x) == q0.subrange(h0, end as int).contains(x));
            if at_level(*g, x, r) {
                assert(pending(q0, h0, x) && !vis0[x as int]);
            }
        }
        assert forall|x: usize| (x as int) < n implies (#[trigger] visited@[x as int] <==> near(*g, x, r)) by {
            if near(*g, x, r) && !(r > 0 && near(*g, x, (r - 1) as nat)) {
                assert(at_level(*g, x, r));
            }
            if ids(current@).contains(x) {
                assert(at_level(*g, x, r));
            }
            if r > 0 && near(*g, x, (r - 1) as nat) {
                lemma_near_mono(*g, x, (r - 1) as nat, r);
            }
        }
        assert forall|x: usize| #[trigger] pending(queue@, hd as int, x) implies near(*g, x, r + 1) by {
            let m = choose|m: int| 0 <= m < queue@.len() - end && queue@.subrange(end as int, queue@.len() as int)[m] == x;
            assert(queue@[end + m] == x);
        }
        assert forall|x: usize| (#[trigger] pending(queue@, hd as int, x) && !visited@[x as int])
            <==> at_level(*g, x, (r + 1) as nat) by {
            if pending(queue@, hd as int, x) && !visited@[x as int] {
                let m = choose|m: int| 0 <= m < queue@.len() - end && queue@.subrange(end as int, queue@.len() as int)[m] == x;
                assert(queue@[end + m] == x);
                assert(!near(*g, x, r));
            }
            if at_level(*g, x, r + 1) {
                lemma_level_predecessor(*g, x, r);
                let p = choose|p: usize| #[trigger] at_level(*g, p, r) && g.adj()(p, x);
                assert(ids(current@).contains(p));
                assert(g.adj()(p, x));
                assert(!near(*g, x, r));
            }
        }
    }
    proof {
        assert(frontier(*g, queue@, hd as int, visited@, (r + 1) as nat));
    }
    *head = hd;
    current
}

/// Membership after a push.
proof fn lemma_push_contains(s: Seq<usize>, v: usize, x: usize)
    ensures
        s.push(v).contains(x) <==> s.contains(x) || x == v,
{
    if s.push(v).contains(x) {
        let m = choose|m: int| 0 <= m < s.push(v).len() && s.push(v)[m] == x;
        if m < s.len() {
            assert(s[m] == x);
        }
    }
    if s.contains(x) {
        let m = choose|m: int| 0 <= m < s.len() && s[m] == x;
        assert(s.push(v)[m] == x);
    }
    if x == v {
        assert(s.push(v)[s.len() as int] == v);
    }
}

/// Every node is listed among the node ids.
proof fn lemma_node_listed<A, W, Ty: GraphConstructor>(g: BaseGraph<A, W, Ty>, y: usize)
    requires
        g.has_node(y as int),
        g.node_slots().len() <= usize::MAX,
    ensures
        g.spec_node_ids().contains(y),
{
    crate::types::lemma_live_indices(g.node_slots());
    let i = y as int;
    assert(g.node_slots()[i] is Some);
    assert(crate::types::live_indices(g.node_slots()).contains(i as usize));
}

/// `layers` are the layers of the hierarchical layout: the first `levels`
/// hold, level by level, the nodes at each distance from the starts (none is
/// empty, none repeats a node, and no node lies further out); after them
/// comes one single-node layer for each node the starts do not reach, in id
/// order.
pub open spec fn layered<A, W, Ty: GraphConstructor>(g: BaseGraph<A, W, Ty>, layers: Seq<Vec<NodeId>>, levels: nat) -> bool {
    let rest = unreached_prefix(g, g.spec_node_ids(), g.spec_node_ids().len() as int);
    &&& levels <= layers.len()
    &&& forall|k: int| 0 <= k < levels ==> (#[trigger] layers[k])@.len() > 0 && ids(layers[k]@).no_duplicates()
    &&& forall|k: int, x: usize| 0 <= k < levels ==> (#[trigger] ids(layers[k]@).contains(x) <==> at_level(g, x, k as nat))
    &&& forall|x: usize| !#[trigger] at_level(g, x, levels)
    &&& layers.len() == levels + rest.len()
    &&& forall|t: int| 0 <= t < rest.len() ==> #[trigger] layers[levels + t]@ == seq![NodeId(rest[t])]
}

impl LayoutEngine {
    /// The layers of the hierarchical layout. The search starts from the
    /// nodes that nothing enters (directed graphs) or that have no neighbour
    /// (undirected graphs), or from the first node when there is none; each
    /// round takes the nodes queued by the previous one, keeps those not yet
    /// placed as the next layer, and queues their neighbours. Nodes the search
    /// never meets get a layer each. No layers for a graph without nodes.
    pub fn hierarchy_layers<A, W, Ty: GraphConstructor>(graph: &BaseGraph<A, W, Ty>) -> (layers: Vec<Vec<NodeId>>)
        requires
            graph.wf(),
        ensures
            graph.spec_node_ids().len() == 0 ==> layers@.len() == 0,
            graph.spec_node_ids().len() > 0 ==> exists|levels: nat| #[trigger] layered(*graph, layers@, levels),
    {
        let nodes = graph.node_ids();
        if nodes.len() == 0 {
            return Vec::new();
        }
        let n = graph.node_bound();
        let ghost ns = graph.spec_node_ids();
        proof {
            crate::types::lemma_live_indices(graph.node_slots());
            assert(ids(nodes@) == ns);
        }
        let mut queue: Vec<usize> = Vec::new();
        let mut i: usize = 0;
        while i < nodes.len()
            invariant
                graph.wf(),
                n == graph.node_slots().len(),
                ids(nodes@) == ns,
                ns == graph.spec_node_ids(),
                i <= nodes@.len(),
                forall|k: int| 0 <= k < ns.len() ==> (#[trigger] ns[k]) < n && graph.has_node(ns[k] as int),
                forall|k: int| 0 <= k < queue@.len() ==> (#[trigger] queue@[k] as int) < n,
                forall|x: usize| #[trigger] queue@.contains(x) <==> (is_source_node(*graph, x)
                    && ns.take(i as int).contains(x)),
            decreases nodes@.len() - i,
        {
            let nd = nodes[i];
            proof {
                assert(ns[i as int] == nd.0);
                assert(ns.take(i as int + 1) =~= ns.take(i as int).push(nd.0));
            }
            let zero = match graph.in_degree(nd) {
                Some(d) => d == 0,
                None => true,
            };
            proof {
                assert(graph.has_node(nd.0 as int));
                assert(zero <==> is_source_node(*graph, nd.0));
            }
            let ghost q0 = queue@;
            if zero {
                queue.push(nd.0);
            }
            proof {
                assert forall|x: usize| #[trigger] queue@.contains(x) <==> (is_source_node(*graph, x)
                    && ns.take(i as int + 1).contains(x)) by {
                    lemma_push_contains(ns.take(i as int), nd.0, x);
                    if zero {
                        lemma_push_contains(q0, nd.0, x);
                    }
                }
            }
            i = i + 1;
        }
        proof {
            assert(ns.take(ns.len() as int) =~= ns);
            crate::types::lemma_live_indices(graph.node_slots());
        }
        let ghost q_starts = queue@;
        if queue.len() == 0 {
            proof {
                assert forall|y: usize| !#[trigger] is_source_node(*graph, y) by {
                    if is_source_node(*graph, y) {
                        lemma_node_listed(*graph, y);
                        assert(queue@.contains(y));
                    }
                }
                assert(ns[0] == nodes@[0].0);
            }
            queue.push(nodes[0].0);
        }
        proof {
            crate::types::lemma_live_indices(graph.node_slots());
            if q_starts.len() > 0 {
                assert(q_starts.contains(q_starts[0]));
            }
            assert forall|x: usize| #[trigger] queue@.contains(x) <==> layout_start(*graph, x) by {
                if exists|y: usize| #[trigger] is_source_node(*graph, y) {
                    let y = choose|y: usize| #[trigger] is_source_node(*graph, y);
                    lemma_node_listed(*graph, y);
                    assert(queue@.contains(y));
                    if is_source_node(*graph, x) {
                        lemma_node_listed(*graph, x);
                    }
                } else {
                    if queue@.contains(x) {
                        assert(queue@ == seq![ns[0]]);
                    }
                    if x == ns[0] {
                        assert(queue@[0] == x);
                    }
                }
            }
        }
        let mut visited = falses(n);
        let mut head: usize = 0;
        let mut layers: Vec<Vec<NodeId>> = Vec::new();
        proof {
            crate::types::lemma_count_true_none(visited@);
            assert forall|x: usize| (#[trigger] pending(queue@, 0, x) && !visited@[x as int]) <==> at_level(*graph, x, 0) by {
                assert(queue@.subrange(0, queue@.len() as int) =~= queue@);
                if at_level(*graph, x, 0) {
                    let s0 = choose|s0: usize| layout_start(*graph, s0) && #[trigger] within_hops(*graph, s0, x, 0);
                    lemma_within_zero(*graph, s0, x);
                    assert(queue@.contains(x));
                    let m = choose|m: int| 0 <= m < queue@.len() && queue@[m] == x;
                    assert((queue@[m] as int) < n);
                }
                if queue@.contains(x) {
                    assert(layout_start(*graph, x));
                    lemma_within_zero(*graph, x, x);
                    assert(near(*graph, x, 0));
                }
            }
            assert(frontier(*graph, queue@, 0, visited@, 0));
            assert forall|x: usize| #[trigger] pending(queue@, 0, x) implies near(*graph, x, 0) by {
                assert(queue@.subrange(0, queue@.len() as int) =~= queue@);
                assert(layout_start(*graph, x));
                lemma_within_zero(*graph, x, x);
            }
        }
        while head < queue.len()
            invariant
                graph.wf(),
                n == graph.node_slots().len(),
                visited@.len() == n,
                head <= queue@.len(),
                forall|k: int| 0 <= k < queue@.len() ==> (#[trigger] queue@[k] as int) < n,
                forall|x: usize| (x as int) < n ==> (#[trigger] visited@[x as int]
                    <==> (layers@.len() > 0 && near(*graph, x, (layers@.len() - 1) as nat))),
                frontier(*graph, queue@, head as int, visited@, layers@.len() as nat),
                forall|x: usize| #[trigger] pending(queue@, head as int, x) ==> near(*graph, x, layers@.len() as nat),
                forall|k: int| 0 <= k < layers@.len() ==> (#[trigger] layers@[k])@.len() > 0
                    && ids(layers@[k]@).no_duplicates(),
                forall|k: int, x: usize| 0 <= k < layers@.len() ==> (#[trigger] ids(layers@[k]@).contains(x)
                    <==> at_level(*graph, x, k as nat)),
                count_true(visited@) <= n,
            decreases n - count_true(visited@), queue@.len() - head,
        {
            let ghost r = layers@.len() as nat;
            let ghost vis_before = visited@;
            let ghost len_before = queue@.len();
            let ghost head_before = head;
            let current = layout_round(graph, &mut queue, &mut head, &mut visited, Ghost(r));
            proof {
                lemma_count_true_bound(visited@);
            }
            if current.len() > 0 {
                let ghost lb = layers@;
                layers.push(current);
                proof {
                    assert forall|k: int, x: usize| 0 <= k < layers@.len() implies (#[trigger] ids(layers@[k]@).contains(x)
                        <==> at_level(*graph, x, k as nat)) by {
                        if k < lb.len() {
                            assert(layers@[k] == lb[k]);
                        }
                    }
                    assert forall|k: int| 0 <= k < layers@.len() implies (#[trigger] layers@[k])@.len() > 0
                        && ids(layers@[k]@).no_duplicates() by {
                        if k < lb.len() {
                            assert(layers@[k] == lb[k]);
                        }
                    }
                }
            } else {
                proof {
                    assert(head == queue@.len());
                    assert forall|x: usize| (x as int) < n implies (#[trigger] visited@[x as int]
                        <==> (layers@.len() > 0 && near(*graph, x, (layers@.len() - 1) as nat))) by {
                        if visited@[x as int] {
                            assert(near(*graph, x, r));
                            assert(!ids(current@).contains(x));
                            assert(!at_level(*graph, x, r));
                        }
                        if layers@.len() > 0 && near(*graph, x, (layers@.len() - 1) as nat) {
                            lemma_near_mono(*graph, x, (r - 1) as nat, r);
                        }
                    }
                    assert forall|x: usize| (#[trigger] pending(queue@, head as int, x) && !visited@[x as int])
                        <==> at_level(*graph, x, r) by {
                        assert(queue@.subrange(head as int, queue@.len() as int) =~= Seq::<usize>::empty());
                        if at_level(*graph, x, r) {
                            assert(ids(current@).contains(x));
                        }
                    }
                    assert forall|x: usize| #[trigger] pending(queue@, head as int, x) implies near(*graph, x, r) by {
                        assert(queue@.subrange(head as int, queue@.len() as int) =~= Seq::<usize>::empty());
                    }
                }
            }
        }
        let ghost levels = layers@.len() as nat;
        proof {
            assert forall|x: usize| !#[trigger] at_level(*graph, x, levels) by {
                assert(queue@.subrange(head as int, queue@.len() as int) =~= Seq::<usize>::empty());
                assert(!pending(queue@, head as int, x));
            }
        }
        let ghost rest = unreached_prefix(*graph, ns, ns.len() as int);
        let mut t: usize = 0;
        while t < nodes.len()
            invariant
                graph.wf(),
                n == graph.node_slots().len(),
                ids(nodes@) == ns,
                ns == graph.spec_node_ids(),
                t <= nodes@.len(),
                visited@.len() == n,
                levels <= layers@.len(),
                forall|k: int| 0 <= k < ns.len() ==> (#[trigger] ns[k]) < n && graph.has_node(ns[k] as int),
                forall|x: usize| (x as int) < n ==> (#[trigger] visited@[x as int]
                    <==> (levels > 0 && near(*graph, x, (levels - 1) as nat))),
                forall|x: usize| !#[trigger] at_level(*graph, x, levels),
                forall|k: int| 0 <= k < levels ==> (#[trigger] layers@[k])@.len() > 0 && ids(layers@[k]@).no_duplicates(),
                forall|k: int, x: usize| 0 <= k < levels ==> (#[trigger] ids(layers@[k]@).contains(x)
                    <==> at_level(*graph, x, k as nat)),
                layers@.len() == levels + unreached_prefix(*graph, ns, t as int).len(),
                forall|m: int| 0 <= m < unreached_prefix(*graph, ns, t as int).len() ==> #[trigger] layers@[levels + m]@
                    == seq![NodeId(unreached_prefix(*graph, ns, t as int)[m])],
            decreases nodes@.len() - t,
        {
            let nd = nodes[t];
            proof {
                assert(ns[t as int] == nd.0);
                let x = nd.0;
                if reached_from_starts(*graph, x) {
                    let k = choose|k: nat| #[trigger] near(*graph, x, k);
                    lemma_has_level(*graph, x, k);
                    let m = choose|m: nat| m <= k && #[trigger] at_level(*graph, x, m);
                    lemma_levels_end(*graph, x, m, levels);
                    lemma_near_mono(*graph, x, m, (levels - 1) as nat);
                }
                if levels > 0 && near(*graph, x, (levels - 1) as nat) {
                    assert(reached_from_starts(*graph, x));
                }
            }
            let ghost lb = layers@;
            if !visited[nd.0] {
                let mut single: Vec<NodeId> = Vec::new();
                single.push(nd);
                layers.push(single);
                proof {
                    assert(unreached_prefix(*graph, ns, t as int + 1) == unreached_prefix(*graph, ns, t as int).push(nd.0));
                    assert forall|m: int| 0 <= m < unreached_prefix(*graph, ns, t as int + 1).len() implies #[trigger] layers@[levels + m]@
                        == seq![NodeId(unreached_prefix(*graph, ns, t as int + 1)[m])] by {
                        if m < unreached_prefix(*graph, ns, t as int).len() {
                            assert(layers@[levels + m] == lb[levels + m]);
                        } else {
                            assert(single@ =~= seq![nd]);
                        }
                    }
                    assert forall|k: int| 0 <= k < levels implies (#[trigger] layers@[k])@.len() > 0
                        && ids(layers@[k]@).no_duplicates() by {
                        assert(layers@[k] == lb[k]);
                    }
                    assert forall|k: int, x: usize| 0 <= k < levels implies (#[trigger] ids(layers@[k]@).contains(x)
                        <==> at_level(*graph, x, k as nat)) by {
                        assert(layers@[k] == lb[k]);
                    }
                }
            } else {
                proof {
                    assert(unreached_prefix(*graph, ns, t as int + 1) == unreached_prefix(*graph, ns, t as int));
                }
            }
            t = t + 1;
        }
        proof {
            assert(layered(*graph, layers@, levels));
        }
        layers
    }
}

} // verus!
