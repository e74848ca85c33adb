//! Hop distances: a breadth-first search that records, for every node it
//! reaches, the least number of steps along edges from the source.

use vstd::prelude::*;
use crate::types::{BaseGraph, GraphConstructor, NodeId};
use crate::subgraphs::{within_hops, lemma_within_extend, lemma_within_last_step, lemma_within_weaken};
use crate::walks::{connects, lemma_closed_contains_connected, is_walk_in};

verus! {

/// `d` is the hop distance from `s` to `x`: some walk of `d` steps leads
/// there, and none shorter.
pub open spec fn is_hop_distance<A, W, Ty: GraphConstructor>(g: BaseGraph<A, W, Ty>, s: usize, x: usize, d: nat) -> bool {
    within_hops(g, s, x, d) && (d == 0 || !within_hops(g, s, x, (d - 1) as nat))
}

/// A walk of no steps stays at its start.
pub(crate) proof fn lemma_within_zero<A, W, Ty: GraphConstructor>(g: BaseGraph<A, W, Ty>, s: usize, x: usize)
    ensures
        within_hops(g, s, x, 0) <==> x == s,
{
    if x == s {
        let w = seq![s];
        assert(is_walk_in(g.adj(), w));
    }
    if within_hops(g, s, x, 0) {
        let w = choose|w: Seq<usize>| #[trigger] is_walk_in(g.adj(), w) && w[0] == s && w.last() == x && w.len() <= 1;
    }
}

/// A node within `k` steps has a hop distance of at most `k`.
proof fn lemma_distance_at_most<A, W, Ty: GraphConstructor>(g: BaseGraph<A, W, Ty>, s: usize, x: usize, d: nat, k: nat)
    requires
        is_hop_distance(g, s, x, d),
        within_hops(g, s, x, k),
    ensures
        d <= k,
{
    if d > k {
        crate::laws::law_hops_monotone(g, s, x, k, (d - 1) as nat);
    }
}

/// The distance at queue position `k`.
spec fn dq(dist: Seq<Option<usize>>, queue: Seq<usize>, k: int) -> int {
    dist[queue[k] as int].unwrap() as int
}

/// The search so far: `queue` lists the discovered nodes once each, in the
/// order met, `source` first; `dist` holds exactly their hop distances,
/// which never fall along the queue and stay below each node's position.
spec fn bfs_state<A, W, Ty: GraphConstructor>(g: BaseGraph<A, W, Ty>, s: usize, n: nat, dist: Seq<Option<usize>>,
    queue: Seq<usize>) -> bool {
    &&& dist.len() == n
    &&& queue.len() >= 1
    &&& queue[0] == s
    &&& dist[s as int] == Some(0usize)
    &&& queue.no_duplicates()
    &&& forall|x: int| 0 <= x < n ==> (#[trigger] dist[x] is Some <==> queue.contains(x as usize))
    &&& forall|k: int| 0 <= k < queue.len() ==> (#[trigger] queue[k]) < n && dist[queue[k] as int] is Some
    &&& forall|x: usize| (x as int) < n && #[trigger] dist[x as int] is Some
        ==> is_hop_distance(g, s, x, dist[x as int].unwrap() as nat)
    &&& forall|j: int, k: int| 0 <= j <= k < queue.len() ==> dq(dist, queue, j) <= dq(dist, queue, k)
    &&& forall|k: int| 0 <= k < queue.len() ==> #[trigger] dq(dist, queue, k) <= k
}

/// Records the newly met node `x` at distance `d` and queues it.
fn discover<A, W, Ty: GraphConstructor>(Ghost(g): Ghost<BaseGraph<A, W, Ty>>, Ghost(s): Ghost<usize>,
    dist: &mut Vec<Option<usize>>, queue: &mut Vec<usize>, x: usize, d: usize)
    requires
        bfs_state(g, s, old(dist)@.len(), old(dist)@, old(queue)@),
        (x as int) < old(dist)@.len(),
        old(dist)@[x as int] is None,
        is_hop_distance(g, s, x, d as nat),
        dq(old(dist)@, old(queue)@, old(queue)@.len() - 1) <= d,
        d <= old(queue)@.len(),
    ensures
        bfs_state(g, s, old(dist)@.len(), final(dist)@, final(queue)@),
        final(dist)@ == old(dist)@.update(x as int, Some(d)),
        final(queue)@ == old(queue)@.push(x),
{
    let nlen = dist.len();
    let ghost n = dist@.len();
    let ghost before = queue@;
    let ghost dbefore = dist@;
    proof {
        assert(!queue@.contains(x));
    }
    dist.set(x, Some(d));
    queue.push(x);
    proof {
        assert forall|y: int| 0 <= y < n implies (#[trigger] dist@[y] is Some <==> queue@.contains(y as usize)) by {
            if y == x as int {
                assert(queue@.last() == x);
            } else if before.contains(y as usize) {
                let k = choose|k: int| 0 <= k < before.len() && before[k] == y as usize;
                assert(queue@[k] == y as usize);
            } else if queue@.contains(y as usize) {
                let k = choose|k: int| 0 <= k < queue@.len() && queue@[k] == y as usize;
                assert(queue@[before.len() as int] == x);
                assert((y as usize) as int == y);
                if k == before.len() {
                    assert(y as usize == x);
                }
                assert(before[k] == y as usize);
            }
        }
        assert forall|a: int, b: int| 0 <= a < queue@.len() && 0 <= b < queue@.len() && a != b
            implies queue@[a] != queue@[b] by {
            if a == before.len() {
                assert(dbefore[queue@[b] as int] is Some);
            } else if b == before.len() {
                assert(dbefore[queue@[a] as int] is Some);
            }
        }
        assert forall|k: int| 0 <= k < before.len() implies dq(dist@, queue@, k) == dq(dbefore, before, k) by {
            assert(queue@[k] == before[k]);
            assert(dbefore[before[k] as int] is Some);
        }
        assert(dq(dist@, queue@, queue@.len() - 1) == d);
        assert forall|a: int, b: int| 0 <= a <= b < queue@.len() implies dq(dist@, queue@, a) <= dq(dist@, queue@, b) by {
            if b < before.len() {
                assert(dq(dist@, queue@, a) == dq(dbefore, before, a));
                assert(dq(dist@, queue@, b) == dq(dbefore, before, b));
                assert(dq(dbefore, before, a) <= dq(dbefore, before, b));
            } else if a < before.len() {
                assert(dq(dist@, queue@, a) == dq(dbefore, before, a));
                assert(dq(dbefore, before, a) <= dq(dbefore, before, before.len() - 1));
            }
        }
        assert forall|k: int| 0 <= k < queue@.len() implies #[trigger] dq(dist@, queue@, k) <= k by {
            if k < before.len() {
                assert(dq(dbefore, before, k) <= k);
            }
        }
        assert forall|y: usize| (y as int) < n && #[trigger] dist@[y as int] is Some
            implies is_hop_distance(g, s, y, dist@[y as int].unwrap() as nat) by {
            if y != x {
                assert(dbefore[y as int] is Some);
            }
        }
    }
}

/// The hop distance from `source` to every node it reaches, in the order a
/// breadth-first search meets them (`source` first, at distance 0, and
/// distances never falling). For a source that is not a node, only the
/// source itself, at distance 0.
#[verifier::rlimit(100)]
#[verifier::spinoff_prover]
pub fn hop_distances<A, W, Ty: GraphConstructor>(graph: &BaseGraph<A, W, Ty>, source: NodeId)
    -> (r: Vec<(NodeId, usize)>)
    requires
        graph.wf(),
    ensures
        !graph.has_node(source.0 as int) ==> r@ == seq![(source, 0usize)],
        graph.has_node(source.0 as int) ==> {
            &&& r@.len() > 0
            &&& r@[0] == (source, 0usize)
            &&& forall|x: usize| graph.reachable(source.0, x)
                <==> exists|k: int| 0 <= k < r@.len() && (#[trigger] r@[k]).0.0 == x
            &&& forall|j: int, k: int| 0 <= j < k < r@.len() ==> (#[trigger] r@[j]).0 != (#[trigger] r@[k]).0
                && r@[j].1 <= r@[k].1
            &&& forall|k: int| 0 <= k < r@.len() ==> is_hop_distance(*graph, source.0, (#[trigger] r@[k]).0.0,
                r@[k].1 as nat)
        },
{
    if !graph.contains_node(source) {
        return vec![(source, 0)];
    }
    let s = source.0;
    let n = graph.node_bound();
    let mut dist: Vec<Option<usize>> = Vec::new();
    let mut i: usize = 0;
    while i < n
        invariant
            i <= n,
            dist@.len() == i,
            forall|x: int| 0 <= x < i ==> #[trigger] dist@[x] is None,
        decreases n - i,
    {
        dist.push(None);
        i = i + 1;
    }
    dist.set(s, Some(0));
    let mut queue: Vec<usize> = Vec::new();
    queue.push(s);
    proof {
        assert forall|x: int| 0 <= x < n implies (#[trigger] dist@[x] is Some <==> queue@.contains(x as usize)) by {
            if x == s as int {
                assert(queue@[0] == s);
            }
        }
        lemma_within_zero(*graph, s, s);
        assert forall|x: usize| within_hops(*graph, s, x, 0) implies (x as int) < n && dist@[x as int] is Some by {
            lemma_within_zero(*graph, s, x);
        }
    }
    let mut head: usize = 0;
    while head < queue.len()
        invariant
            graph.wf(),
            graph.has_node(s as int),
            n == graph.node_slots().len(),
            bfs_state(*graph, s, n as nat, dist@, queue@),
            head <= queue@.len(),
            head < queue@.len() ==> dq(dist@, queue@, queue@.len() - 1) <= dq(dist@, queue@, head as int) + 1,
            forall|k: int, v: usize| 0 <= k < head && #[trigger] graph.adj()(queue@[k], v)
                ==> (v as int) < n && dist@[v as int] is Some,
            head < queue@.len() ==> forall|x: usize| #[trigger] within_hops(*graph, s, x,
                dq(dist@, queue@, head as int) as nat) ==> (x as int) < n && dist@[x as int] is Some,
        decreases n - head,
    {
        proof {
            crate::laws::lemma_distinct_below_len(queue@, n);
        }
        let u = queue[head];
        let du = match dist[u] {
            Some(d) => d,
            None => 0,
        };
        let ghost h = head as int;
        let ghost q0 = queue@;
        let ghost dist0 = dist@;
        assert(du as int == dq(dist@, queue@, h));
        let nbrs = graph.neighbor_indices(u);
        proof {
            graph.lemma_neighbors_exist(u);
        }
        let mut j: usize = 0;
        while j < nbrs.len()
            invariant
                graph.wf(),
                graph.has_node(s as int),
                n == graph.node_slots().len(),
                bfs_state(*graph, s, n as nat, dist@, queue@),
                h == head as int,
                head < queue@.len(),
                queue@[h] == u,
                du as int == dq(dist@, queue@, h),
                du <= head,
                q0.is_prefix_of(queue@),
                forall|x: int| 0 <= x < n && dist0[x] is Some ==> #[trigger] dist@[x] == dist0[x],
                nbrs@ == graph.neighbor_seq(u),
                j <= nbrs@.len(),
                forall|x: usize| #[trigger] graph.neighbor_seq(u).contains(x) ==> graph.has_node(x as int),
                dq(dist@, queue@, queue@.len() - 1) <= du + 1,
                dist0.len() == n,
                forall|k: int, v: usize| 0 <= k < head && #[trigger] graph.adj()(q0[k], v)
                    ==> (v as int) < n && dist0[v as int] is Some,
                forall|y: usize| #[trigger] within_hops(*graph, s, y, du as nat) ==> (y as int) < n && dist0[y as int] is Some,
                forall|jj: int| 0 <= jj < j ==> (#[trigger] nbrs@[jj] as int) < n && dist@[nbrs@[jj] as int] is Some,
            decreases nbrs@.len() - j,
        {
            let x = nbrs[j];
            assert(graph.neighbor_seq(u).contains(x));
            if dist[x].is_none() {
                let ghost before = queue@;
                let ghost dbefore = dist@;
                proof {
                    assert(dist@[u as int] == Some(du));
                    assert(is_hop_distance(*graph, s, u, du as nat));
                    lemma_within_extend(*graph, s, u, x, du as nat);
                    if within_hops(*graph, s, x, du as nat) {
                        assert(dist0[x as int] is Some);
                        assert(dist@[x as int] is Some);
                    }
                    assert(is_hop_distance(*graph, s, x, (du + 1) as nat));
                    assert(dq(dist@, queue@, h) <= h);
                }
                let qlen = queue.len();
                assert(du < qlen);
                discover::<A, W, Ty>(Ghost(*graph), Ghost(s), &mut dist, &mut queue, x, du + 1);
                proof {
                    assert forall|y: int| 0 <= y < n && dist0[y] is Some implies #[trigger] dist@[y] == dist0[y] by {
                        assert(dbefore[y] == dist0[y]);
                    }
                    assert forall|k: int| 0 <= k < before.len() implies dq(dist@, queue@, k) == dq(dbefore, before, k) by {
                        assert(queue@[k] == before[k]);
                        assert(dbefore[before[k] as int] is Some);
                    }
                    assert(q0.is_prefix_of(queue@)) by {
                        assert forall|k: int| 0 <= k < q0.len() implies q0[k] == queue@[k] by {
                            assert(q0[k] == before[k]);
                        }
                    }
                }
            }
            j = j + 1;
        }
        proof {
            let hn = head + 1;
            assert forall|k: int, v: usize| 0 <= k < hn && #[trigger] graph.adj()(queue@[k], v)
                implies (v as int) < n && dist@[v as int] is Some by {
                assert(queue@[k] == q0[k]);
                if k == head as int {
                    assert(queue@[k] == u);
                    let jj = choose|jj: int| 0 <= jj < nbrs@.len() && nbrs@[jj] == v;
                } else {
                    assert(graph.adj()(q0[k], v));
                    assert(dist0[v as int] is Some);
                }
            }
            if hn < queue@.len() {
                let dn = dq(dist@, queue@, hn as int);
                assert(du <= dn);
                assert(dq(dist@, queue@, queue@.len() - 1) <= dn + 1);
                assert forall|x: usize| #[trigger] within_hops(*graph, s, x, dn as nat)
                    implies (x as int) < n && dist@[x as int] is Some by {
                    if dn == du {
                    } else {
                        assert(dn == du + 1);
                        lemma_within_last_step(*graph, s, x, du as nat);
                        if !within_hops(*graph, s, x, du as nat) {
                            let p = choose|p: usize| within_hops(*graph, s, p, du as nat) && #[trigger] graph.adj()(p, x);
                            assert((p as int) < n && dist@[p as int] is Some);
                            let kp = choose|kp: int| 0 <= kp < queue@.len() && queue@[kp] == p;
                            assert(dist@[p as int] is Some);
                            lemma_distance_at_most(*graph, s, p, dist@[p as int].unwrap() as nat, du as nat);
                            assert(dq(dist@, queue@, kp) <= du);
                            if kp >= hn {
                                assert(dq(dist@, queue@, hn as int) <= dq(dist@, queue@, kp));
                            }
                            assert(graph.adj()(queue@[kp], x));
                        }
                    }
                }
            }
        }
        head = head + 1;
    }
    proof {
        let d = dist@;
        let closed = |v: usize| (v as int) < n && d[v as int] is Some;
        assert forall|a: usize, b: usize| closed(a) && #[trigger] graph.adj()(a, b) implies closed(b) by {
            let k = choose|k: int| 0 <= k < queue@.len() && queue@[k] == a;
            assert(graph.adj()(queue@[k], b));
        }
        assert forall|x: usize| graph.reachable(s, x) implies (x as int) < n && dist@[x as int] is Some by {
            lemma_closed_contains_connected(graph.adj(), closed, s, x);
        }
        assert forall|x: usize| (x as int) < n && dist@[x as int] is Some implies graph.reachable(s, x) by {
            lemma_within_weaken(*graph, s, x, dist@[x as int].unwrap() as nat);
        }
    }
    let mut r: Vec<(NodeId, usize)> = Vec::new();
    let mut k: usize = 0;
    while k < queue.len()
        invariant
            k <= queue@.len(),
            r@.len() == k,
            dist@.len() == n,
            forall|m: int| 0 <= m < queue@.len() ==> (#[trigger] queue@[m]) < n && dist@[queue@[m] as int] is Some,
            forall|m: int| 0 <= m < k ==> (#[trigger] r@[m]).0.0 == queue@[m]
                && r@[m].1 as int == dq(dist@, queue@, m),
        decreases queue@.len() - k,
    {
        let x = queue[k];
        let dx = match dist[x] {
            Some(d) => d,
            None => 0,
        };
        r.push((NodeId(x), dx));
        k = k + 1;
    }
    proof {
        assert forall|x: usize| graph.reachable(s, x)
            implies exists|k: int| 0 <= k < r@.len() && (#[trigger] r@[k]).0.0 == x by {
            assert(dist@[x as int] is Some);
            let k = choose|k: int| 0 <= k < queue@.len() && queue@[k] == x;
            assert(r@[k].0.0 == x);
        }
        assert forall|x: usize| (exists|k: int| 0 <= k < r@.len() && (#[trigger] r@[k]).0.0 == x)
            implies graph.reachable(s, x) by {
            let k = choose|k: int| 0 <= k < r@.len() && (#[trigger] r@[k]).0.0 == x;
            assert(queue@[k] == x);
        }
        assert forall|k: int| 0 <= k < r@.len() implies is_hop_distance(*graph, s, (#[trigger] r@[k]).0.0,
            r@[k].1 as nat) by {
            assert(queue@[k] < n && dist@[queue@[k] as int] is Some);
        }
        assert forall|j: int, k: int| 0 <= j < k < r@.len() implies (#[trigger] r@[j]).0 != (#[trigger] r@[k]).0
            && r@[j].1 <= r@[k].1 by {
            assert(queue@[j] != queue@[k]);
            assert(dq(dist@, queue@, j) <= dq(dist@, queue@, k));
        }
        assert(r@[0].0 == source);
    }
    r
}

} // verus!
