//! Shortest distances over integer edge weights: Dijkstra's search,
//! Bellman–Ford and Johnson's method. Walks follow a directed edge from its
//! source to its target and an undirected edge either way round.

use vstd::prelude::*;
use crate::types::{
    count_live, count_true, lemma_count_true_bound, lemma_count_true_set, lemma_live_indices, live_indices, BaseGraph,
    EdgeId, GraphConstructor, NodeId,
};

verus! {


/// Arc `a` of a graph: arc `2 * e` runs along edge `e` as stored and arc
/// `2 * e + 1` against it. An undirected graph has both arcs of each edge, a
/// directed graph only the first, so walks over arcs follow an undirected
/// edge either way round and a directed edge only forwards.
pub open spec fn has_arc<A, Ty: GraphConstructor>(g: &BaseGraph<A, i64, Ty>, a: int) -> bool {
    a >= 0 && g.has_edge(a / 2) && (a % 2 == 0 || !g.directed())
}

/// The node arc `a` leaves.
pub open spec fn arc_src<A, Ty: GraphConstructor>(g: &BaseGraph<A, i64, Ty>, a: int) -> usize {
    if a % 2 == 0 { g.src(a / 2) } else { g.tgt(a / 2) }
}

/// The node arc `a` enters.
pub open spec fn arc_tgt<A, Ty: GraphConstructor>(g: &BaseGraph<A, i64, Ty>, a: int) -> usize {
    if a % 2 == 0 { g.tgt(a / 2) } else { g.src(a / 2) }
}

/// The weight of arc `a`: that of its edge.
pub open spec fn arc_weight<A, Ty: GraphConstructor>(g: &BaseGraph<A, i64, Ty>, a: int) -> i64 {
    g.weight(a / 2)
}

/// The number of arc slots: two per edge slot.
fn arc_bound<A, Ty: GraphConstructor>(graph: &BaseGraph<A, i64, Ty>) -> (m: usize)
    requires
        graph.wf(),
    ensures
        m == 2 * graph.edge_slots().len(),
{
    2 * graph.edge_bound()
}

/// The ends of arc `a`, when it exists.
fn arc_ends<A, Ty: GraphConstructor>(graph: &BaseGraph<A, i64, Ty>, a: usize) -> (r: Option<(NodeId, NodeId)>)
    ensures
        r is Some <==> has_arc(graph, a as int),
        r is Some ==> r.unwrap().0.0 == arc_src(graph, a as int) && r.unwrap().1.0 == arc_tgt(graph, a as int),
{
    match graph.edge_endpoints(EdgeId(a / 2)) {
        Some((s, t)) => {
            if a % 2 == 0 {
                Some((s, t))
            } else if !graph.is_directed() {
                Some((t, s))
            } else {
                None
            }
        },
        None => None,
    }
}

/// The weight of an existing arc.
fn arc_weight_of<A, Ty: GraphConstructor>(graph: &BaseGraph<A, i64, Ty>, a: usize) -> (w: i64)
    requires
        has_arc(graph, a as int),
    ensures
        w == arc_weight(graph, a as int),
{
    *graph.edge_weight(EdgeId(a / 2)).unwrap()
}

/// `es` is a walk of arcs from `s` to `v`: each arc exists and leaves the
/// node the walk before it reached; the empty walk stays at `s`.
pub open spec fn edge_walk<A, Ty: GraphConstructor>(g: &BaseGraph<A, i64, Ty>, s: usize, es: Seq<usize>, v: usize) -> bool
    decreases es.len(),
{
    if es.len() == 0 {
        s == v
    } else {
        &&& has_arc(g, es.last() as int)
        &&& arc_tgt(g, es.last() as int) == v
        &&& edge_walk(g, s, es.drop_last(), arc_src(g, es.last() as int))
    }
}

/// The total weight of the edges of `es`.
pub open spec fn walk_weight<A, Ty: GraphConstructor>(g: &BaseGraph<A, i64, Ty>, es: Seq<usize>) -> int
    decreases es.len(),
{
    if es.len() == 0 {
        0
    } else {
        walk_weight(g, es.drop_last()) + arc_weight(g, es.last() as int)
    }
}

/// The total cost of the edges of `es`, edge `e` costing `costs[e]`.
pub open spec fn walk_cost(costs: Seq<i128>, es: Seq<usize>) -> int
    decreases es.len(),
{
    if es.len() == 0 {
        0
    } else {
        walk_cost(costs, es.drop_last()) + costs[es.last() as int]
    }
}

/// No edge of `es` costs less than zero.
pub open spec fn nonneg_walk(costs: Seq<i128>, es: Seq<usize>) -> bool
    decreases es.len(),
{
    es.len() == 0 || (nonneg_walk(costs, es.drop_last()) && costs[es.last() as int] >= 0)
}

/// Along a walk, costs that agree with the weights give the walk's weight.
proof fn lemma_cost_is_weight<A, Ty: GraphConstructor>(g: &BaseGraph<A, i64, Ty>, costs: Seq<i128>, s: usize,
    es: Seq<usize>, v: usize)
    requires
        forall|e: int| #[trigger] has_arc(g, e) ==> costs[e] == arc_weight(g, e),
        edge_walk(g, s, es, v),
    ensures
        walk_cost(costs, es) == walk_weight(g, es),
    decreases es.len(),
{
    if es.len() > 0 {
        lemma_cost_is_weight(g, costs, s, es.drop_last(), arc_src(g, es.last() as int));
        assert(has_arc(g, es.last() as int));
    }
}

/// Some walk leads from the node `s` to `v`.
pub open spec fn reaches<A, Ty: GraphConstructor>(g: &BaseGraph<A, i64, Ty>, s: usize, v: usize) -> bool {
    g.has_node(s as int) && exists|es: Seq<usize>| #[trigger] edge_walk(g, s, es, v)
}

/// Some edge of negative weight leaves a node that `s` reaches.
pub open spec fn negative_in_reach<A, Ty: GraphConstructor>(g: &BaseGraph<A, i64, Ty>, s: usize) -> bool {
    exists|e: int| #[trigger] has_arc(g, e) && reaches(g, s, arc_src(g, e)) && arc_weight(g, e) < 0
}

/// Some edge of negative cost leaves a node that `s` reaches.
pub open spec fn negative_cost_in_reach<A, Ty: GraphConstructor>(g: &BaseGraph<A, i64, Ty>, costs: Seq<i128>, s: usize)
    -> bool {
    exists|e: int| #[trigger] has_arc(g, e) && reaches(g, s, arc_src(g, e)) && costs[e] < 0
}

/// The largest weight whose `n + 1`-fold sum still fits an `i64`.
pub open spec fn weight_cap(n: int) -> int {
    (i64::MAX as int) / (n + 1)
}

/// The search state: `dist` holds the best distance found so far, `settled`
/// marks the nodes whose distance is final, and `wit` gives each found
/// distance a walk that realises it.
pub open spec fn search_ok<A, Ty: GraphConstructor>(
    g: &BaseGraph<A, i64, Ty>,
    costs: Seq<i128>,
    s: usize,
    dist: Seq<Option<i128>>,
    settled: Seq<bool>,
    wit: Seq<Seq<usize>>,
) -> bool {
    let n = g.node_slots().len();
    &&& dist.len() == n && settled.len() == n && wit.len() == n
    &&& g.has_node(s as int)
    &&& dist[s as int] is Some
    &&& forall|v: int| 0 <= v < n && #[trigger] settled[v] ==> dist[v] is Some
    &&& forall|v: int| 0 <= v < n && #[trigger] dist[v] is Some ==> edge_walk(g, s, wit[v], v as usize)
        && walk_cost(costs, wit[v]) == dist[v]->Some_0
    &&& forall|u: usize, es: Seq<usize>| (u as int) < n && settled[u as int] && #[trigger] edge_walk(g, s, es, u)
        && nonneg_walk(costs, es) ==> walk_cost(costs, es) >= dist[u as int]->Some_0
    &&& forall|e: int| #[trigger] has_arc(g, e) && settled[arc_src(g, e) as int] ==> costs[e] >= 0
        && dist[arc_tgt(g, e) as int] is Some && dist[arc_tgt(g, e) as int]->Some_0 <= dist[arc_src(g, e) as int]->Some_0 + costs[e]
    &&& forall|x: int, y: int| 0 <= x < n && 0 <= y < n && #[trigger] settled[x] && !#[trigger] settled[y]
        && dist[y] is Some ==> dist[x]->Some_0 <= dist[y]->Some_0
    &&& !settled[s as int] ==> dist[s as int] == Some(0i128) && forall|y: int| 0 <= y < n && #[trigger] dist[y] is Some
        ==> y == s as int
}

/// A walk that stays off negative edges weighs at least the distance of
/// the unsettled node nearest to `s` (`dv`), or, when it ends at a settled
/// node, at least that node's distance.
proof fn lemma_walk_bound<A, Ty: GraphConstructor>(
    g: &BaseGraph<A, i64, Ty>,
    costs: Seq<i128>,
    s: usize,
    dist: Seq<Option<i128>>,
    settled: Seq<bool>,
    wit: Seq<Seq<usize>>,
    dv: int,
    es: Seq<usize>,
    x: usize,
)
    requires
        g.wf(),
        search_ok(g, costs, s, dist, settled, wit),
        forall|y: int| 0 <= y < g.node_slots().len() && !#[trigger] settled[y] && dist[y] is Some ==> dv <= dist[y]->Some_0,
        !settled[s as int] ==> dv <= 0,
        edge_walk(g, s, es, x),
        nonneg_walk(costs, es),
    ensures
        (x as int) < g.node_slots().len(),
        settled[x as int] ==> walk_cost(costs, es) >= dist[x as int]->Some_0,
        !settled[x as int] ==> walk_cost(costs, es) >= dv,
    decreases es.len(),
{
    if es.len() > 0 {
        let e = es.last() as int;
        let y = arc_src(g, e);
        lemma_walk_bound(g, costs, s, dist, settled, wit, dv, es.drop_last(), y);
        assert(has_arc(g, e));
        if !settled[x as int] && settled[y as int] {
            assert(dist[x as int] is Some);
        }
    }
}

/// When no unsettled node has a distance, every node that `s` reaches is
/// settled, and every walk from `s` stays off negative edges.
proof fn lemma_closed<A, Ty: GraphConstructor>(
    g: &BaseGraph<A, i64, Ty>,
    costs: Seq<i128>,
    s: usize,
    dist: Seq<Option<i128>>,
    settled: Seq<bool>,
    wit: Seq<Seq<usize>>,
    es: Seq<usize>,
    x: usize,
)
    requires
        g.wf(),
        search_ok(g, costs, s, dist, settled, wit),
        settled[s as int],
        forall|y: int| 0 <= y < g.node_slots().len() && #[trigger] dist[y] is Some ==> settled[y],
        edge_walk(g, s, es, x),
    ensures
        (x as int) < g.node_slots().len(),
        settled[x as int],
        nonneg_walk(costs, es),
    decreases es.len(),
{
    if es.len() > 0 {
        let e = es.last() as int;
        lemma_closed(g, costs, s, dist, settled, wit, es.drop_last(), arc_src(g, e));
        assert(has_arc(g, e));
    }
}

/// Dijkstra's search from `source` with edge `e` costing `costs[e]`.
fn dijkstra_costs<A, Ty: GraphConstructor>(
    graph: &BaseGraph<A, i64, Ty>,
    source: NodeId,
    costs: &Vec<i128>,
    Ghost(cap): Ghost<int>,
) -> (r: Result<Vec<Option<i128>>, i128>)
    requires
        graph.wf(),
        costs@.len() == 2 * graph.edge_slots().len(),
        cap >= 0,
        cap * (graph.node_slots().len() + 1) <= i128::MAX,
        forall|e: int| #[trigger] has_arc(graph, e) ==> costs@[e] <= cap,
    ensures
        r is Ok ==> forall|v: int| 0 <= v < graph.node_slots().len() && #[trigger] r->Ok_0@[v] is Some
            ==> 0 <= r->Ok_0@[v]->Some_0 <= graph.node_slots().len() * cap,
        r is Err <==> graph.has_node(source.0 as int) && negative_cost_in_reach(graph, costs@, source.0),
        r is Err ==> r->Err_0 < 0 && exists|e: int| #[trigger] has_arc(graph, e) && reaches(graph, source.0, arc_src(graph, e))
            && costs@[e] == r->Err_0,
        r is Ok ==> r->Ok_0@.len() == graph.node_slots().len(),
        r is Ok ==> forall|v: usize| (v as int) < graph.node_slots().len() ==> {
            &&& (#[trigger] r->Ok_0@[v as int] is Some <==> reaches(graph, source.0, v))
            &&& r->Ok_0@[v as int] is Some ==> {
                &&& exists|es: Seq<usize>| #[trigger] edge_walk(graph, source.0, es, v)
                    && walk_cost(costs@, es) == r->Ok_0@[v as int]->Some_0
                &&& forall|es: Seq<usize>| #[trigger] edge_walk(graph, source.0, es, v)
                    ==> walk_cost(costs@, es) >= r->Ok_0@[v as int]->Some_0
            }
        },
{
    let n = graph.node_bound();
    let m = arc_bound(graph);
    let mut dist: Vec<Option<i128>> = Vec::new();
    let mut settled: Vec<bool> = Vec::new();
    while dist.len() < n
        invariant
            dist@.len() == settled@.len(),
            dist@.len() <= n,
            forall|v: int| 0 <= v < dist@.len() ==> #[trigger] dist@[v] is None,
            forall|v: int| 0 <= v < dist@.len() ==> !#[trigger] settled@[v],
            count_true(settled@) == 0,
        decreases n - dist@.len(),
    {
        proof {
            assert(settled@.push(false).drop_last() == settled@);
        }
        dist.push(None);
        settled.push(false);
    }
    if !graph.contains_node(source) {
        proof {
            assert forall|v: usize| (v as int) < n implies !reaches(graph, source.0, v) by {}
            if negative_cost_in_reach(graph, costs@, source.0) {
                let e = choose|e: int| #[trigger] has_arc(graph, e) && reaches(graph, source.0, arc_src(graph, e))
                    && costs@[e] < 0;
            }
        }
        return Ok(dist);
    }
    let s = source.0;
    dist.set(s, Some(0));
    let ghost mut wit: Seq<Seq<usize>> = Seq::new(n as nat, |i: int| Seq::<usize>::empty());
    let mut c: usize = 0;
    proof {
        assert(edge_walk(graph, s, Seq::<usize>::empty(), s));
        assert(wit[s as int] == Seq::<usize>::empty());
        assert forall|v: int| 0 <= v < n && #[trigger] dist@[v] is Some implies v == s as int by {}
        assert forall|u: usize, es: Seq<usize>| (u as int) < n && settled@[u as int] && #[trigger] edge_walk(graph, s, es, u)
            && nonneg_walk(costs@, es) implies walk_cost(costs@, es) >= dist@[u as int]->Some_0 by {}
        assert forall|e: int| #[trigger] has_arc(graph, e) && settled@[arc_src(graph, e) as int] implies false by {
            assert(graph.has_node(arc_src(graph, e) as int));
        }
        assert(search_ok(graph, costs@, s, dist@, settled@, wit));
    }
    loop
        invariant
            graph.wf(),
            n == graph.node_slots().len(),
            m == 2 * graph.edge_slots().len(),
            costs@.len() == m,
            s == source.0,
            search_ok(graph, costs@, s, dist@, settled@, wit),
            forall|e: int| #[trigger] has_arc(graph, e) ==> costs@[e] <= cap,
            cap * (n + 1) <= i128::MAX,
            cap >= 0,
            c == count_true(settled@),
            c <= n,
            forall|v: int| 0 <= v < n && #[trigger] dist@[v] is Some ==> 0 <= dist@[v]->Some_0 <= c * cap,
        ensures
            search_ok(graph, costs@, s, dist@, settled@, wit),
            c <= n,
            forall|v: int| 0 <= v < n && #[trigger] dist@[v] is Some ==> 0 <= dist@[v]->Some_0 <= c * cap,
            settled@[s as int],
            forall|y: int| 0 <= y < n && #[trigger] dist@[y] is Some ==> settled@[y],
        decreases n - c,
    {
        let mut best: usize = n;
        let mut bd: i128 = 0;
        let mut v: usize = 0;
        while v < n
            invariant
                n == dist@.len(),
                n == settled@.len(),
                v <= n,
                best == n || (best < v && !settled@[best as int] && dist@[best as int] == Some(bd)),
                forall|y: int| 0 <= y < v && !#[trigger] settled@[y] && dist@[y] is Some ==> best != n
                    && bd <= dist@[y]->Some_0,
            decreases n - v,
        {
            if !settled[v] {
                match dist[v] {
                    Some(d) => {
                        if best == n || d < bd {
                            best = v;
                            bd = d;
                        }
                    },
                    None => {},
                }
            }
            v = v + 1;
        }
        if best == n {
            proof {
                if !settled@[s as int] {
                    assert(dist@[s as int] is Some);
                }
            }
            break;
        }
        let u = best;
        let du = bd;
        let ghost settled0 = settled@;
        let ghost dist0 = dist@;
        let ghost wit0 = wit;
        proof {
            assert(search_ok(graph, costs@, s, dist0, settled0, wit0));
            if !settled0[s as int] {
                assert(u == s);
            }
            assert forall|x: usize, es: Seq<usize>| #[trigger] edge_walk(graph, s, es, x) && nonneg_walk(costs@, es)
                && x == u implies walk_cost(costs@, es) >= du by {
                lemma_walk_bound(graph, costs@, s, dist@, settled@, wit, du as int, es, x);
            }
            lemma_count_true_set(settled@, u as int);
            lemma_count_true_bound(settled@.update(u as int, true));
        }
        let ghost c0 = c;
        settled.set(u, true);
        c = c + 1;
        proof {
            assert(du <= (c - 1) * cap);
            assert(c0 * cap <= c * cap) by (nonlinear_arith) requires c == c0 + 1, cap >= 0;
        }
        let mut e: usize = 0;
        while e < m
            invariant
                graph.wf(),
                n == graph.node_slots().len(),
                m == 2 * graph.edge_slots().len(),
                costs@.len() == m,
                e <= m,
                s == source.0,
                graph.has_node(s as int),
                (u as int) < n,
                settled@ == settled0.update(u as int, true),
                settled0.len() == n,
                dist0.len() == n,
                !settled0[u as int],
                dist@.len() == n,
                wit.len() == n,
                dist@[u as int] == Some(du),
                dist@[s as int] is Some,
                forall|x: int| 0 <= x < n && #[trigger] settled@[x] ==> dist@[x] is Some,
                forall|x: int| 0 <= x < n && #[trigger] settled@[x] ==> dist@[x] == dist0[x],
                forall|x: int| 0 <= x < n && #[trigger] settled@[x] ==> dist@[x]->Some_0 <= du,
                forall|v: int| 0 <= v < n && #[trigger] dist@[v] is Some ==> edge_walk(graph, s, wit[v], v as usize)
                    && walk_cost(costs@, wit[v]) == dist@[v]->Some_0,
                forall|x: usize, es: Seq<usize>| (x as int) < n && settled@[x as int] && #[trigger] edge_walk(
                    graph,
                    s,
                    es,
                    x,
                ) && nonneg_walk(costs@, es) ==> walk_cost(costs@, es) >= dist@[x as int]->Some_0,
                forall|f: int| #[trigger] has_arc(graph, f) && settled0[arc_src(graph, f) as int] ==> costs@[f] >= 0
                    && dist@[arc_tgt(graph, f) as int] is Some && dist@[arc_tgt(graph, f) as int]->Some_0 <= dist@[arc_src(graph, 
                    f,
                ) as int]->Some_0 + costs@[f],
                forall|f: int| 0 <= f < e && #[trigger] has_arc(graph, f) && arc_src(graph, f) == u ==> costs@[f] >= 0
                    && dist@[arc_tgt(graph, f) as int] is Some && dist@[arc_tgt(graph, f) as int]->Some_0 <= du + costs@[f],
                forall|y: int| 0 <= y < n && !#[trigger] settled@[y] && dist@[y] is Some ==> du <= dist@[y]->Some_0,
                forall|f: int| #[trigger] has_arc(graph, f) ==> costs@[f] <= cap,
                cap * (n + 1) <= i128::MAX,
                cap >= 0,
                c <= n,
                0 <= du <= (c - 1) * cap,
                forall|v: int| 0 <= v < n && #[trigger] dist@[v] is Some ==> 0 <= dist@[v]->Some_0 <= c * cap,
            decreases m - e,
        {
            match arc_ends(graph, e) {
                Some((a, b)) => {
                    if a.0 == u {
                        let w = costs[e];
                        if w < 0 {
                            proof {
                                assert(edge_walk(graph, s, wit[u as int], u));
                                assert(has_arc(graph, e as int) && reaches(graph, s, arc_src(graph, e as int)));
                            }
                            return Err(w);
                        }
                        proof {
                            assert(w <= cap);
                            assert(du + w <= c * cap) by (nonlinear_arith)
                                requires du <= (c - 1) * cap, w <= cap;
                            assert(c * cap <= n * cap) by (nonlinear_arith) requires c <= n, cap >= 0;
                            assert(n * cap <= (n + 1) * cap) by (nonlinear_arith) requires cap >= 0;
                        }
                        let next = du + w;
                        let t = b.0;
                        assert(graph.has_node(t as int));
                        let better = match dist[t] {
                            None => true,
                            Some(dt) => next < dt,
                        };
                        if better {
                            let ghost d1 = dist@;
                            assert(!settled@[t as int]) by {
                                if settled@[t as int] {
                                    assert(d1[t as int]->Some_0 <= du);
                                }
                            }
                            dist.set(t, Some(next));
                            proof {
                                let walk = wit[u as int].push(e);
                                assert(walk.drop_last() == wit[u as int]);
                                wit = wit.update(t as int, walk);
                                assert forall|f: int| #[trigger] has_arc(graph, f) && settled0[arc_src(graph, f) as int]
                                    implies costs@[f] >= 0 && dist@[arc_tgt(graph, f) as int] is Some
                                    && dist@[arc_tgt(graph, f) as int]->Some_0 <= dist@[arc_src(graph, f) as int]->Some_0
                                    + costs@[f] by {
                                    assert(graph.has_node(arc_src(graph, f) as int));
                                    assert(graph.has_node(arc_tgt(graph, f) as int));
                                    assert(settled@[arc_src(graph, f) as int]);
                                    assert(arc_src(graph, f) != t);
                                    assert(d1[arc_tgt(graph, f) as int] is Some);
                                }
                            }
                        }
                    }
                },
                None => {},
            }
            e = e + 1;
        }
        proof {
            let st = settled@;
            let d = dist@;
            assert forall|f: int| #[trigger] has_arc(graph, f) && st[arc_src(graph, f) as int] implies costs@[f] >= 0
                && d[arc_tgt(graph, f) as int] is Some && d[arc_tgt(graph, f) as int]->Some_0 <= d[arc_src(graph, f) as int]->Some_0
                + costs@[f] by {
                if arc_src(graph, f) != u {
                    assert(settled0[arc_src(graph, f) as int]);
                }
            }
            assert forall|x: int, y: int| 0 <= x < n && 0 <= y < n && #[trigger] st[x] && !#[trigger] st[y]
                && d[y] is Some implies d[x]->Some_0 <= d[y]->Some_0 by {}
            assert forall|x: usize, es: Seq<usize>| (x as int) < n && st[x as int] && #[trigger] edge_walk(graph, s, es, x)
                && nonneg_walk(costs@, es) implies walk_cost(costs@, es) >= d[x as int]->Some_0 by {}
            assert(st[s as int]);
        }
    }
    proof {
        let d = dist@;
        assert forall|v: usize| (v as int) < n implies {
            &&& (#[trigger] d[v as int] is Some <==> reaches(graph, s, v))
            &&& d[v as int] is Some ==> {
                &&& exists|es: Seq<usize>| #[trigger] edge_walk(graph, s, es, v) && walk_cost(costs@, es)
                    == d[v as int]->Some_0
                &&& forall|es: Seq<usize>| #[trigger] edge_walk(graph, s, es, v) ==> walk_cost(costs@, es)
                    >= d[v as int]->Some_0
            }
        } by {
            if d[v as int] is Some {
                assert(edge_walk(graph, s, wit[v as int], v));
                assert forall|es: Seq<usize>| #[trigger] edge_walk(graph, s, es, v) implies walk_cost(costs@, es)
                    >= d[v as int]->Some_0 by {
                    lemma_closed(graph, costs@, s, dist@, settled@, wit, es, v);
                }
            }
            if reaches(graph, s, v) {
                let es = choose|es: Seq<usize>| #[trigger] edge_walk(graph, s, es, v);
                lemma_closed(graph, costs@, s, dist@, settled@, wit, es, v);
            }
        }
        if negative_cost_in_reach(graph, costs@, s) {
            let e = choose|e: int| #[trigger] has_arc(graph, e) && reaches(graph, s, arc_src(graph, e)) && costs@[e] < 0;
            let es = choose|es: Seq<usize>| #[trigger] edge_walk(graph, s, es, arc_src(graph, e));
            lemma_closed(graph, costs@, s, dist@, settled@, wit, es, arc_src(graph, e));
        }
    }
    proof {
        assert(c * cap <= n * cap) by (nonlinear_arith) requires c <= n, cap >= 0;
        assert forall|v: int| 0 <= v < n && #[trigger] dist@[v] is Some implies 0 <= dist@[v]->Some_0 <= n * cap by {}
    }
    Ok(dist)
}

/// The costs of the arcs, arc `e` costing its weight (nothing for a
/// missing arc).
fn weights_of<A, Ty: GraphConstructor>(graph: &BaseGraph<A, i64, Ty>) -> (c: Vec<i128>)
    requires
        graph.wf(),
    ensures
        c@.len() == 2 * graph.edge_slots().len(),
        forall|e: int| #[trigger] has_arc(graph, e) ==> c@[e] == arc_weight(graph, e),
{
    let m = arc_bound(graph);
    let mut c: Vec<i128> = Vec::new();
    let mut e: usize = 0;
    while e < m
        invariant
            m == 2 * graph.edge_slots().len(),
            e <= m,
            c@.len() == e,
            forall|f: int| 0 <= f < e && #[trigger] has_arc(graph, f) ==> c@[f] == arc_weight(graph, f),
        decreases m - e,
    {
        match arc_ends(graph, e) {
            Some(_) => c.push(arc_weight_of(graph, e) as i128),
            None => c.push(0),
        }
        e = e + 1;
    }
    c
}

/// The distances from `source` by Dijkstra's search (nodes settled nearest,
/// then lowest id, first), indexed by node id: `Err(w)` when a node that
/// `source` reaches has a leaving arc of negative weight `w`; otherwise, for each node, the
/// least weight of a walk to it from `source`, or `None` when there is no
/// walk. When `source` is no node, no node has a distance. No weight may
/// exceed `weight_cap` of the node slots, so that every distance fits an `i64`.
pub fn dijkstra<A, Ty: GraphConstructor>(graph: &BaseGraph<A, i64, Ty>, source: NodeId) -> (r: Result<Vec<Option<i64>>, i64>)
    requires
        graph.wf(),
        forall|e: int| #[trigger] graph.has_edge(e) ==> graph.weight(e) <= weight_cap(graph.node_slots().len() as int),
    ensures
        r is Err <==> graph.has_node(source.0 as int) && negative_in_reach(graph, source.0),
        r is Err ==> r->Err_0 < 0 && exists|e: int| #[trigger] has_arc(graph, e) && reaches(graph, source.0, arc_src(graph, e))
            && arc_weight(graph, e) == r->Err_0,
        r is Ok ==> r->Ok_0@.len() == graph.node_slots().len(),
        r is Ok ==> forall|v: usize| (v as int) < graph.node_slots().len() ==> {
            &&& (#[trigger] r->Ok_0@[v as int] is Some <==> reaches(graph, source.0, v))
            &&& r->Ok_0@[v as int] is Some ==> {
                &&& exists|es: Seq<usize>| #[trigger] edge_walk(graph, source.0, es, v)
                    && walk_weight(graph, es) == r->Ok_0@[v as int]->Some_0
                &&& forall|es: Seq<usize>| #[trigger] edge_walk(graph, source.0, es, v)
                    ==> walk_weight(graph, es) >= r->Ok_0@[v as int]->Some_0
            }
        },
{
    let n = graph.node_bound();
    let ghost cap = weight_cap(n as int);
    proof {
        assert(cap * (n + 1) <= i64::MAX && cap >= 0) by (nonlinear_arith)
            requires cap == (i64::MAX as int) / (n + 1), n >= 0;
        assert forall|e: int| #[trigger] has_arc(graph, e) implies arc_weight(graph, e) <= cap by {
            assert(graph.has_edge(e / 2));
        }
    }
    let costs = weights_of(graph);
    let found = dijkstra_costs(graph, source, &costs, Ghost(cap));
    proof {
        assert(negative_in_reach(graph, source.0) == negative_cost_in_reach(graph, costs@, source.0));
    }
    let d = match found {
        Err(w) => {
            proof {
                let e = choose|e: int| #[trigger] has_arc(graph, e) && reaches(graph, source.0, arc_src(graph, e))
                    && costs@[e] == w;
            }
            return Err(w as i64);
        },
        Ok(d) => d,
    };
    let mut out: Vec<Option<i64>> = Vec::new();
    let mut v: usize = 0;
    while v < n
        invariant
            n == graph.node_slots().len(),
            d@.len() == n,
            v <= n,
            out@.len() == v,
            cap * (n + 1) <= i64::MAX,
            cap >= 0,
            forall|y: int| 0 <= y < n && #[trigger] d@[y] is Some ==> 0 <= d@[y]->Some_0 <= n * cap,
            forall|y: int| 0 <= y < v ==> (#[trigger] out@[y] is Some <==> d@[y] is Some)
                && (out@[y] is Some ==> out@[y]->Some_0 == d@[y]->Some_0),
        decreases n - v,
    {
        let ghost ob = out@;
        match d[v] {
            Some(x) => {
                proof {
                    assert(d@[v as int] is Some);
                    assert(n * cap <= (n + 1) * cap) by (nonlinear_arith) requires cap >= 0;
                }
                out.push(Some(x as i64));
            },
            None => out.push(None),
        }
        proof {
            assert forall|y: int| 0 <= y < v + 1 implies (#[trigger] out@[y] is Some <==> d@[y] is Some)
                && (out@[y] is Some ==> out@[y]->Some_0 == d@[y]->Some_0) by {
                if y < v {
                    assert(out@[y] == ob[y]);
                }
            }
        }
        v = v + 1;
    }
    proof {
        assert forall|v: usize| (v as int) < graph.node_slots().len() && #[trigger] out@[v as int] is Some implies {
            &&& exists|es: Seq<usize>| #[trigger] edge_walk(graph, source.0, es, v)
                && walk_weight(graph, es) == out@[v as int]->Some_0
            &&& forall|es: Seq<usize>| #[trigger] edge_walk(graph, source.0, es, v)
                ==> walk_weight(graph, es) >= out@[v as int]->Some_0
        } by {
            let es = choose|es: Seq<usize>| #[trigger] edge_walk(graph, source.0, es, v)
                && walk_cost(costs@, es) == d@[v as int]->Some_0;
            lemma_cost_is_weight(graph, costs@, source.0, es, v);
            assert forall|es2: Seq<usize>| #[trigger] edge_walk(graph, source.0, es2, v) implies walk_weight(graph, es2)
                >= out@[v as int]->Some_0 by {
                lemma_cost_is_weight(graph, costs@, source.0, es2, v);
            }
        }
        assert forall|v: usize| (v as int) < graph.node_slots().len() implies (#[trigger] out@[v as int] is Some
            <==> reaches(graph, source.0, v)) by {
            assert(out@[v as int] is Some <==> d@[v as int] is Some);
        }
    }
    Ok(out)
}

/// The node a walk from `s` has reached after its first `i` edges.
pub open spec fn node_at<A, Ty: GraphConstructor>(g: &BaseGraph<A, i64, Ty>, s: usize, es: Seq<usize>, i: int) -> usize {
    if i <= 0 { s } else { arc_tgt(g, es[i - 1] as int) }
}

/// Some node that `s` reaches lies on a closed walk of negative weight.
pub open spec fn negative_cycle_in_reach<A, Ty: GraphConstructor>(g: &BaseGraph<A, i64, Ty>, s: usize) -> bool {
    exists|x: usize, c: Seq<usize>| reaches(g, s, x) && #[trigger] edge_walk(g, x, c, x) && walk_weight(g, c) < 0
}

/// Two walks joined end to start make a walk, of the summed weight.
proof fn lemma_walk_concat<A, Ty: GraphConstructor>(g: &BaseGraph<A, i64, Ty>, s: usize, a: Seq<usize>, x: usize,
    b: Seq<usize>, v: usize)
    requires
        edge_walk(g, s, a, x),
        edge_walk(g, x, b, v),
    ensures
        edge_walk(g, s, a + b, v),
        walk_weight(g, a + b) == walk_weight(g, a) + walk_weight(g, b),
    decreases b.len(),
{
    if b.len() == 0 {
        assert(a + b =~= a);
    } else {
        lemma_walk_concat(g, s, a, x, b.drop_last(), arc_src(g, b.last() as int));
        assert((a + b).drop_last() =~= a + b.drop_last());
        assert((a + b).last() == b.last());
    }
}

/// The first `i` edges of a walk lead to `node_at(i)`, and the rest lead on
/// from there to the end.
proof fn lemma_walk_split<A, Ty: GraphConstructor>(g: &BaseGraph<A, i64, Ty>, s: usize, es: Seq<usize>, v: usize, i: int)
    requires
        edge_walk(g, s, es, v),
        0 <= i <= es.len(),
    ensures
        edge_walk(g, s, es.take(i), node_at(g, s, es, i)),
        edge_walk(g, node_at(g, s, es, i), es.skip(i), v),
        es =~= es.take(i) + es.skip(i),
    decreases es.len(),
{
    if i == es.len() {
        assert(es.take(i) =~= es);
        assert(es.skip(i) =~= Seq::<usize>::empty());
    } else {
        let d = es.drop_last();
        lemma_walk_split(g, s, d, arc_src(g, es.last() as int), i);
        assert(d.take(i) =~= es.take(i));
        assert(node_at(g, s, d, i) == node_at(g, s, es, i));
        assert(es.skip(i).drop_last() =~= d.skip(i));
        assert(es.skip(i).last() == es.last());
    }
}

/// The nodes a walk passes, each below the slot count.
proof fn lemma_walk_nodes<A, Ty: GraphConstructor>(g: &BaseGraph<A, i64, Ty>, s: usize, es: Seq<usize>, v: usize, i: int)
    requires
        g.wf(),
        g.has_node(s as int),
        edge_walk(g, s, es, v),
        0 <= i <= es.len(),
    ensures
        g.has_node(node_at(g, s, es, i) as int),
    decreases es.len(),
{
    if i < es.len() {
        lemma_walk_nodes(g, s, es.drop_last(), arc_src(g, es.last() as int), i);
    } else if i > 0 {
        assert(has_arc(g, es.last() as int));
    }
}

/// A walk from a node that passes more nodes than the graph has revisits one.
proof fn lemma_walk_repeats<A, Ty: GraphConstructor>(g: &BaseGraph<A, i64, Ty>, s: usize, es: Seq<usize>, v: usize)
    requires
        g.wf(),
        g.has_node(s as int),
        edge_walk(g, s, es, v),
        es.len() >= g.spec_node_count(),
    ensures
        exists|i: int, j: int| 0 <= i < j <= es.len() && node_at(g, s, es, i) == node_at(g, s, es, j),
{
    let q = Seq::new((es.len() + 1) as nat, |i: int| node_at(g, s, es, i) as int);
    g.lemma_node_slots_bound();
    lemma_live_indices(g.node_slots());
    let live = live_indices(g.node_slots()).map_values(|x: usize| x as int);
    assert(live.no_duplicates()) by {
        assert forall|a: int, b: int| 0 <= a < live.len() && 0 <= b < live.len() && a != b implies live[a] != live[b] by {
            if a < b {
                assert(live_indices(g.node_slots())[a] < live_indices(g.node_slots())[b]);
            } else {
                assert(live_indices(g.node_slots())[b] < live_indices(g.node_slots())[a]);
            }
        }
    }
    live.unique_seq_to_set();
    if q.no_duplicates() {
        q.unique_seq_to_set();
        assert forall|y: int| q.to_set().contains(y) implies live.to_set().contains(y) by {
            let i = choose|i: int| 0 <= i < q.len() && q[i] == y;
            lemma_walk_nodes(g, s, es, v, i);
            let z = node_at(g, s, es, i) as int;
            assert(g.node_slots()[z] is Some);
            assert(live_indices(g.node_slots()).contains(z as usize));
            let k = choose|k: int| 0 <= k < live_indices(g.node_slots()).len()
                && live_indices(g.node_slots())[k] == node_at(g, s, es, i);
            assert(live[k] == y);
        }
        vstd::set_lib::lemma_len_subset(q.to_set(), live.to_set());
        assert(false);
    }
    let (i, j) = choose|i: int, j: int| 0 <= i < q.len() && 0 <= j < q.len() && i != j && q[i] == q[j];
    if i < j {
        assert(node_at(g, s, es, i) == node_at(g, s, es, j));
    } else {
        assert(node_at(g, s, es, j) == node_at(g, s, es, i));
    }
}

/// Every walk from `s` can be cut down to one with fewer edges than the
/// graph has nodes; with no negative closed walk in reach, cutting never
/// makes it heavier.
proof fn lemma_shorten<A, Ty: GraphConstructor>(g: &BaseGraph<A, i64, Ty>, s: usize, es: Seq<usize>, v: usize,
    weighted: bool) -> (r: Seq<usize>)
    requires
        g.wf(),
        g.has_node(s as int),
        edge_walk(g, s, es, v),
        weighted ==> !negative_cycle_in_reach(g, s),
    ensures
        edge_walk(g, s, r, v),
        r.len() < g.spec_node_count(),
        weighted ==> walk_weight(g, r) <= walk_weight(g, es),
    decreases es.len(),
{
    if es.len() < g.spec_node_count() {
        es
    } else {
        lemma_walk_repeats(g, s, es, v);
        let (i, j) = choose|i: int, j: int| 0 <= i < j <= es.len() && node_at(g, s, es, i) == node_at(g, s, es, j);
        let x = node_at(g, s, es, i);
        lemma_walk_split(g, s, es, v, j);
        let head = es.take(j);
        lemma_walk_split(g, s, head, x, i);
        assert(node_at(g, s, head, i) == x);
        let a = head.take(i);
        let c = head.skip(i);
        let b = es.skip(j);
        assert(head.take(i) =~= es.take(i));
        lemma_walk_concat(g, s, a, x, c, x);
        lemma_walk_concat(g, s, head, x, b, v);
        lemma_walk_concat(g, s, a, x, b, v);
        if weighted {
            assert(reaches(g, s, x));
            if walk_weight(g, c) < 0 {
                assert(edge_walk(g, x, c, x));
                assert(negative_cycle_in_reach(g, s));
            }
        }
        lemma_shorten(g, s, a + b, v, weighted)
    }
}

/// Along a walk from a node with a distance, when every edge out of a node
/// with a distance leads to a node with a distance no larger than the
/// sum, the end has a distance of at most the start's plus the weight.
proof fn lemma_feasible<A, Ty: GraphConstructor>(g: &BaseGraph<A, i64, Ty>, dist: Seq<Option<i128>>, x: usize,
    es: Seq<usize>, v: usize)
    requires
        g.wf(),
        dist.len() == g.node_slots().len(),
        (x as int) < dist.len(),
        dist[x as int] is Some,
        forall|f: int| #[trigger] has_arc(g, f) && dist[arc_src(g, f) as int] is Some ==> dist[arc_tgt(g, f) as int] is Some
            && dist[arc_tgt(g, f) as int]->Some_0 <= dist[arc_src(g, f) as int]->Some_0 + arc_weight(g, f),
        edge_walk(g, x, es, v),
    ensures
        (v as int) < dist.len(),
        dist[v as int] is Some,
        dist[v as int]->Some_0 <= dist[x as int]->Some_0 + walk_weight(g, es),
    decreases es.len(),
{
    if es.len() > 0 {
        lemma_feasible(g, dist, x, es.drop_last(), arc_src(g, es.last() as int));
        assert(has_arc(g, es.last() as int));
    }
}

/// The distances from `source` by the Bellman–Ford method: `None` when a closed walk of negative weight lies in
/// reach of `source`; otherwise, for each node (by id), the least weight of a
/// walk to it from `source`, or `None` when there is no walk. When `source`
/// is no node, no node has a distance. Every weight lies within `weight_cap`
/// of the node slots either way, so that every distance fits an `i64`.
pub fn bellman_ford<A, Ty: GraphConstructor>(graph: &BaseGraph<A, i64, Ty>, source: NodeId)
    -> (r: Option<Vec<Option<i64>>>)
    requires
        graph.wf(),
        forall|e: int| #[trigger] graph.has_edge(e) ==> -weight_cap(graph.node_slots().len() as int) <= graph.weight(e)
            <= weight_cap(graph.node_slots().len() as int),
        graph.node_slots().len() * (2 * graph.edge_slots().len()) <= i64::MAX,
    ensures
        r is None <==> graph.has_node(source.0 as int) && negative_cycle_in_reach(graph, source.0),
        r is Some ==> r.unwrap()@.len() == graph.node_slots().len(),
        r is Some ==> forall|v: usize| (v as int) < graph.node_slots().len() ==> {
            &&& (#[trigger] r.unwrap()@[v as int] is Some <==> reaches(graph, source.0, v))
            &&& r.unwrap()@[v as int] is Some ==> {
                &&& exists|es: Seq<usize>| #[trigger] edge_walk(graph, source.0, es, v)
                    && walk_weight(graph, es) == r.unwrap()@[v as int]->Some_0
                &&& forall|es: Seq<usize>| #[trigger] edge_walk(graph, source.0, es, v)
                    ==> walk_weight(graph, es) >= r.unwrap()@[v as int]->Some_0
            }
        },
{
    let n = graph.node_bound();
    let m = arc_bound(graph);
    let mut dist: Vec<Option<i128>> = Vec::new();
    while dist.len() < n
        invariant
            dist@.len() <= n,
            forall|v: int| 0 <= v < dist@.len() ==> #[trigger] dist@[v] is None,
        decreases n - dist@.len(),
    {
        dist.push(None);
    }
    if !graph.contains_node(source) {
        proof {
            assert forall|v: usize| (v as int) < n implies !reaches(graph, source.0, v) by {}
        }
        return Some(nones(n));
    }
    let s = source.0;
    dist.set(s, Some(0));
    let ghost mut wit: Seq<Seq<usize>> = Seq::new(n as nat, |i: int| Seq::<usize>::empty());
    let ghost cap = weight_cap(n as int);
    let count = graph.node_count();
    let rounds: usize = if count > 0 { count - 1 } else { 0 };
    let mut round: usize = 0;
    let mut converged = false;
    proof {
        assert(edge_walk(graph, s, Seq::<usize>::empty(), s));
        assert(wit[s as int] == Seq::<usize>::empty());
        lemma_wide_cap(n as int, m as int);
        assert forall|e: int| #[trigger] has_arc(graph, e) implies -cap <= arc_weight(graph, e) <= cap by {
            assert(graph.has_edge(e / 2));
        }
        graph.lemma_node_slots_bound();
        lemma_live_indices(graph.node_slots());
        assert(graph.node_slots()[s as int] is Some);
        assert(live_indices(graph.node_slots()).contains((s as int) as usize));
        crate::types::lemma_count_bound(graph.node_slots());
        assert forall|es: Seq<usize>, v: usize| #[trigger] edge_walk(graph, s, es, v) && es.len() <= 0 implies
            dist@[v as int] is Some && dist@[v as int]->Some_0 <= walk_weight(graph, es) by {}
    }
    while round < rounds && !converged
        invariant
            graph.wf(),
            n == graph.node_slots().len(),
            m == 2 * graph.edge_slots().len(),
            s == source.0,
            graph.has_node(s as int),
            count == graph.spec_node_count(),
            count >= 1,
            rounds == count - 1,
            round <= rounds,
            rounds < n,
            dist@.len() == n,
            wit.len() == n,
            dist@[s as int] is Some,
            dist@[s as int]->Some_0 <= 0,
            forall|v: int| 0 <= v < n && #[trigger] dist@[v] is Some ==> edge_walk(graph, s, wit[v], v as usize)
                && walk_weight(graph, wit[v]) == dist@[v]->Some_0,
            forall|es: Seq<usize>, v: usize| #[trigger] edge_walk(graph, s, es, v) && es.len() <= round ==> dist@[v as int]
                is Some && dist@[v as int]->Some_0 <= walk_weight(graph, es),
            converged ==> forall|f: int| #[trigger] has_arc(graph, f) && dist@[arc_src(graph, f) as int] is Some
                ==> dist@[arc_tgt(graph, f) as int] is Some && dist@[arc_tgt(graph, f) as int]->Some_0 <= dist@[arc_src(graph, 
                f,
            ) as int]->Some_0 + arc_weight(graph, f),
            forall|e: int| #[trigger] has_arc(graph, e) ==> -cap <= arc_weight(graph, e) <= cap,
            (n * m + 1) * cap <= i128::MAX,
            cap >= 0,
            forall|v: int| 0 <= v < n && #[trigger] dist@[v] is Some ==> -((round * m) * cap) <= dist@[v]->Some_0 <= (
            round * m) * cap,
        decreases 2 * (rounds - round) + if converged { 0int } else { 1int },
    {
        let mut updated = false;
        let mut e: usize = 0;
        let ghost d0 = dist@;
        while e < m
            invariant
                graph.wf(),
                n == graph.node_slots().len(),
                m == 2 * graph.edge_slots().len(),
                s == source.0,
                graph.has_node(s as int),
                round < rounds,
                rounds < n,
                e <= m,
                dist@.len() == n,
                d0.len() == n,
                wit.len() == n,
                dist@[s as int] is Some,
                dist@[s as int]->Some_0 <= 0,
                forall|v: int| 0 <= v < n && #[trigger] dist@[v] is Some ==> edge_walk(graph, s, wit[v], v as usize)
                    && walk_weight(graph, wit[v]) == dist@[v]->Some_0,
                forall|v: int| 0 <= v < n && #[trigger] d0[v] is Some ==> dist@[v] is Some && dist@[v]->Some_0
                    <= d0[v]->Some_0,
                forall|es: Seq<usize>, v: usize| #[trigger] edge_walk(graph, s, es, v) && (es.len() <= round || (
                es.len() == round + 1 && es.last() < e)) ==> dist@[v as int] is Some && dist@[v as int]->Some_0
                    <= walk_weight(graph, es),
                !updated ==> dist@ == d0,
                !updated ==> forall|f: int| 0 <= f < e && #[trigger] has_arc(graph, f) && dist@[arc_src(graph, f) as int]
                    is Some ==> dist@[arc_tgt(graph, f) as int] is Some && dist@[arc_tgt(graph, f) as int]->Some_0 <= dist@[
                    arc_src(graph, f) as int]->Some_0 + arc_weight(graph, f),
                forall|f: int| #[trigger] has_arc(graph, f) ==> -cap <= arc_weight(graph, f) <= cap,
                (n * m + 1) * cap <= i128::MAX,
                cap >= 0,
                forall|v: int| 0 <= v < n && #[trigger] dist@[v] is Some ==> -((round * m + e) * cap)
                    <= dist@[v]->Some_0 <= (round * m + e) * cap,
            decreases m - e,
        {
            match arc_ends(graph, e) {
                Some((a, b)) => {
                    let u = a.0;
                    let t = b.0;
                    let w = arc_weight_of(graph, e) as i128;
                    assert(graph.has_node(u as int) && graph.has_node(t as int));
                    match dist[u] {
                        Some(du) => {
                            proof {
                                assert(dist@[u as int] is Some);
                                assert(-((round * m + e) * cap) <= du <= (round * m + e) * cap);
                                assert(has_arc(graph, e as int));
                                assert(-cap <= w <= cap);
                                assert((round * m + e) * cap + cap == (round * m + e + 1) * cap) by (nonlinear_arith);
                                assert((round * m + e + 1) * cap <= (n * m + 1) * cap) by (nonlinear_arith)
                                    requires round + 1 <= n, e < m, cap >= 0;
                            }
                            let cand = du + w;
                            let better = match dist[t] {
                                None => true,
                                Some(dt) => cand < dt,
                            };
                            if better {
                                let ghost d1 = dist@;
                                dist.set(t, Some(cand));
                                updated = true;
                                proof {
                                    let walk = wit[u as int].push(e);
                                    assert(walk.drop_last() == wit[u as int]);
                                    wit = wit.update(t as int, walk);
                                    assert forall|es: Seq<usize>, v: usize| #[trigger] edge_walk(graph, s, es, v) && (
                                    es.len() <= round || (es.len() == round + 1 && es.last() < e + 1))
                                        implies dist@[v as int] is Some && dist@[v as int]->Some_0 <= walk_weight(graph, es) by {
                                        if es.len() == round + 1 && es.last() == e {
                                            let d = es.drop_last();
                                            assert(edge_walk(graph, s, d, u));
                                            assert(d1[u as int] is Some && d1[u as int]->Some_0 <= walk_weight(graph, d));
                                        } else {
                                            assert(d1[v as int] is Some && d1[v as int]->Some_0 <= walk_weight(graph, es));
                                        }
                                    }
                                }
                            } else {
                                proof {
                                    assert forall|es: Seq<usize>, v: usize| #[trigger] edge_walk(graph, s, es, v) && (
                                    es.len() <= round || (es.len() == round + 1 && es.last() < e + 1))
                                        implies dist@[v as int] is Some && dist@[v as int]->Some_0 <= walk_weight(graph, es) by {
                                        if es.len() == round + 1 && es.last() == e {
                                            let d = es.drop_last();
                                            assert(edge_walk(graph, s, d, u));
                                        }
                                    }
                                }
                            }
                        },
                        None => {
                            proof {
                                assert forall|es: Seq<usize>, v: usize| #[trigger] edge_walk(graph, s, es, v) && (
                                es.len() <= round || (es.len() == round + 1 && es.last() < e + 1))
                                    implies dist@[v as int] is Some && dist@[v as int]->Some_0 <= walk_weight(graph, es) by {
                                    if es.len() == round + 1 && es.last() == e {
                                        let d = es.drop_last();
                                        assert(edge_walk(graph, s, d, u));
                                    }
                                }
                            }
                        },
                    }
                },
                None => {},
            }
            proof {
                assert((round * m + e) * cap <= (round * m + e + 1) * cap) by (nonlinear_arith) requires cap >= 0;
                assert forall|v: int| 0 <= v < n && #[trigger] dist@[v] is Some implies -((round * m + e + 1) * cap)
                    <= dist@[v]->Some_0 <= (round * m + e + 1) * cap by {}
            }
            e = e + 1;
        }
        proof {
            assert forall|es: Seq<usize>, v: usize| #[trigger] edge_walk(graph, s, es, v) && es.len() <= round + 1
                implies dist@[v as int] is Some && dist@[v as int]->Some_0 <= walk_weight(graph, es) by {
                if es.len() == round + 1 {
                    assert(has_arc(graph, es.last() as int));
                }
            }
            assert((round * m + m) == (round + 1) * m) by (nonlinear_arith);
        }
        if !updated {
            converged = true;
        } else {
            round = round + 1;
        }
    }
    proof {
        assert((round * m) * cap <= (n * m) * cap) by (nonlinear_arith) requires round <= n, m >= 0, cap >= 0;
        assert forall|v: int| 0 <= v < n && #[trigger] dist@[v] is Some implies -((n * m) * cap) <= dist@[v]->Some_0
            <= (n * m) * cap by {
            assert(-((round * m) * cap) <= dist@[v]->Some_0 <= (round * m) * cap);
        }
    }
    let mut e: usize = 0;
    while e < m
        invariant
            graph.wf(),
            n == graph.node_slots().len(),
            m == 2 * graph.edge_slots().len(),
            e <= m,
            dist@.len() == n,
            s == source.0,
            graph.has_node(s as int),
            count == graph.spec_node_count(),
            rounds == count - 1,
            !converged ==> round == rounds,
            wit.len() == n,
            dist@[s as int] is Some,
            dist@[s as int]->Some_0 <= 0,
            forall|v: int| 0 <= v < n && #[trigger] dist@[v] is Some ==> edge_walk(graph, s, wit[v], v as usize)
                && walk_weight(graph, wit[v]) == dist@[v]->Some_0,
            forall|es: Seq<usize>, v: usize| #[trigger] edge_walk(graph, s, es, v) && es.len() <= round ==> dist@[v as int]
                is Some && dist@[v as int]->Some_0 <= walk_weight(graph, es),
            converged ==> forall|f: int| #[trigger] has_arc(graph, f) && dist@[arc_src(graph, f) as int] is Some
                ==> dist@[arc_tgt(graph, f) as int] is Some && dist@[arc_tgt(graph, f) as int]->Some_0 <= dist@[arc_src(graph, 
                f,
            ) as int]->Some_0 + arc_weight(graph, f),
            forall|f: int| 0 <= f < e && #[trigger] has_arc(graph, f) && dist@[arc_src(graph, f) as int] is Some
                && dist@[arc_tgt(graph, f) as int] is Some ==> dist@[arc_tgt(graph, f) as int]->Some_0 <= dist@[arc_src(graph, 
                f,
            ) as int]->Some_0 + arc_weight(graph, f),
            forall|f: int| #[trigger] has_arc(graph, f) ==> -cap <= arc_weight(graph, f) <= cap,
            (n * m + 1) * cap <= i128::MAX,
            cap >= 0,
            forall|v: int| 0 <= v < n && #[trigger] dist@[v] is Some ==> -((n * m) * cap) <= dist@[v]->Some_0 <= (n * m) * cap,
        decreases m - e,
    {
        match arc_ends(graph, e) {
            Some((a, b)) => {
                let w = arc_weight_of(graph, e) as i128;
                assert(graph.has_node(a.0 as int) && graph.has_node(b.0 as int));
                match (dist[a.0], dist[b.0]) {
                    (Some(du), Some(dv)) => {
                        proof {
                            assert((n * m) * cap + cap <= (n * m + 1) * cap) by (nonlinear_arith);
                            assert(dist@[a.0 as int] is Some);
                            assert(-((n * m) * cap) <= du <= (n * m) * cap);
                            assert(has_arc(graph, e as int));
                            assert(-cap <= w <= cap);
                        }
                        if du + w < dv {
                            proof {
                                if !negative_cycle_in_reach(graph, s) {
                                    assert(has_arc(graph, e as int));
                                    if !converged {
                                        let walk = wit[a.0 as int].push(e as usize);
                                        assert(walk.drop_last() == wit[a.0 as int]);
                                        assert(edge_walk(graph, s, walk, b.0));
                                        let short = lemma_shorten(graph, s, walk, b.0, true);
                                        assert(short.len() <= round);
                                        assert(dist@[b.0 as int]->Some_0 <= walk_weight(graph, short));
                                    }
                                }
                            }
                            return None;
                        }
                    },
                    _ => {},
                }
            },
            None => {},
        }
        e = e + 1;
    }
    proof {
        let d = dist@;
        assert forall|f: int| #[trigger] has_arc(graph, f) && d[arc_src(graph, f) as int] is Some implies d[arc_tgt(graph, 
            f,
        ) as int] is Some && d[arc_tgt(graph, f) as int]->Some_0 <= d[arc_src(graph, f) as int]->Some_0 + arc_weight(graph, f) by {
            assert(graph.has_node(arc_src(graph, f) as int) && graph.has_node(arc_tgt(graph, f) as int));
            if !converged {
                let u = arc_src(graph, f);
                let walk = wit[u as int].push(f as usize);
                assert(walk.drop_last() == wit[u as int]);
                assert(edge_walk(graph, s, walk, arc_tgt(graph, f)));
                let short = lemma_shorten(graph, s, walk, arc_tgt(graph, f), false);
                assert(short.len() <= round);
                assert(d[arc_tgt(graph, f) as int] is Some);
            }
        }
        assert(!negative_cycle_in_reach(graph, s)) by {
            if negative_cycle_in_reach(graph, s) {
                let (x, c) = choose|x: usize, c: Seq<usize>| reaches(graph, s, x) && #[trigger] edge_walk(graph, x, c, x)
                    && walk_weight(graph, c) < 0;
                let es = choose|es: Seq<usize>| #[trigger] edge_walk(graph, s, es, x);
                lemma_feasible(graph, d, s, es, x);
                lemma_feasible(graph, d, x, c, x);
            }
        }
        assert(d[s as int]->Some_0 == 0) by {
            assert(edge_walk(graph, s, wit[s as int], s));
            assert(reaches(graph, s, s));
            lemma_feasible(graph, d, s, wit[s as int], s);
            if walk_weight(graph, wit[s as int]) < 0 {
                assert(negative_cycle_in_reach(graph, s));
            }
        }
        assert forall|v: usize| (v as int) < n implies {
            &&& (#[trigger] d[v as int] is Some <==> reaches(graph, s, v))
            &&& d[v as int] is Some ==> {
                &&& exists|es: Seq<usize>| #[trigger] edge_walk(graph, s, es, v) && walk_weight(graph, es)
                    == d[v as int]->Some_0
                &&& forall|es: Seq<usize>| #[trigger] edge_walk(graph, s, es, v) ==> walk_weight(graph, es)
                    >= d[v as int]->Some_0
            }
        } by {
            if d[v as int] is Some {
                assert(edge_walk(graph, s, wit[v as int], v));
                assert forall|es: Seq<usize>| #[trigger] edge_walk(graph, s, es, v) implies walk_weight(graph, es)
                    >= d[v as int]->Some_0 by {
                    lemma_feasible(graph, d, s, es, v);
                }
            }
            if reaches(graph, s, v) {
                let es = choose|es: Seq<usize>| #[trigger] edge_walk(graph, s, es, v);
                lemma_feasible(graph, d, s, es, v);
            }
        }
    }
    let out = narrowed(graph, s, &dist, Ghost(cap));
    Some(out)
}

/// `n` times the weight cap, with one more, stays within `i64`, and the
/// relaxation bound over `n * m` steps stays within `i128`.
proof fn lemma_wide_cap(n: int, m: int)
    requires
        n >= 0,
        m >= 0,
        n * m <= i64::MAX,
    ensures
        weight_cap(n) >= 0,
        weight_cap(n) * (n + 1) <= i64::MAX,
        (n * m + 1) * weight_cap(n) <= i128::MAX,
{
    let cap = weight_cap(n);
    assert(cap * (n + 1) <= i64::MAX && cap >= 0) by (nonlinear_arith)
        requires cap == (i64::MAX as int) / (n + 1), n >= 0;
    assert(cap <= i64::MAX) by (nonlinear_arith) requires cap * (n + 1) <= i64::MAX, n >= 0, cap >= 0;
    assert((n * m + 1) * cap <= (i64::MAX + 1) * (i64::MAX as int)) by (nonlinear_arith)
        requires n * m <= i64::MAX, n * m >= 0, 0 <= cap <= i64::MAX;
}

/// `n` empty distances.
fn nones(n: usize) -> (r: Vec<Option<i64>>)
    ensures
        r@.len() == n,
        forall|v: int| 0 <= v < n ==> #[trigger] r@[v] is None,
{
    let mut r: Vec<Option<i64>> = Vec::new();
    while r.len() < n
        invariant
            r@.len() <= n,
            forall|v: int| 0 <= v < r@.len() ==> #[trigger] r@[v] is None,
        decreases n - r@.len(),
    {
        r.push(None);
    }
    r
}

/// A walk over arcs weighing at most `c` either way weighs at most `c` per
/// arc either way.
proof fn lemma_weight_bound<A, Ty: GraphConstructor>(g: &BaseGraph<A, i64, Ty>, x: usize, es: Seq<usize>, v: usize,
    c: int)
    requires
        forall|e: int| #[trigger] has_arc(g, e) ==> -c <= arc_weight(g, e) <= c,
        edge_walk(g, x, es, v),
    ensures
        -(es.len() * c) <= walk_weight(g, es) <= es.len() * c,
    decreases es.len(),
{
    if es.len() > 0 {
        lemma_weight_bound(g, x, es.drop_last(), arc_src(g, es.last() as int), c);
        assert(has_arc(g, es.last() as int));
        assert((es.len() - 1) * c + c == es.len() * c) by (nonlinear_arith);
    }
}

/// Exact distances from `s`, each the weight of a walk with fewer arcs than
/// there are nodes, brought down to `i64`.
fn narrowed<A, Ty: GraphConstructor>(graph: &BaseGraph<A, i64, Ty>, s: usize, dist: &Vec<Option<i128>>,
    Ghost(cap): Ghost<int>) -> (out: Vec<Option<i64>>)
    requires
        graph.wf(),
        graph.has_node(s as int),
        !negative_cycle_in_reach(graph, s),
        dist@.len() == graph.node_slots().len(),
        cap >= 0,
        cap * (graph.node_slots().len() + 1) <= i64::MAX,
        forall|e: int| #[trigger] has_arc(graph, e) ==> -cap <= arc_weight(graph, e) <= cap,
        forall|v: usize| (v as int) < graph.node_slots().len() && #[trigger] dist@[v as int] is Some ==> {
            &&& exists|es: Seq<usize>| #[trigger] edge_walk(graph, s, es, v) && walk_weight(graph, es)
                == dist@[v as int]->Some_0
            &&& forall|es: Seq<usize>| #[trigger] edge_walk(graph, s, es, v) ==> walk_weight(graph, es)
                >= dist@[v as int]->Some_0
        },
    ensures
        out@.len() == dist@.len(),
        forall|v: int| 0 <= v < dist@.len() ==> (#[trigger] out@[v] is Some <==> dist@[v] is Some)
            && (out@[v] is Some ==> out@[v]->Some_0 == dist@[v]->Some_0),
{
    let n = dist.len();
    let mut out: Vec<Option<i64>> = Vec::new();
    let mut v: usize = 0;
    while v < n
        invariant
            graph.wf(),
            graph.has_node(s as int),
            !negative_cycle_in_reach(graph, s),
            n == graph.node_slots().len(),
            dist@.len() == n,
            v <= n,
            out@.len() == v,
            cap >= 0,
            cap * (n + 1) <= i64::MAX,
            forall|e: int| #[trigger] has_arc(graph, e) ==> -cap <= arc_weight(graph, e) <= cap,
            forall|v: usize| (v as int) < n && #[trigger] dist@[v as int] is Some ==> {
                &&& exists|es: Seq<usize>| #[trigger] edge_walk(graph, s, es, v) && walk_weight(graph, es)
                    == dist@[v as int]->Some_0
                &&& forall|es: Seq<usize>| #[trigger] edge_walk(graph, s, es, v) ==> walk_weight(graph, es)
                    >= dist@[v as int]->Some_0
            },
            forall|y: int| 0 <= y < v ==> (#[trigger] out@[y] is Some <==> dist@[y] is Some)
                && (out@[y] is Some ==> out@[y]->Some_0 == dist@[y]->Some_0),
        decreases n - v,
    {
        let ghost ob = out@;
        match dist[v] {
            Some(x) => {
                proof {
                    assert(dist@[v as int] is Some);
                    let es = choose|es: Seq<usize>| #[trigger] edge_walk(graph, s, es, v) && walk_weight(graph, es)
                        == dist@[v as int]->Some_0;
                    let short = lemma_shorten(graph, s, es, v, true);
                    crate::types::lemma_count_bound(graph.node_slots());
                    lemma_weight_bound(graph, s, short, v, cap);
                    assert(short.len() * cap <= n * cap) by (nonlinear_arith) requires short.len() <= n, cap >= 0;
                    assert(n * cap <= (n + 1) * cap) by (nonlinear_arith) requires cap >= 0;
                    assert(x <= walk_weight(graph, short));
                }
                out.push(Some(x as i64));
            },
            None => out.push(None),
        }
        proof {
            assert forall|y: int| 0 <= y < v + 1 implies (#[trigger] out@[y] is Some <==> dist@[y] is Some)
                && (out@[y] is Some ==> out@[y]->Some_0 == dist@[y]->Some_0) by {
                if y < v {
                    assert(out@[y] == ob[y]);
                }
            }
        }
        v = v + 1;
    }
    out
}

/// Along a walk, a potential that no edge undercuts rises by at most the
/// walk's weight.
proof fn lemma_potential<A, Ty: GraphConstructor>(g: &BaseGraph<A, i64, Ty>, h: Seq<i128>, x: usize, es: Seq<usize>,
    v: usize)
    requires
        g.wf(),
        h.len() == g.node_slots().len(),
        g.has_node(x as int),
        forall|f: int| #[trigger] has_arc(g, f) ==> h[arc_tgt(g, f) as int] <= h[arc_src(g, f) as int] + arc_weight(g, f),
        edge_walk(g, x, es, v),
    ensures
        g.has_node(v as int),
        h[v as int] <= h[x as int] + walk_weight(g, es),
    decreases es.len(),
{
    if es.len() > 0 {
        lemma_potential(g, h, x, es.drop_last(), arc_src(g, es.last() as int));
        assert(has_arc(g, es.last() as int));
    }
}

/// Some closed walk of negative weight passes through a node of the graph.
pub open spec fn has_negative_cycle<A, Ty: GraphConstructor>(g: &BaseGraph<A, i64, Ty>) -> bool {
    exists|x: usize| g.has_node(x as int) && #[trigger] negative_cycle_in_reach(g, x)
}

/// Johnson's potentials: Bellman–Ford from a virtual node joined to every
/// node at weight zero. `None` when a negative cycle exists; otherwise
/// potentials that no edge undercuts.
fn potentials<A, Ty: GraphConstructor>(graph: &BaseGraph<A, i64, Ty>, Ghost(c): Ghost<int>) -> (r: Option<Vec<i128>>)
    requires
        graph.wf(),
        c >= 0,
        (graph.node_slots().len() * (2 * graph.edge_slots().len()) + 1) * c <= i128::MAX,
        forall|e: int| #[trigger] has_arc(graph, e) ==> -c <= arc_weight(graph, e) <= c,
    ensures
        r is None <==> has_negative_cycle(graph),
        r is Some ==> r.unwrap()@.len() == graph.node_slots().len(),
        r is Some ==> forall|f: int| #[trigger] has_arc(graph, f) ==> r.unwrap()@[arc_tgt(graph, f) as int]
            <= r.unwrap()@[arc_src(graph, f) as int] + arc_weight(graph, f),
        r is Some ==> forall|v: int| 0 <= v < graph.node_slots().len() ==> -((graph.node_slots().len()
            * (2 * graph.edge_slots().len())) * c) <= #[trigger] r.unwrap()@[v] <= 0,
{
    let n = graph.node_bound();
    let m = arc_bound(graph);
    let mut h: Vec<i128> = Vec::new();
    while h.len() < n
        invariant
            h@.len() <= n,
            forall|v: int| 0 <= v < h@.len() ==> #[trigger] h@[v] == 0,
        decreases n - h@.len(),
    {
        h.push(0i128);
    }
    let ghost mut wit: Seq<Seq<usize>> = Seq::new(n as nat, |i: int| Seq::<usize>::empty());
    let ghost mut st: Seq<usize> = Seq::new(n as nat, |i: int| i as usize);
    let ghost cap = c;
    let count = graph.node_count();
    let rounds: usize = if count > 0 { count - 1 } else { 0 };
    let mut round: usize = 0;
    let mut converged = false;
    proof {
        crate::types::lemma_count_bound(graph.node_slots());
        assert forall|v: int| 0 <= v < n && graph.has_node(v) implies edge_walk(graph, #[trigger] st[v], wit[v], v as usize)
            && graph.has_node(st[v] as int) && walk_weight(graph, wit[v]) == h@[v] by {}
    }
    while round < rounds && !converged
        invariant
            graph.wf(),
            n == graph.node_slots().len(),
            m == 2 * graph.edge_slots().len(),
            count == graph.spec_node_count(),
            rounds == (if count > 0 { count - 1 } else { 0 }),
            round <= rounds,
            count <= n,
            h@.len() == n,
            wit.len() == n,
            st.len() == n,
            forall|v: int| 0 <= v < n ==> #[trigger] h@[v] <= 0,
            forall|v: int| 0 <= v < n && graph.has_node(v) ==> edge_walk(graph, #[trigger] st[v], wit[v], v as usize)
                && graph.has_node(st[v] as int) && walk_weight(graph, wit[v]) == h@[v],
            forall|x: usize, es: Seq<usize>, v: usize| graph.has_node(x as int) && #[trigger] edge_walk(graph, x, es, v)
                && es.len() <= round ==> h@[v as int] <= walk_weight(graph, es),
            converged ==> forall|f: int| #[trigger] has_arc(graph, f) ==> h@[arc_tgt(graph, f) as int] <= h@[arc_src(graph, 
                f,
            ) as int] + arc_weight(graph, f),
            forall|e: int| #[trigger] has_arc(graph, e) ==> -cap <= arc_weight(graph, e) <= cap,
            (n * m + 1) * cap <= i128::MAX,
            cap >= 0,
            forall|v: int| 0 <= v < n ==> -((round * m) * cap) <= #[trigger] h@[v],
        decreases 2 * (rounds - round) + if converged { 0int } else { 1int },
    {
        let mut updated = false;
        let mut e: usize = 0;
        let ghost h0 = h@;
        while e < m
            invariant
                graph.wf(),
                n == graph.node_slots().len(),
                m == 2 * graph.edge_slots().len(),
                round < rounds,
                rounds <= n,
                e <= m,
                h@.len() == n,
                h0.len() == n,
                wit.len() == n,
                st.len() == n,
                forall|v: int| 0 <= v < n ==> #[trigger] h@[v] <= 0,
                forall|v: int| 0 <= v < n && graph.has_node(v) ==> edge_walk(graph, #[trigger] st[v], wit[v], v as usize)
                    && graph.has_node(st[v] as int) && walk_weight(graph, wit[v]) == h@[v],
                forall|v: int| 0 <= v < n ==> #[trigger] h@[v] <= h0[v],
                forall|x: usize, es: Seq<usize>, v: usize| graph.has_node(x as int) && #[trigger] edge_walk(graph, x, es, v)
                    && (es.len() <= round || (es.len() == round + 1 && es.last() < e)) ==> h@[v as int] <= walk_weight(
                    graph,
                    es,
                ),
                !updated ==> h@ == h0,
                !updated ==> forall|f: int| 0 <= f < e && #[trigger] has_arc(graph, f) ==> h@[arc_tgt(graph, f) as int]
                    <= h@[arc_src(graph, f) as int] + arc_weight(graph, f),
                forall|f: int| #[trigger] has_arc(graph, f) ==> -cap <= arc_weight(graph, f) <= cap,
                (n * m + 1) * cap <= i128::MAX,
                cap >= 0,
                forall|v: int| 0 <= v < n ==> -((round * m + e) * cap) <= #[trigger] h@[v],
            decreases m - e,
        {
            match arc_ends(graph, e) {
                Some((a, b)) => {
                    let u = a.0;
                    let t = b.0;
                    let w = arc_weight_of(graph, e) as i128;
                    assert(graph.has_node(u as int) && graph.has_node(t as int));
                    proof {
                        assert(-((round * m + e) * cap) <= h@[u as int] <= 0);
                        assert(has_arc(graph, e as int));
                        assert((round * m + e) * cap + cap == (round * m + e + 1) * cap) by (nonlinear_arith);
                        assert((round * m + e + 1) * cap <= (n * m + 1) * cap) by (nonlinear_arith)
                            requires round + 1 <= n, e < m, cap >= 0;
                    }
                    let cand = h[u] + w;
                    if cand < h[t] {
                        let ghost h1 = h@;
                        h.set(t, cand);
                        updated = true;
                        proof {
                            let wu = wit[u as int];
                            assert(edge_walk(graph, st[u as int], wu, u));
                            assert(walk_weight(graph, wu) == h1[u as int]);
                            let walk = wu.push(e);
                            assert(walk.drop_last() == wu);
                            assert(walk_weight(graph, walk) == h1[u as int] + w);
                            assert(edge_walk(graph, st[u as int], walk, t));
                            let wit0 = wit;
                            let st0 = st;
                            wit = wit.update(t as int, walk);
                            st = st.update(t as int, st[u as int]);
                            assert forall|x: usize, es: Seq<usize>, v: usize| graph.has_node(x as int) && #[trigger] edge_walk(
                                graph,
                                x,
                                es,
                                v,
                            ) && (es.len() <= round || (es.len() == round + 1 && es.last() < e + 1))
                                implies h@[v as int] <= walk_weight(graph, es) by {
                                if es.len() == round + 1 && es.last() == e {
                                    let d = es.drop_last();
                                    assert(edge_walk(graph, x, d, u));
                                    assert(h1[u as int] <= walk_weight(graph, d));
                                } else {
                                    assert(h1[v as int] <= walk_weight(graph, es));
                                }
                            }
                            assert forall|v: int| 0 <= v < n && graph.has_node(v) implies edge_walk(graph, #[trigger] st[v], wit[v], v as usize)
                                && graph.has_node(st[v] as int) && walk_weight(graph, wit[v]) == h@[v] by {
                                if v == t as int {
                                    assert(wit[v] == walk);
                                } else {
                                    assert(st[v] == st0[v] && wit[v] == wit0[v]);
                                    assert(edge_walk(graph, st0[v], wit0[v], v as usize));
                                }
                            }
                        }
                    } else {
                        proof {
                            assert forall|x: usize, es: Seq<usize>, v: usize| graph.has_node(x as int) && #[trigger] edge_walk(
                                graph,
                                x,
                                es,
                                v,
                            ) && (es.len() <= round || (es.len() == round + 1 && es.last() < e + 1))
                                implies h@[v as int] <= walk_weight(graph, es) by {
                                if es.len() == round + 1 && es.last() == e {
                                    let d = es.drop_last();
                                    assert(edge_walk(graph, x, d, u));
                                }
                            }
                        }
                    }
                },
                None => {},
            }
            proof {
                assert((round * m + e) * cap <= (round * m + e + 1) * cap) by (nonlinear_arith) requires cap >= 0;
                assert forall|v: int| 0 <= v < n implies -((round * m + e + 1) * cap) <= #[trigger] h@[v] by {}
            }
            e = e + 1;
        }
        proof {
            assert forall|x: usize, es: Seq<usize>, v: usize| graph.has_node(x as int) && #[trigger] edge_walk(graph, x, es, v)
                && es.len() <= round + 1 implies h@[v as int] <= walk_weight(graph, es) by {
                if es.len() == round + 1 {
                    assert(has_arc(graph, es.last() as int));
                }
            }
            assert((round * m + m) == (round + 1) * m) by (nonlinear_arith);
        }
        if !updated {
            converged = true;
        } else {
            round = round + 1;
        }
    }
    proof {
        assert((round * m) * cap <= (n * m) * cap) by (nonlinear_arith) requires round <= n, m >= 0, cap >= 0;
        assert forall|v: int| 0 <= v < n implies -((n * m) * cap) <= #[trigger] h@[v] by {
            assert(-((round * m) * cap) <= h@[v]);
        }
    }
    let mut e: usize = 0;
    while e < m
        invariant
            graph.wf(),
            n == graph.node_slots().len(),
            m == 2 * graph.edge_slots().len(),
            e <= m,
            h@.len() == n,
            count == graph.spec_node_count(),
            rounds == (if count > 0 { count - 1 } else { 0 }),
            !converged ==> round == rounds,
            wit.len() == n,
            st.len() == n,
            forall|v: int| 0 <= v < n ==> #[trigger] h@[v] <= 0,
            forall|v: int| 0 <= v < n && graph.has_node(v) ==> edge_walk(graph, #[trigger] st[v], wit[v], v as usize)
                && graph.has_node(st[v] as int) && walk_weight(graph, wit[v]) == h@[v],
            forall|x: usize, es: Seq<usize>, v: usize| graph.has_node(x as int) && #[trigger] edge_walk(graph, x, es, v)
                && es.len() <= round ==> h@[v as int] <= walk_weight(graph, es),
            converged ==> forall|f: int| #[trigger] has_arc(graph, f) ==> h@[arc_tgt(graph, f) as int] <= h@[arc_src(graph, 
                f,
            ) as int] + arc_weight(graph, f),
            forall|f: int| 0 <= f < e && #[trigger] has_arc(graph, f) ==> h@[arc_tgt(graph, f) as int] <= h@[arc_src(graph, 
                f,
            ) as int] + arc_weight(graph, f),
            forall|f: int| #[trigger] has_arc(graph, f) ==> -cap <= arc_weight(graph, f) <= cap,
            (n * m + 1) * cap <= i128::MAX,
            cap >= 0,
            cap == c,
            forall|v: int| 0 <= v < n ==> -((n * m) * cap) <= #[trigger] h@[v],
        decreases m - e,
    {
        match arc_ends(graph, e) {
            Some((a, b)) => {
                let w = arc_weight_of(graph, e) as i128;
                assert(graph.has_node(a.0 as int) && graph.has_node(b.0 as int));
                proof {
                    assert((n * m) * cap + cap <= (n * m + 1) * cap) by (nonlinear_arith);
                    assert(-((n * m) * cap) <= h@[a.0 as int] <= 0);
                    assert(has_arc(graph, e as int));
                }
                if h[a.0] + w < h[b.0] {
                    proof {
                        if !has_negative_cycle(graph) {
                            assert(has_arc(graph, e as int));
                            if !converged {
                                let x = st[a.0 as int];
                                let walk = wit[a.0 as int].push(e as usize);
                                assert(walk.drop_last() == wit[a.0 as int]);
                                assert(edge_walk(graph, x, walk, b.0));
                                assert(!negative_cycle_in_reach(graph, x));
                                let short = lemma_shorten(graph, x, walk, b.0, true);
                                assert(short.len() <= round);
                                assert(h@[b.0 as int] <= walk_weight(graph, short));
                            }
                        }
                    }
                    return None;
                }
            },
            None => {},
        }
        e = e + 1;
    }
    proof {
        let hh = h@;
        assert forall|f: int| #[trigger] has_arc(graph, f) implies hh[arc_tgt(graph, f) as int] <= hh[arc_src(graph, f) as int]
            + arc_weight(graph, f) by {}
        assert(!has_negative_cycle(graph)) by {
            if has_negative_cycle(graph) {
                let x = choose|x: usize| graph.has_node(x as int) && #[trigger] negative_cycle_in_reach(graph, x);
                let (y, c) = choose|y: usize, c: Seq<usize>| reaches(graph, x, y) && #[trigger] edge_walk(graph, y, c, y)
                    && walk_weight(graph, c) < 0;
                let es = choose|es: Seq<usize>| #[trigger] edge_walk(graph, x, es, y);
                lemma_potential(graph, hh, x, es, y);
                lemma_potential(graph, hh, y, c, y);
            }
        }
    }
    Some(h)
}


/// Reweighting by a potential changes a walk's cost by the potential's
/// difference between its ends.
proof fn lemma_telescope<A, Ty: GraphConstructor>(g: &BaseGraph<A, i64, Ty>, costs: Seq<i128>, h: Seq<i128>, x: usize,
    es: Seq<usize>, v: usize)
    requires
        forall|e: int| #[trigger] has_arc(g, e) ==> costs[e] == arc_weight(g, e) + h[arc_src(g, e) as int] - h[arc_tgt(g, e) as int],
        edge_walk(g, x, es, v),
    ensures
        walk_cost(costs, es) == walk_weight(g, es) + h[x as int] - h[v as int],
    decreases es.len(),
{
    if es.len() > 0 {
        lemma_telescope(g, costs, h, x, es.drop_last(), arc_src(g, es.last() as int));
        assert(has_arc(g, es.last() as int));
    }
}

/// All-pairs distances by Johnson's method: Bellman–Ford potentials from a
/// virtual node, then Dijkstra's search from every node over the weights the
/// potentials make nonnegative. `None` when the graph has a negative cycle;
/// otherwise row `u`, column `v` holds the least weight of a walk from `u` to
/// `v`, or `None` when there is no walk (rows and columns by node id).
/// Every weight lies within `weight_cap` of the node slots either way.
pub fn johnson<A, Ty: GraphConstructor>(graph: &BaseGraph<A, i64, Ty>) -> (r: Option<Vec<Vec<Option<i64>>>>)
    requires
        graph.wf(),
        forall|e: int| #[trigger] graph.has_edge(e) ==> -weight_cap(graph.node_slots().len() as int) <= graph.weight(e)
            <= weight_cap(graph.node_slots().len() as int),
        graph.node_slots().len() * (2 * graph.edge_slots().len()) <= i64::MAX,
    ensures
        r is None <==> has_negative_cycle(graph),
        r is Some ==> r.unwrap()@.len() == graph.node_slots().len(),
        r is Some ==> forall|u: usize| (u as int) < graph.node_slots().len() ==> (#[trigger] r.unwrap()@[u as int])@.len()
            == graph.node_slots().len(),
        r is Some ==> forall|u: usize, v: usize| (u as int) < graph.node_slots().len() && (v as int)
            < graph.node_slots().len() ==> {
            &&& (#[trigger] r.unwrap()@[u as int]@[v as int] is Some <==> reaches(graph, u, v))
            &&& r.unwrap()@[u as int]@[v as int] is Some ==> {
                &&& exists|es: Seq<usize>| #[trigger] edge_walk(graph, u, es, v)
                    && walk_weight(graph, es) == r.unwrap()@[u as int]@[v as int]->Some_0
                &&& forall|es: Seq<usize>| #[trigger] edge_walk(graph, u, es, v)
                    ==> walk_weight(graph, es) >= r.unwrap()@[u as int]@[v as int]->Some_0
            }
        },
{
    let n = graph.node_bound();
    let m = arc_bound(graph);
    let ghost cap = weight_cap(n as int);
    proof {
        lemma_wide_cap(n as int, m as int);
        assert forall|e: int| #[trigger] has_arc(graph, e) implies -cap <= arc_weight(graph, e) <= cap by {
            assert(graph.has_edge(e / 2));
        }
    }
    let h = match potentials(graph, Ghost(cap)) {
        Some(h) => h,
        None => {
            return None;
        },
    };
    let ghost hc = (2 * n * m + 1) * cap;
    proof {
        assert(hc * (n + 1) <= i128::MAX) by (nonlinear_arith)
            requires hc == (2 * n * m + 1) * cap, cap * (n + 1) <= i64::MAX, n * m <= i64::MAX, n >= 0, m >= 0,
                cap >= 0;
        assert(hc >= 0) by (nonlinear_arith) requires hc == (2 * n * m + 1) * cap, n >= 0, m >= 0, cap >= 0;
    }
    let mut costs: Vec<i128> = Vec::new();
    let mut e: usize = 0;
    while e < m
        invariant
            graph.wf(),
            n == graph.node_slots().len(),
            m == 2 * graph.edge_slots().len(),
            h@.len() == n,
            e <= m,
            costs@.len() == e,
            cap >= 0,
            (n * m + 1) * cap <= i128::MAX,
            hc == (2 * n * m + 1) * cap,
            forall|f: int| #[trigger] has_arc(graph, f) ==> -cap <= arc_weight(graph, f) <= cap,
            forall|f: int| #[trigger] has_arc(graph, f) ==> h@[arc_tgt(graph, f) as int] <= h@[arc_src(graph, f) as int]
                + arc_weight(graph, f),
            forall|v: int| 0 <= v < n ==> -((n * m) * cap) <= #[trigger] h@[v] <= 0,
            forall|f: int| 0 <= f < e && #[trigger] has_arc(graph, f) ==> costs@[f] == arc_weight(graph, f) + h@[arc_src(graph, 
                f,
            ) as int] - h@[arc_tgt(graph, f) as int] && 0 <= costs@[f] <= hc,
        decreases m - e,
    {
        match arc_ends(graph, e) {
            Some((a, b)) => {
                let w = arc_weight_of(graph, e) as i128;
                assert(graph.has_node(a.0 as int) && graph.has_node(b.0 as int));
                proof {
                    assert(has_arc(graph, e as int));
                    assert((n * m) * cap + cap <= (n * m + 1) * cap) by (nonlinear_arith);
                    assert(cap + 2 * ((n * m) * cap) == (2 * n * m + 1) * cap) by (nonlinear_arith);
                }
                costs.push(w + h[a.0] - h[b.0]);
            },
            None => {
                costs.push(0);
            },
        }
        e = e + 1;
    }
    let mut out: Vec<Vec<Option<i64>>> = Vec::new();
    let mut u: usize = 0;
    while u < n
        invariant
            graph.wf(),
            n == graph.node_slots().len(),
            m == 2 * graph.edge_slots().len(),
            h@.len() == n,
            costs@.len() == m,
            u <= n,
            out@.len() == u,
            cap >= 0,
            cap * (n + 1) <= i64::MAX,
            hc >= 0,
            hc == (2 * n * m + 1) * cap,
            hc * (n + 1) <= i128::MAX,
            !has_negative_cycle(graph),
            forall|f: int| #[trigger] has_arc(graph, f) ==> -cap <= arc_weight(graph, f) <= cap,
            forall|v: int| 0 <= v < n ==> -((n * m) * cap) <= #[trigger] h@[v] <= 0,
            forall|f: int| #[trigger] has_arc(graph, f) ==> costs@[f] == arc_weight(graph, f) + h@[arc_src(graph, f) as int]
                - h@[arc_tgt(graph, f) as int] && 0 <= costs@[f] <= hc,
            forall|x: usize| (x as int) < u ==> (#[trigger] out@[x as int])@.len() == n,
            forall|x: usize, v: usize| (x as int) < u && (v as int) < n ==> {
                &&& (#[trigger] out@[x as int]@[v as int] is Some <==> reaches(graph, x, v))
                &&& out@[x as int]@[v as int] is Some ==> {
                    &&& exists|es: Seq<usize>| #[trigger] edge_walk(graph, x, es, v)
                        && walk_weight(graph, es) == out@[x as int]@[v as int]->Some_0
                    &&& forall|es: Seq<usize>| #[trigger] edge_walk(graph, x, es, v)
                        ==> walk_weight(graph, es) >= out@[x as int]@[v as int]->Some_0
                }
            },
        decreases n - u,
    {
        let found = dijkstra_costs(graph, NodeId(u), &costs, Ghost(hc));
        let d = match found {
            Ok(d) => d,
            Err(_) => {
                proof {
                    let e = choose|e: int| #[trigger] has_arc(graph, e) && reaches(graph, u, arc_src(graph, e))
                        && costs@[e] < 0;
                }
                return None;
            },
        };
        let mut row: Vec<Option<i64>> = Vec::new();
        let mut v: usize = 0;
        while v < n
            invariant
                graph.wf(),
                n == graph.node_slots().len(),
                h@.len() == n,
                d@.len() == n,
                (u as int) < n,
                v <= n,
                row@.len() == v,
                m == 2 * graph.edge_slots().len(),
                cap >= 0,
                cap * (n + 1) <= i64::MAX,
                hc >= 0,
                hc == (2 * n * m + 1) * cap,
                hc * (n + 1) <= i128::MAX,
                !has_negative_cycle(graph),
                forall|f: int| #[trigger] has_arc(graph, f) ==> -cap <= arc_weight(graph, f) <= cap,
                forall|y: int| 0 <= y < n ==> -((n * m) * cap) <= #[trigger] h@[y] <= 0,
                forall|y: int| 0 <= y < n && #[trigger] d@[y] is Some ==> 0 <= d@[y]->Some_0 <= n * hc,
                forall|f: int| #[trigger] has_arc(graph, f) ==> costs@[f] == arc_weight(graph, f) + h@[arc_src(graph, f) as int]
                    - h@[arc_tgt(graph, f) as int] && 0 <= costs@[f] <= hc,
                forall|y: usize| (y as int) < n ==> {
                    &&& (#[trigger] d@[y as int] is Some <==> reaches(graph, u, y))
                    &&& d@[y as int] is Some ==> {
                        &&& exists|es: Seq<usize>| #[trigger] edge_walk(graph, u, es, y)
                            && walk_cost(costs@, es) == d@[y as int]->Some_0
                        &&& forall|es: Seq<usize>| #[trigger] edge_walk(graph, u, es, y)
                            ==> walk_cost(costs@, es) >= d@[y as int]->Some_0
                    }
                },
                forall|y: usize| (y as int) < v ==> {
                    &&& (#[trigger] row@[y as int] is Some <==> reaches(graph, u, y))
                    &&& row@[y as int] is Some ==> {
                        &&& exists|es: Seq<usize>| #[trigger] edge_walk(graph, u, es, y)
                            && walk_weight(graph, es) == row@[y as int]->Some_0
                        &&& forall|es: Seq<usize>| #[trigger] edge_walk(graph, u, es, y)
                            ==> walk_weight(graph, es) >= row@[y as int]->Some_0
                    }
                },
            decreases n - v,
        {
            let ghost rb = row@;
            match d[v] {
                Some(x) => {
                    proof {
                        assert(d@[v as int] is Some);
                        assert(0 <= x <= n * hc);
                        assert(-((n * m) * cap) <= h@[u as int] <= 0);
                        assert(-((n * m) * cap) <= h@[v as int] <= 0);
                        assert(n * hc + (n * m) * cap <= hc * (n + 1)) by (nonlinear_arith)
                            requires hc == (2 * n * m + 1) * cap, n >= 0, m >= 0, cap >= 0;
                    }
                    let wide = x - h[u] + h[v];
                    proof {
                        let es = choose|es: Seq<usize>| #[trigger] edge_walk(graph, u, es, v)
                            && walk_cost(costs@, es) == d@[v as int]->Some_0;
                        lemma_telescope(graph, costs@, h@, u, es, v);
                        assert(reaches(graph, u, v));
                        assert(!negative_cycle_in_reach(graph, u));
                        let short = lemma_shorten(graph, u, es, v, true);
                        lemma_telescope(graph, costs@, h@, u, short, v);
                        crate::types::lemma_count_bound(graph.node_slots());
                        lemma_weight_bound(graph, u, short, v, cap);
                        assert(short.len() * cap <= n * cap) by (nonlinear_arith) requires short.len() <= n, cap >= 0;
                        assert(n * cap <= (n + 1) * cap) by (nonlinear_arith) requires cap >= 0;
                        assert(x <= walk_cost(costs@, short));
                    }
                    let val = wide as i64;
                    row.push(Some(val));
                    proof {
                        let es = choose|es: Seq<usize>| #[trigger] edge_walk(graph, u, es, v)
                            && walk_cost(costs@, es) == d@[v as int]->Some_0;
                        lemma_telescope(graph, costs@, h@, u, es, v);
                        assert forall|es2: Seq<usize>| #[trigger] edge_walk(graph, u, es2, v) implies walk_weight(graph, es2)
                            >= val by {
                            lemma_telescope(graph, costs@, h@, u, es2, v);
                        }
                    }
                },
                None => {
                    row.push(None);
                },
            }
            proof {
                assert forall|y: usize| (y as int) < v + 1 implies {
                    &&& (#[trigger] row@[y as int] is Some <==> reaches(graph, u, y))
                    &&& row@[y as int] is Some ==> {
                        &&& exists|es: Seq<usize>| #[trigger] edge_walk(graph, u, es, y)
                            && walk_weight(graph, es) == row@[y as int]->Some_0
                        &&& forall|es: Seq<usize>| #[trigger] edge_walk(graph, u, es, y)
                            ==> walk_weight(graph, es) >= row@[y as int]->Some_0
                    }
                } by {
                    if (y as int) < v {
                        assert(row@[y as int] == rb[y as int]);
                    }
                }
            }
            v = v + 1;
        }
        let ghost ob = out@;
        out.push(row);
        proof {
            assert forall|x: usize| (x as int) < u + 1 implies (#[trigger] out@[x as int])@.len() == n by {
                if (x as int) < u {
                    assert(out@[x as int] == ob[x as int]);
                }
            }
            assert forall|x: usize, y: usize| (x as int) < u + 1 && (y as int) < n implies {
                &&& (#[trigger] out@[x as int]@[y as int] is Some <==> reaches(graph, x, y))
                &&& out@[x as int]@[y as int] is Some ==> {
                    &&& exists|es: Seq<usize>| #[trigger] edge_walk(graph, x, es, y)
                        && walk_weight(graph, es) == out@[x as int]@[y as int]->Some_0
                    &&& forall|es: Seq<usize>| #[trigger] edge_walk(graph, x, es, y)
                        ==> walk_weight(graph, es) >= out@[x as int]@[y as int]->Some_0
                }
            } by {
                if (x as int) < u {
                    assert(out@[x as int] == ob[x as int]);
                }
            }
        }
        u = u + 1;
    }
    Some(out)
}

} // verus!
