//! Generators for classic graphs: complete, star, cycle, Erdős–Rényi,
//! bipartite and Barabási–Albert graphs. Node `i` carries the label `i` as a
//! `u32`; every edge carries the given weight. The random generators take
//! their coin flips, or a seed, from the caller.

use vstd::prelude::*;
use rand::distr::Bernoulli;
use rand::rngs::StdRng;
use rand::{Rng, SeedableRng};
use crate::builders::{ends, increasing, lex_lt};
use crate::error::GraphinaError;
use crate::types::{BaseGraph, GraphConstructor, NodeId, count_live, count_true, lemma_count_push, lemma_count_update};
use crate::rewiring::{
    find_first, first_free, lemma_first_free_is_free, lemma_put_back_keeps, lemma_ring_edge, lemma_ring_no_parallel,
    lemma_take_out_keeps, no_parallel, rewire_choice, ring_edge, ring_lattice, ws_slots, ws_step,
};

verus! {

#[verifier::external_type_specification]
#[verifier::external_body]
pub struct ExStdRng(StdRng);

#[verifier::external_type_specification]
#[verifier::external_body]
pub struct ExBernoulli(Bernoulli);

/// `Rng::sample` with a Bernoulli distribution: one biased coin flip, drawn
/// from `rng`. Nothing is claimed of the outcome.
#[verifier::external_body]
fn flip(rng: &mut StdRng, coin: &Bernoulli) -> bool {
    rng.sample(coin)
}

/// `StdRng::seed_from_u64`: a generator whose stream is fixed by `seed`.
/// Nothing is claimed of the numbers it will produce.
#[verifier::external_body]
fn seeded_rng(seed: u64) -> StdRng {
    StdRng::seed_from_u64(seed)
}

/// `Rng::random_range` on `0..hi`: a number below `hi`, which one depends on
/// the generator's state. The source panics on an empty range, which the
/// `requires` rules out.
#[verifier::external_body]
fn random_below(rng: &mut StdRng, hi: usize) -> (r: usize)
    requires
        hi > 0,
    ensures
        r < hi,
{
    rng.random_range(0..hi)
}

/// Node `i` exists and carries the label `i`, for each `i < n`, and there are
/// no other node slots.
pub open spec fn labelled<W, Ty: GraphConstructor>(g: BaseGraph<u32, W, Ty>, n: nat) -> bool {
    &&& g.node_slots().len() == n
    &&& forall|i: int| 0 <= i < n ==> #[trigger] g.node_slots()[i] == Some(i as u32)
}

/// Every edge slot is live and carries the weight `w`.
pub open spec fn weighted<W>(slots: Seq<Option<(usize, usize, W)>>, w: W) -> bool {
    forall|k: int| 0 <= k < slots.len() ==> (#[trigger] slots[k]) is Some && slots[k].unwrap().2 == w
}

/// The ordered pairs of distinct nodes (directed graphs) or the pairs `u < v`
/// (undirected graphs).
pub open spec fn candidate(directed: bool, u: int, v: int) -> bool {
    if directed { u != v } else { u < v }
}

/// The number of candidate pairs among `n` nodes.
pub open spec fn pair_count(n: int, directed: bool) -> int {
    if directed { n * (n - 1) } else { n * (n - 1) / 2 }
}

/// The position of the candidate pair `(u, v)` when the candidate pairs among
/// `n` nodes are listed in increasing `(u, v)` order.
pub open spec fn pair_index(n: int, directed: bool, u: int, v: int) -> int {
    if directed {
        u * (n - 1) + if v < u { v } else { v - 1 }
    } else {
        u * (2 * n - 1 - u) / 2 + (v - u - 1)
    }
}

/// The undirected rows before row `i` hold an even number of half-pairs.
proof fn lemma_row_even(n: int, i: int)
    requires
        0 <= i,
    ensures
        (i * (2 * n - 1 - i)) % 2 == 0,
    decreases i,
{
    if i > 0 {
        lemma_row_even(n, i - 1);
        let a = (i - 1) * (2 * n - 1 - (i - 1));
        let b = i * (2 * n - 1 - i);
        assert(b == a + 2 * (n - i)) by (nonlinear_arith)
            requires a == (i - 1) * (2 * n - 1 - (i - 1)), b == i * (2 * n - 1 - i);
        assert(a % 2 == 0);
        assert(b % 2 == 0);
    } else {
        assert(i * (2 * n - 1 - i) == 0) by (nonlinear_arith) requires i == 0;
    }
}

/// The message for a generator asked for no nodes.
pub open spec fn no_nodes_message() -> Seq<char> {
    "Number of nodes must be greater than zero."@
}

/// Adds nodes `0..n`, labelled by their index, to an empty graph.
fn add_labelled_nodes<W, Ty: GraphConstructor>(graph: &mut BaseGraph<u32, W, Ty>, n: usize)
    requires
        old(graph).wf(),
        old(graph).node_slots().len() == 0,
        old(graph).edge_slots().len() == 0,
    ensures
        final(graph).wf(),
        labelled(*final(graph), n as nat),
        final(graph).edge_slots().len() == 0,
{
    let mut i: usize = 0;
    while i < n
        invariant
            i <= n,
            graph.wf(),
            graph.node_slots().len() == i,
            forall|t: int| 0 <= t < i ==> #[trigger] graph.node_slots()[t] == Some(t as u32),
            graph.edge_slots().len() == 0,
        decreases n - i,
    {
        graph.add_node(i as u32);
        i = i + 1;
    }
}

/// Generates a complete graph on `n` nodes: every candidate pair is joined
/// once, in increasing order (both orientations of each pair for directed
/// graphs, one edge `u < v` for undirected ones).
pub fn complete_graph<Ty: GraphConstructor, W: Copy>(n: usize, weight: W)
    -> (r: Result<BaseGraph<u32, W, Ty>, GraphinaError>)
    requires
        n * n < usize::MAX / 2,
    ensures
        r is Err <==> n == 0,
        r is Err ==> r->Err_0 is InvalidArgument && r->Err_0->InvalidArgument_0@ == no_nodes_message(),
        r is Ok ==> {
            let g = r->Ok_0;
            &&& g.wf()
            &&& labelled(g, n as nat)
            &&& weighted(g.edge_slots(), weight)
            &&& g.edge_slots().len() == pair_count(n as int, Ty::spec_is_directed())
            &&& forall|k: int| 0 <= k < g.edge_slots().len() ==> ends(#[trigger] g.edge_slots()[k]).0 < n
                && ends(g.edge_slots()[k]).1 < n
                && candidate(Ty::spec_is_directed(), ends(g.edge_slots()[k]).0 as int, ends(g.edge_slots()[k]).1 as int)
            &&& increasing(g.edge_slots())
        },
{
    if n == 0 {
        return Err(GraphinaError::InvalidArgument(String::from_str("Number of nodes must be greater than zero.")));
    }
    let mut graph = BaseGraph::<u32, W, Ty>::new();
    add_labelled_nodes(&mut graph, n);
    let directed = Ty::is_directed();
    let ghost d = directed;
    let mut i: usize = 0;
    while i < n
        invariant
            i <= n,
            n * n < usize::MAX / 2,
            d == Ty::spec_is_directed(),
            directed == d,
            graph.wf(),
            labelled(graph, n as nat),
            weighted(graph.edge_slots(), weight),
            if d {
                graph.edge_slots().len() == i * (n - 1)
            } else {
                2 * graph.edge_slots().len() == i * (2 * n - 1 - i)
            },
            forall|k: int| 0 <= k < graph.edge_slots().len() ==> ends(#[trigger] graph.edge_slots()[k]).0 < i
                && ends(graph.edge_slots()[k]).1 < n
                && candidate(d, ends(graph.edge_slots()[k]).0 as int, ends(graph.edge_slots()[k]).1 as int),
            increasing(graph.edge_slots()),
        decreases n - i,
    {
        let mut j: usize = if directed { 0 } else { i + 1 };
        while j < n
            invariant
                i < n,
                n * n < usize::MAX / 2,
                d == Ty::spec_is_directed(),
                directed == d,
                (if d { 0 } else { i + 1 }) <= j <= n,
                graph.wf(),
                labelled(graph, n as nat),
                weighted(graph.edge_slots(), weight),
                if d {
                    graph.edge_slots().len() == i * (n - 1) + j - (if j > i { 1int } else { 0 })
                } else {
                    2 * graph.edge_slots().len() == i * (2 * n - 1 - i) + 2 * (j - i - 1)
                },
                forall|k: int| 0 <= k < graph.edge_slots().len() ==> (ends(#[trigger] graph.edge_slots()[k]).0 < i
                    || (ends(graph.edge_slots()[k]).0 == i && ends(graph.edge_slots()[k]).1 < j))
                    && ends(graph.edge_slots()[k]).1 < n
                    && candidate(d, ends(graph.edge_slots()[k]).0 as int, ends(graph.edge_slots()[k]).1 as int),
                increasing(graph.edge_slots()),
            decreases n - j,
        {
            if i != j {
                proof {
                    assert(graph.has_node(i as int) && graph.has_node(j as int)) by {
                        assert(graph.node_slots()[i as int] == Some(i as u32));
                        assert(graph.node_slots()[j as int] == Some(j as u32));
                    }
                    let len = graph.edge_slots().len() as int;
                    assert(len < n * n) by (nonlinear_arith)
                        requires
                            i < n, j < n, n > 0,
                            d ==> len == i * (n - 1) + j - (if j > i { 1int } else { 0 }),
                            !d ==> 2 * len == i * (2 * n - 1 - i) + 2 * (j - i - 1);
                }
                let ghost before = graph.edge_slots();
                graph.add_edge(NodeId(i), NodeId(j), weight);
                proof {
                    let es = graph.edge_slots();
                    assert forall|x: int, y: int| 0 <= x < y < es.len()
                        implies lex_lt(ends(#[trigger] es[x]), ends(#[trigger] es[y])) by {
                        assert(es[x] == before[x]);
                        if y < before.len() {
                            assert(es[y] == before[y]);
                        }
                    }
                    assert forall|k: int| 0 <= k < es.len() implies (#[trigger] es[k]) is Some
                        && es[k].unwrap().2 == weight by {
                        if k < before.len() {
                            assert(es[k] == before[k]);
                        }
                    }
                }
            }
            j = j + 1;
        }
        proof {
            let t = i as int;
            let nn = n as int;
            assert(t * (nn - 1) + (nn - 1) == (t + 1) * (nn - 1)) by (nonlinear_arith);
            assert(t * (2 * nn - 1 - t) + 2 * (nn - t - 1) == (t + 1) * (2 * nn - 1 - (t + 1)))
                by (nonlinear_arith);
        }
        i = i + 1;
    }
    proof {
        let nn = n as int;
        let len = graph.edge_slots().len() as int;
        if !d {
            assert(nn * (2 * nn - 1 - nn) == nn * (nn - 1)) by (nonlinear_arith);
            assert(len == nn * (nn - 1) / 2) by (nonlinear_arith)
                requires 2 * len == nn * (nn - 1);
        }
    }
    Ok(graph)
}

/// Generates a star graph on `n` nodes: node 0 is the centre and edge `k`
/// joins it to node `k + 1`.
pub fn star_graph<Ty: GraphConstructor, W: Copy>(n: usize, weight: W)
    -> (r: Result<BaseGraph<u32, W, Ty>, GraphinaError>)
    requires
        n < usize::MAX / 2,
    ensures
        r is Err <==> n == 0,
        r is Err ==> r->Err_0 is InvalidArgument
            && r->Err_0->InvalidArgument_0@ == "Star graph must have at least one node."@,
        r is Ok ==> {
            let g = r->Ok_0;
            &&& g.wf()
            &&& labelled(g, n as nat)
            &&& weighted(g.edge_slots(), weight)
            &&& g.edge_slots().len() == n - 1
            &&& forall|k: int| 0 <= k < g.edge_slots().len() ==> ends(#[trigger] g.edge_slots()[k]) == (0usize, (k + 1) as usize)
        },
{
    let mut graph = BaseGraph::<u32, W, Ty>::new();
    if n == 0 {
        return Err(GraphinaError::InvalidArgument(String::from_str("Star graph must have at least one node.")));
    }
    let center = graph.add_node(0);
    let mut i: usize = 1;
    while i < n
        invariant
            1 <= i <= n,
            n < usize::MAX / 2,
            center.0 == 0,
            graph.wf(),
            labelled(graph, i as nat),
            weighted(graph.edge_slots(), weight),
            graph.edge_slots().len() == i - 1,
            forall|k: int| 0 <= k < graph.edge_slots().len() ==> ends(#[trigger] graph.edge_slots()[k]) == (0usize, (k + 1) as usize),
        decreases n - i,
    {
        let ghost before = graph.edge_slots();
        let node = graph.add_node(i as u32);
        proof {
            assert(graph.node_slots()[0] == Some(0u32));
        }
        graph.add_edge(center, node, weight);
        proof {
            let es = graph.edge_slots();
            assert forall|k: int| 0 <= k < es.len() implies (#[trigger] es[k]) is Some && es[k].unwrap().2 == weight
                && ends(es[k]) == (0usize, (k + 1) as usize) by {
                if k < before.len() {
                    assert(es[k] == before[k]);
                }
            }
        }
        i = i + 1;
    }
    Ok(graph)
}

/// Generates a cycle graph on `n` nodes: edge `k` joins node `k` to node
/// `(k + 1) % n`.
pub fn cycle_graph<Ty: GraphConstructor, W: Copy>(n: usize, weight: W)
    -> (r: Result<BaseGraph<u32, W, Ty>, GraphinaError>)
    requires
        n < usize::MAX / 2,
    ensures
        r is Err <==> n < 3,
        r is Err ==> r->Err_0 is InvalidArgument
            && r->Err_0->InvalidArgument_0@ == "Cycle graph must have at least three nodes."@,
        r is Ok ==> {
            let g = r->Ok_0;
            &&& g.wf()
            &&& labelled(g, n as nat)
            &&& weighted(g.edge_slots(), weight)
            &&& g.edge_slots().len() == n
            &&& forall|k: int| 0 <= k < n ==> ends(#[trigger] g.edge_slots()[k]) == (k as usize, ((k + 1) % (n as int)) as usize)
        },
{
    if n < 3 {
        return Err(GraphinaError::InvalidArgument(String::from_str("Cycle graph must have at least three nodes.")));
    }
    let mut graph = BaseGraph::<u32, W, Ty>::new();
    add_labelled_nodes(&mut graph, n);
    let mut i: usize = 0;
    while i < n
        invariant
            i <= n,
            n < usize::MAX / 2,
            graph.wf(),
            labelled(graph, n as nat),
            weighted(graph.edge_slots(), weight),
            graph.edge_slots().len() == i,
            forall|k: int| 0 <= k < i ==> ends(#[trigger] graph.edge_slots()[k]) == (k as usize, ((k + 1) % (n as int)) as usize),
        decreases n - i,
    {
        let j = (i + 1) % n;
        proof {
            assert(graph.node_slots()[i as int] == Some(i as u32));
            assert(graph.node_slots()[j as int] == Some(j as u32));
        }
        let ghost before = graph.edge_slots();
        graph.add_edge(NodeId(i), NodeId(j), weight);
        proof {
            let es = graph.edge_slots();
            assert forall|k: int| 0 <= k < es.len() implies (#[trigger] es[k]) is Some && es[k].unwrap().2 == weight
                && ends(es[k]) == (k as usize, ((k + 1) % (n as int)) as usize) by {
                if k < before.len() {
                    assert(es[k] == before[k]);
                }
            }
        }
        i = i + 1;
    }
    Ok(graph)
}

/// `count_true` of a prefix grows by the next entry.
proof fn lemma_count_true_take(s: Seq<bool>, t: int)
    requires
        0 <= t < s.len(),
    ensures
        count_true(s.take(t + 1)) == count_true(s.take(t)) + if s[t] { 1nat } else { 0nat },
{
    assert(s.take(t + 1).drop_last() =~= s.take(t));
}

/// `g` is the Erdős–Rényi graph on `n` nodes for the coin flips `coins`:
/// node `i` is labelled `i`, and the candidate pairs, in increasing order,
/// are joined (by an edge of weight `weight`) exactly where the coin at the
/// pair's position came up true.
pub open spec fn erdos_renyi_shape<Ty: GraphConstructor, W>(g: BaseGraph<u32, W, Ty>, n: nat, coins: Seq<bool>, weight: W) -> bool {
    &&& g.wf()
    &&& labelled(g, n)
    &&& weighted(g.edge_slots(), weight)
    &&& g.edge_slots().len() == count_true(coins)
    &&& forall|k: int| 0 <= k < g.edge_slots().len() ==> ends(#[trigger] g.edge_slots()[k]).0 < n
        && ends(g.edge_slots()[k]).1 < n
        && candidate(Ty::spec_is_directed(), ends(g.edge_slots()[k]).0 as int, ends(g.edge_slots()[k]).1 as int)
        && coins[pair_index(n as int, Ty::spec_is_directed(), ends(g.edge_slots()[k]).0 as int,
            ends(g.edge_slots()[k]).1 as int)]
    &&& increasing(g.edge_slots())
}

/// Builds an Erdős–Rényi graph on `n` nodes from its coin flips: the
/// candidate pairs are visited in increasing order and the pair at position
/// `t` is joined exactly when `coins[t]` is true.
pub fn erdos_renyi_from_coins<Ty: GraphConstructor, W: Copy>(n: usize, coins: &Vec<bool>, weight: W)
    -> (r: Result<BaseGraph<u32, W, Ty>, GraphinaError>)
    requires
        n * n < usize::MAX / 2,
        coins@.len() == pair_count(n as int, Ty::spec_is_directed()),
    ensures
        r is Err <==> n == 0,
        r is Err ==> r->Err_0 is InvalidArgument && r->Err_0->InvalidArgument_0@ == no_nodes_message(),
        r is Ok ==> erdos_renyi_shape(r->Ok_0, n as nat, coins@, weight),
{
    if n == 0 {
        return Err(GraphinaError::InvalidArgument(String::from_str("Number of nodes must be greater than zero.")));
    }
    let mut graph = BaseGraph::<u32, W, Ty>::new();
    add_labelled_nodes(&mut graph, n);
    let directed = Ty::is_directed();
    let ghost d = directed;
    let ghost cs = coins@;
    let mut t: usize = 0;
    let mut i: usize = 0;
    while i < n
        invariant
            i <= n,
            n * n < usize::MAX / 2,
            d == Ty::spec_is_directed(),
            directed == d,
            cs == coins@,
            cs.len() == pair_count(n as int, d),
            graph.wf(),
            labelled(graph, n as nat),
            weighted(graph.edge_slots(), weight),
            if d { t == i * (n - 1) } else { 2 * t == i * (2 * n - 1 - i) },
            graph.edge_slots().len() == count_true(cs.take(t as int)),
            forall|k: int| 0 <= k < graph.edge_slots().len() ==> ends(#[trigger] graph.edge_slots()[k]).0 < i
                && ends(graph.edge_slots()[k]).1 < n
                && candidate(d, ends(graph.edge_slots()[k]).0 as int, ends(graph.edge_slots()[k]).1 as int)
                && cs[pair_index(n as int, d, ends(graph.edge_slots()[k]).0 as int, ends(graph.edge_slots()[k]).1 as int)],
            increasing(graph.edge_slots()),
        decreases n - i,
    {
        let mut j: usize = if directed { 0 } else { i + 1 };
        while j < n
            invariant
                i < n,
                n * n < usize::MAX / 2,
                d == Ty::spec_is_directed(),
                directed == d,
                cs == coins@,
                cs.len() == pair_count(n as int, d),
                (if d { 0 } else { i + 1 }) <= j <= n,
                graph.wf(),
                labelled(graph, n as nat),
                weighted(graph.edge_slots(), weight),
                if d {
                    t == i * (n - 1) + j - (if j > i { 1int } else { 0 })
                } else {
                    2 * t == i * (2 * n - 1 - i) + 2 * (j - i - 1)
                },
                graph.edge_slots().len() == count_true(cs.take(t as int)),
                forall|k: int| 0 <= k < graph.edge_slots().len() ==> (ends(#[trigger] graph.edge_slots()[k]).0 < i
                    || (ends(graph.edge_slots()[k]).0 == i && ends(graph.edge_slots()[k]).1 < j))
                    && ends(graph.edge_slots()[k]).1 < n
                    && candidate(d, ends(graph.edge_slots()[k]).0 as int, ends(graph.edge_slots()[k]).1 as int)
                    && cs[pair_index(n as int, d, ends(graph.edge_slots()[k]).0 as int, ends(graph.edge_slots()[k]).1 as int)],
                increasing(graph.edge_slots()),
            decreases n - j,
        {
            if i != j {
                proof {
                    let ii = i as int;
                    let jj = j as int;
                    let nn = n as int;
                    lemma_row_even(nn, ii);
                    lemma_row_even(nn, nn);
                    assert(t as int == pair_index(nn, d, ii, jj));
                    if d {
                        assert(ii * (nn - 1) <= (nn - 1) * (nn - 1)) by (nonlinear_arith)
                            requires 0 <= ii <= nn - 1;
                        assert(ii * (nn - 1) + ii == ii * nn) by (nonlinear_arith);
                        assert(ii * nn <= (nn - 1) * nn) by (nonlinear_arith)
                            requires 0 <= ii <= nn - 1;
                        assert((nn - 1) * (nn - 1) + nn - 1 == nn * (nn - 1)) by (nonlinear_arith);
                        assert((nn - 1) * nn == nn * (nn - 1)) by (nonlinear_arith);
                    } else {
                        assert(ii * (2 * nn - 1 - ii) + 2 * (jj - ii - 1) < nn * (2 * nn - 1 - nn)) by (nonlinear_arith)
                            requires ii < jj < nn;
                        assert(nn * (2 * nn - 1 - nn) == nn * (nn - 1)) by (nonlinear_arith);
                    }
                    assert(t < cs.len());
                    assert(nn * (nn - 1) <= nn * nn) by (nonlinear_arith) requires nn >= 1;
                    assert(cs.len() <= nn * nn);
                    lemma_count_true_take(cs, t as int);
                }
                if coins[t] {
                    proof {
                        assert(graph.node_slots()[i as int] == Some(i as u32));
                        assert(graph.node_slots()[j as int] == Some(j as u32));
                        crate::types::lemma_count_true_bound(cs.take(t as int));
                    }
                    let ghost before = graph.edge_slots();
                    graph.add_edge(NodeId(i), NodeId(j), weight);
                    proof {
                        let es = graph.edge_slots();
                        assert forall|x: int, y: int| 0 <= x < y < es.len()
                            implies lex_lt(ends(#[trigger] es[x]), ends(#[trigger] es[y])) by {
                            assert(es[x] == before[x]);
                            if y < before.len() {
                                assert(es[y] == before[y]);
                            }
                        }
                        assert forall|k: int| 0 <= k < es.len() implies (#[trigger] es[k]) is Some
                            && es[k].unwrap().2 == weight by {
                            if k < before.len() {
                                assert(es[k] == before[k]);
                            }
                        }
                    }
                }
                t = t + 1;
            }
            j = j + 1;
        }
        proof {
            let ii = i as int;
            let nn = n as int;
            assert(ii * (nn - 1) + (nn - 1) == (ii + 1) * (nn - 1)) by (nonlinear_arith);
            assert(ii * (2 * nn - 1 - ii) + 2 * (nn - ii - 1) == (ii + 1) * (2 * nn - 1 - (ii + 1)))
                by (nonlinear_arith);
        }
        i = i + 1;
    }
    proof {
        let nn = n as int;
        assert(nn * (2 * nn - 1 - nn) == nn * (nn - 1)) by (nonlinear_arith);
        assert(cs.take(t as int) =~= cs);
    }
    Ok(graph)
}

/// `g` is the random bipartite graph with parts `0..n1` and `n1..n1 + n2`
/// for the coin flips `coins`: the pairs `(u, v)`, `u` in the first part and
/// `v` in the second, in increasing order, are joined exactly where the coin
/// at the pair's position came up true.
pub open spec fn bipartite_shape<Ty: GraphConstructor, W>(g: BaseGraph<u32, W, Ty>, n1: nat, n2: nat, coins: Seq<bool>, weight: W) -> bool {
    &&& g.wf()
    &&& labelled(g, n1 + n2)
    &&& weighted(g.edge_slots(), weight)
    &&& g.edge_slots().len() == count_true(coins)
    &&& forall|k: int| 0 <= k < g.edge_slots().len() ==> ends(#[trigger] g.edge_slots()[k]).0 < n1
        && n1 <= ends(g.edge_slots()[k]).1 < n1 + n2
        && coins[ends(g.edge_slots()[k]).0 * n2 + (ends(g.edge_slots()[k]).1 - n1)]
    &&& increasing(g.edge_slots())
}

/// Builds a bipartite graph from its coin flips: nodes `0..n1` form the first
/// part and `n1..n1 + n2` the second; the pair `(u, n1 + v)` is joined exactly
/// when `coins[u * n2 + v]` is true, pairs visited in increasing order.
pub fn bipartite_from_coins<Ty: GraphConstructor, W: Copy>(n1: usize, n2: usize, coins: &Vec<bool>, weight: W)
    -> (r: Result<BaseGraph<u32, W, Ty>, GraphinaError>)
    requires
        n1 + n2 < usize::MAX / 2,
        n1 * n2 < usize::MAX / 2,
        coins@.len() == n1 * n2,
    ensures
        r is Err <==> n1 == 0 || n2 == 0,
        r is Err ==> r->Err_0 is InvalidArgument
            && r->Err_0->InvalidArgument_0@ == "Both partitions must have at least one node."@,
        r is Ok ==> bipartite_shape(r->Ok_0, n1 as nat, n2 as nat, coins@, weight),
{
    if n1 == 0 || n2 == 0 {
        return Err(GraphinaError::InvalidArgument(String::from_str("Both partitions must have at least one node.")));
    }
    let mut graph = BaseGraph::<u32, W, Ty>::new();
    add_labelled_nodes(&mut graph, n1 + n2);
    let ghost cs = coins@;
    let mut t: usize = 0;
    let mut u: usize = 0;
    while u < n1
        invariant
            u <= n1,
            n1 + n2 < usize::MAX / 2,
            n1 * n2 < usize::MAX / 2,
            cs == coins@,
            cs.len() == n1 * n2,
            graph.wf(),
            labelled(graph, (n1 + n2) as nat),
            weighted(graph.edge_slots(), weight),
            t == u * n2,
            graph.edge_slots().len() == count_true(cs.take(t as int)),
            forall|k: int| 0 <= k < graph.edge_slots().len() ==> ends(#[trigger] graph.edge_slots()[k]).0 < u
                && n1 <= ends(graph.edge_slots()[k]).1 < n1 + n2
                && cs[ends(graph.edge_slots()[k]).0 * n2 + (ends(graph.edge_slots()[k]).1 - n1)],
            increasing(graph.edge_slots()),
        decreases n1 - u,
    {
        assert((u + 1) * n2 <= n1 * n2) by (nonlinear_arith) requires u < n1;
        let mut v: usize = 0;
        while v < n2
            invariant
                u < n1,
                v <= n2,
                n1 + n2 < usize::MAX / 2,
                n1 * n2 < usize::MAX / 2,
                (u + 1) * n2 <= n1 * n2,
                cs == coins@,
                cs.len() == n1 * n2,
                graph.wf(),
                labelled(graph, (n1 + n2) as nat),
                weighted(graph.edge_slots(), weight),
                t == u * n2 + v,
                graph.edge_slots().len() == count_true(cs.take(t as int)),
                forall|k: int| 0 <= k < graph.edge_slots().len() ==> (ends(#[trigger] graph.edge_slots()[k]).0 < u
                    || (ends(graph.edge_slots()[k]).0 == u && ends(graph.edge_slots()[k]).1 < n1 + v))
                    && n1 <= ends(graph.edge_slots()[k]).1 < n1 + n2
                    && cs[ends(graph.edge_slots()[k]).0 * n2 + (ends(graph.edge_slots()[k]).1 - n1)],
                increasing(graph.edge_slots()),
            decreases n2 - v,
        {
            assert((u + 1) * n2 == u * n2 + n2) by (nonlinear_arith);
            proof {
                lemma_count_true_take(cs, t as int);
                crate::types::lemma_count_true_bound(cs.take(t as int));
            }
            if coins[t] {
                proof {
                    assert(graph.node_slots()[u as int] == Some(u as u32));
                    assert(graph.node_slots()[(n1 + v) as int] == Some((n1 + v) as u32));
                }
                let ghost before = graph.edge_slots();
                graph.add_edge(NodeId(u), NodeId(n1 + v), weight);
                proof {
                    let es = graph.edge_slots();
                    assert forall|x: int, y: int| 0 <= x < y < es.len()
                        implies lex_lt(ends(#[trigger] es[x]), ends(#[trigger] es[y])) by {
                        assert(es[x] == before[x]);
                        if y < before.len() {
                            assert(es[y] == before[y]);
                        }
                    }
                    assert forall|k: int| 0 <= k < es.len() implies (#[trigger] es[k]) is Some
                        && es[k].unwrap().2 == weight by {
                        if k < before.len() {
                            assert(es[k] == before[k]);
                        }
                    }
                }
            }
            t = t + 1;
            v = v + 1;
        }
        assert((u + 1) * n2 == u * n2 + n2) by (nonlinear_arith);
        u = u + 1;
    }
    proof {
        assert(cs.take(t as int) =~= cs);
    }
    Ok(graph)
}

/// Sum of a sequence of counts.
pub open spec fn total(s: Seq<usize>) -> int
    decreases s.len(),
{
    if s.len() == 0 { 0 } else { total(s.drop_last()) + s.last() }
}

/// `total` of a prefix grows by the next entry and never exceeds the whole.
proof fn lemma_total_take(s: Seq<usize>, k: int)
    requires
        0 <= k < s.len(),
    ensures
        total(s.take(k + 1)) == total(s.take(k)) + s[k],
        total(s.take(k + 1)) <= total(s),
    decreases s.len() - k,
{
    assert(s.take(k + 1).drop_last() =~= s.take(k));
    if k + 1 < s.len() {
        lemma_total_take(s, k + 1);
    } else {
        assert(s.take(k + 1) =~= s);
    }
}

/// Each entry is at most the `total`.
proof fn lemma_total_entry(s: Seq<usize>, k: int)
    requires
        0 <= k < s.len(),
    ensures
        s[k] <= total(s),
        total(s) >= 0,
    decreases s.len(),
{
    lemma_total_nonneg(s.drop_last());
    if k < s.len() - 1 {
        lemma_total_entry(s.drop_last(), k);
    }
}

/// `total` is never negative.
proof fn lemma_total_nonneg(s: Seq<usize>)
    ensures
        total(s) >= 0,
    decreases s.len(),
{
    if s.len() > 0 {
        lemma_total_nonneg(s.drop_last());
    }
}

/// Raising one entry by one raises the `total` by one.
proof fn lemma_total_bump(s: Seq<usize>, k: int)
    requires
        0 <= k < s.len(),
        s[k] < usize::MAX,
    ensures
        total(s.update(k, (s[k] + 1) as usize)) == total(s) + 1,
    decreases s.len(),
{
    let t = s.update(k, (s[k] + 1) as usize);
    if k == s.len() - 1 {
        assert(t.drop_last() =~= s.drop_last());
    } else {
        assert(t.drop_last() =~= s.drop_last().update(k, (s[k] + 1) as usize));
        lemma_total_bump(s.drop_last(), k);
    }
}

/// `total` after appending an entry.
proof fn lemma_total_push(s: Seq<usize>, x: usize)
    ensures
        total(s.push(x)) == total(s) + x,
{
    assert(s.push(x).drop_last() =~= s);
}

/// A sequence without repeats that holds every number below `k` has at least
/// `k` entries.
proof fn lemma_holds_all_below(s: Seq<usize>, k: usize)
    requires
        s.no_duplicates(),
        forall|x: usize| x < k ==> #[trigger] s.contains(x),
    ensures
        s.len() >= k,
    decreases k,
{
    if k > 0 {
        let last = (k - 1) as usize;
        assert(last < k);
        assert(s.contains(last));
        let p = choose|p: int| 0 <= p < s.len() && s[p] == last;
        let r = s.subrange(0, p) + s.subrange(p + 1, s.len() as int);
        assert forall|x: usize| x < k - 1 implies r.contains(x) by {
            assert(x < k);
            assert(s.contains(x));
            let q = choose|q: int| 0 <= q < s.len() && s[q] == x;
            assert(x != last);
            assert(q != p);
            if q < p {
                assert(r[q] == x);
            } else {
                assert(r[q - 1] == x);
            }
        }
        assert forall|a: int, b: int| 0 <= a < r.len() && 0 <= b < r.len() && a != b implies r[a] != r[b] by {
            let a2 = if a < p { a } else { a + 1 };
            let b2 = if b < p { b } else { b + 1 };
            assert(r[a] == s[a2]);
            assert(r[b] == s[b2]);
        }
        lemma_holds_all_below(r, last);
    }
}

/// Whether `v` holds `x`.
fn holds(v: &Vec<usize>, x: usize) -> (b: bool)
    ensures
        b == v@.contains(x),
{
    let mut k: usize = 0;
    while k < v.len()
        invariant
            k <= v@.len(),
            forall|p: int| 0 <= p < k ==> v@[p] != x,
        decreases v@.len() - k,
    {
        if v[k] == x {
            return true;
        }
        k = k + 1;
    }
    false
}

/// Number of edges of the seed clique on the first `m` nodes.
pub open spec fn seed_edges(m: int) -> int {
    m * (m - 1) / 2
}

/// Position of the `t`-th attachment edge of node `i` (for `m <= i`).
pub open spec fn attach_slot(m: int, i: int, t: int) -> int {
    seed_edges(m) + (i - m) * m + t
}

/// Adds the edges of a clique on the first `m` nodes, pairs `u < v` in
/// increasing order.
fn add_seed_clique<W: Copy, Ty: GraphConstructor>(graph: &mut BaseGraph<u32, W, Ty>, m: usize, weight: W)
    requires
        old(graph).wf(),
        old(graph).edge_slots().len() == 0,
        old(graph).node_slots().len() == m,
        forall|t: int| 0 <= t < m ==> (#[trigger] old(graph).node_slots()[t]) is Some,
        m * (m - 1) <= usize::MAX,
    ensures
        final(graph).wf(),
        final(graph).node_slots() == old(graph).node_slots(),
        final(graph).edge_slots().len() == seed_edges(m as int),
        weighted(final(graph).edge_slots(), weight),
        forall|k: int| 0 <= k < final(graph).edge_slots().len()
            ==> ends(#[trigger] final(graph).edge_slots()[k]).0 < ends(final(graph).edge_slots()[k]).1 < m,
        increasing(final(graph).edge_slots()),
{
    let ghost ns = graph.node_slots();
    let mut i: usize = 0;
    while i < m
        invariant
            i <= m,
            m * (m - 1) <= usize::MAX,
            graph.wf(),
            graph.node_slots() == ns,
            ns.len() == m,
            forall|t: int| 0 <= t < m ==> (#[trigger] ns[t]) is Some,
            weighted(graph.edge_slots(), weight),
            2 * graph.edge_slots().len() == i * (2 * m - 1 - i),
            forall|k: int| 0 <= k < graph.edge_slots().len() ==> ends(#[trigger] graph.edge_slots()[k]).0 < i
                && ends(graph.edge_slots()[k]).0 < ends(graph.edge_slots()[k]).1 < m,
            increasing(graph.edge_slots()),
        decreases m - i,
    {
        let mut j: usize = i + 1;
        while j < m
            invariant
                i < m,
                i + 1 <= j <= m,
                m * (m - 1) <= usize::MAX,
                graph.wf(),
                graph.node_slots() == ns,
                ns.len() == m,
                forall|t: int| 0 <= t < m ==> (#[trigger] ns[t]) is Some,
                weighted(graph.edge_slots(), weight),
                2 * graph.edge_slots().len() == i * (2 * m - 1 - i) + 2 * (j - i - 1),
                forall|k: int| 0 <= k < graph.edge_slots().len() ==> (ends(#[trigger] graph.edge_slots()[k]).0 < i
                    || (ends(graph.edge_slots()[k]).0 == i && ends(graph.edge_slots()[k]).1 < j))
                    && ends(graph.edge_slots()[k]).0 < ends(graph.edge_slots()[k]).1 < m,
                increasing(graph.edge_slots()),
            decreases m - j,
        {
            proof {
                assert(ns[i as int] is Some && ns[j as int] is Some);
                let len = graph.edge_slots().len() as int;
                assert(2 * len + 2 <= m * (m - 1)) by (nonlinear_arith)
                    requires i < j < m, 2 * len == i * (2 * m - 1 - i) + 2 * (j - i - 1);
            }
            let ghost before = graph.edge_slots();
            graph.add_edge(NodeId(i), NodeId(j), weight);
            proof {
                let es = graph.edge_slots();
                assert forall|x: int, y: int| 0 <= x < y < es.len()
                    implies lex_lt(ends(#[trigger] es[x]), ends(#[trigger] es[y])) by {
                    assert(es[x] == before[x]);
                    if y < before.len() {
                        assert(es[y] == before[y]);
                    }
                }
                assert forall|k: int| 0 <= k < es.len() implies (#[trigger] es[k]) is Some
                    && es[k].unwrap().2 == weight by {
                    if k < before.len() {
                        assert(es[k] == before[k]);
                    }
                }
            }
            j = j + 1;
        }
        assert(i * (2 * m - 1 - i) + 2 * (m - i - 1) == (i + 1) * (2 * m - 1 - (i + 1))) by (nonlinear_arith);
        i = i + 1;
    }
    proof {
        let mm = m as int;
        let len = graph.edge_slots().len() as int;
        assert(mm * (2 * mm - 1 - mm) == mm * (mm - 1)) by (nonlinear_arith);
        assert(len == mm * (mm - 1) / 2) by (nonlinear_arith)
            requires 2 * len == mm * (mm - 1);
    }
}

/// Distinct node indices, all below `i`.
pub open spec fn distinct_below(s: Seq<usize>, i: usize) -> bool {
    &&& s.no_duplicates()
    &&& forall|k: int| 0 <= k < s.len() ==> #[trigger] s[k] < i
}

/// Appending a value not yet held keeps `distinct_below`.
proof fn lemma_push_distinct(s: Seq<usize>, x: usize, i: usize)
    requires
        distinct_below(s, i),
        !s.contains(x),
        x < i,
    ensures
        distinct_below(s.push(x), i),
{
    let t = s.push(x);
    assert forall|a: int, b: int| 0 <= a < t.len() && 0 <= b < t.len() && a != b implies t[a] != t[b] by {
        if a < s.len() && b < s.len() {
            assert(t[a] == s[a] && t[b] == s[b]);
        } else if a < s.len() {
            assert(t[a] == s[a]);
        } else {
            assert(t[b] == s[b]);
        }
    }
    assert forall|k: int| 0 <= k < t.len() implies #[trigger] t[k] < i by {
        if k < s.len() {
            assert(t[k] == s[k]);
        }
    }
}

/// The node a draw `r` lands on: the first position `c >= from` at which the
/// running sum of `degrees` exceeds `r` (the length when there is none).
pub open spec fn landing(degrees: Seq<usize>, r: int, from: int) -> int
    decreases degrees.len() - from,
{
    if from < 0 || from >= degrees.len() {
        degrees.len() as int
    } else if r < total(degrees.take(from + 1)) {
        from
    } else {
        landing(degrees, r, from + 1)
    }
}

/// Takes node `c` as a target when there is room, it is an earlier node and
/// not taken yet.
pub open spec fn take_target(targets: Seq<usize>, c: int, m: int, i: int) -> Seq<usize> {
    if targets.len() < m && 0 <= c < i && !targets.contains(c as usize) { targets.push(c as usize) } else { targets }
}

/// The targets picked by the draws `draws`, in order.
pub open spec fn drawn_targets(degrees: Seq<usize>, draws: Seq<usize>, m: int, i: int) -> Seq<usize>
    decreases draws.len(),
{
    if draws.len() == 0 {
        seq![]
    } else {
        take_target(drawn_targets(degrees, draws.drop_last(), m, i), landing(degrees, draws.last() as int, 0), m, i)
    }
}

/// `targets` topped up with the nodes below `x`, in index order, while there
/// is room.
pub open spec fn topped_up(targets: Seq<usize>, m: int, x: int) -> Seq<usize>
    decreases x,
{
    if x <= 0 { targets } else { take_target(topped_up(targets, m, x - 1), x - 1, m, x) }
}

/// The `m` targets of node `i` given the draws: the nodes the draws land on
/// (each once), topped up in index order.
pub open spec fn attach_targets_spec(degrees: Seq<usize>, draws: Seq<usize>, m: int, i: int) -> Seq<usize> {
    topped_up(drawn_targets(degrees, draws, m, i), m, i)
}

/// Once full, topping up changes nothing.
proof fn lemma_topped_up_full(t: Seq<usize>, m: int, x: int)
    requires
        t.len() >= m,
    ensures
        topped_up(t, m, x) == t,
    decreases x,
{
    if x > 0 {
        lemma_topped_up_full(t, m, x - 1);
    }
}

/// Where draw `r` lands.
fn land(degrees: &Vec<usize>, r: usize) -> (c: usize)
    requires
        total(degrees@) <= usize::MAX,
    ensures
        c == landing(degrees@, r as int, 0),
{
    let mut cumulative: usize = 0;
    let mut idx: usize = 0;
    proof {
        assert(degrees@.take(0) =~= Seq::<usize>::empty());
    }
    while idx < degrees.len()
        invariant
            idx <= degrees@.len(),
            total(degrees@) <= usize::MAX,
            cumulative == total(degrees@.take(idx as int)),
            landing(degrees@, r as int, 0) == landing(degrees@, r as int, idx as int),
        decreases degrees@.len() - idx,
    {
        proof {
            lemma_total_take(degrees@, idx as int);
        }
        if r < cumulative + degrees[idx] {
            return idx;
        }
        cumulative = cumulative + degrees[idx];
        idx = idx + 1;
    }
    idx
}

/// Adds node `c` to `targets` as `take_target` says.
fn take_into(targets: &mut Vec<usize>, c: usize, m: usize, i: usize)
    requires
        distinct_below(old(targets)@, i),
    ensures
        final(targets)@ == take_target(old(targets)@, c as int, m as int, i as int),
        distinct_below(final(targets)@, i),
{
    if targets.len() < m && c < i && !holds(targets, c) {
        proof {
            lemma_push_distinct(targets@, c, i);
        }
        targets.push(c);
    }
}

/// Tops `targets` up with the nodes below `i`, in index order, while there
/// is room.
fn top_up(targets: &mut Vec<usize>, m: usize, i: usize)
    requires
        distinct_below(old(targets)@, i),
        m <= i,
    ensures
        final(targets)@ == topped_up(old(targets)@, m as int, i as int),
        distinct_below(final(targets)@, i),
        final(targets)@.len() == m || old(targets)@.len() > m,
{
    let ghost t0 = targets@;
    let mut x: usize = 0;
    while x < i && targets.len() < m
        invariant
            m <= i,
            x <= i,
            distinct_below(targets@, i),
            targets@ == topped_up(t0, m as int, x as int),
            t0.len() <= m ==> targets@.len() <= m,
            targets@.len() >= t0.len(),
            forall|y: usize| y < x ==> #[trigger] targets@.contains(y) || targets@.len() >= m,
        decreases i - x,
    {
        let ghost before = targets@;
        take_into(targets, x, m, i);
        proof {
            assert(topped_up(t0, m as int, x + 1) == take_target(before, x as int, m as int, x + 1));
            assert forall|y: usize| y < x + 1 implies #[trigger] targets@.contains(y) || targets@.len() >= m by {
                if y < x && before.contains(y) {
                    let p = choose|p: int| 0 <= p < before.len() && before[p] == y;
                    assert(targets@[p] == y);
                }
                if y == x && before.len() < m && !before.contains(x) {
                    assert(targets@[before.len() as int] == y);
                }
            }
        }
        x = x + 1;
    }
    proof {
        if x < i {
            lemma_topped_up_full(targets@, m as int, i as int);
            assert forall|k: int| x <= k <= i implies topped_up(t0, m as int, k) == targets@ by {
                lemma_topped_up_step_full(t0, m as int, x as int, k);
            }
        }
        if targets@.len() < m {
            lemma_holds_all_below(targets@, i);
        }
    }
}

/// Topping up past a full point keeps the result.
proof fn lemma_topped_up_step_full(t: Seq<usize>, m: int, x: int, k: int)
    requires
        0 <= x <= k,
        topped_up(t, m, x).len() >= m,
    ensures
        topped_up(t, m, k) == topped_up(t, m, x),
    decreases k - x,
{
    if k > x {
        lemma_topped_up_step_full(t, m, x, k - 1);
    }
}

/// The `m` distinct earlier nodes that node `i` attaches to, given the
/// numbers drawn (each below the total of `degrees`): each draw lands on the
/// first node at which the running sum of degrees exceeds it and takes that
/// node unless it is already taken, until `m` are taken; then nodes not yet
/// taken are added in index order until there are `m`.
pub fn attach_targets(degrees: &Vec<usize>, draws: &Vec<usize>, i: usize, m: usize) -> (targets: Vec<usize>)
    requires
        degrees@.len() == i,
        m <= i,
        total(degrees@) <= usize::MAX,
    ensures
        targets@ == attach_targets_spec(degrees@, draws@, m as int, i as int),
        targets@.len() == m,
        distinct_below(targets@, i),
{
    let mut targets: Vec<usize> = Vec::new();
    let mut k: usize = 0;
    while k < draws.len()
        invariant
            k <= draws@.len(),
            total(degrees@) <= usize::MAX,
            targets@ == drawn_targets(degrees@, draws@.take(k as int), m as int, i as int),
            distinct_below(targets@, i),
            targets@.len() <= m,
        decreases draws@.len() - k,
    {
        let c = land(degrees, draws[k]);
        proof {
            assert(draws@.take(k as int + 1).drop_last() =~= draws@.take(k as int));
        }
        take_into(&mut targets, c, m, i);
        k = k + 1;
    }
    proof {
        assert(draws@.take(draws@.len() as int) =~= draws@);
    }
    top_up(&mut targets, m, i);
    targets
}

/// `targets` are what `attach_targets` makes of `draws`: at most `10 * n`
/// numbers, each below the total degree `total_degree`; none when that is
/// zero; and fewer than `10 * n` only when they already took `m` targets.
pub open spec fn drawn_as(degrees: Seq<usize>, draws: Seq<usize>, total_degree: int, m: int, i: int, n: int,
    targets: Seq<usize>) -> bool {
    &&& draws.len() <= n * 10
    &&& forall|k: int| 0 <= k < draws.len() ==> #[trigger] draws[k] < total_degree
    &&& total_degree > 0 && draws.len() < n * 10 ==> drawn_targets(degrees, draws, m, i).len() >= m
    &&& total_degree == 0 ==> draws.len() == 0
    &&& targets == attach_targets_spec(degrees, draws, m, i)
}

/// Picks the `m` distinct earlier nodes that node `i` attaches to. Each draw
/// takes a number below the total degree (at most `10 * n` draws, none when
/// no node has a degree yet, stopping once `m` are taken); the targets are
/// what `attach_targets` makes of those draws.
fn choose_targets(rng: &mut StdRng, degrees: &Vec<usize>, total_degree: usize, i: usize, m: usize, n: usize)
    -> (targets: Vec<usize>)
    requires
        degrees@.len() == i,
        total(degrees@) == total_degree,
        m <= i,
        n * 10 <= usize::MAX,
    ensures
        targets@.len() == m,
        distinct_below(targets@, i),
        exists|draws: Seq<usize>| #[trigger] drawn_as(degrees@, draws, total_degree as int, m as int, i as int, n as int,
            targets@),
{
    let mut targets: Vec<usize> = Vec::new();
    let max_attempts = n * 10;
    let mut attempts: usize = 0;
    let ghost mut draws: Seq<usize> = Seq::empty();
    if total_degree > 0 {
        while targets.len() < m && attempts < max_attempts
            invariant
                degrees@.len() == i,
                total(degrees@) == total_degree,
                total_degree > 0,
                targets@.len() <= m,
                distinct_below(targets@, i),
                attempts <= max_attempts,
                max_attempts == n * 10,
                draws.len() == attempts,
                forall|k: int| 0 <= k < draws.len() ==> #[trigger] draws[k] < total_degree,
                targets@ == drawn_targets(degrees@, draws, m as int, i as int),
            decreases max_attempts - attempts,
        {
            let r = random_below(rng, total_degree);
            let c = land(degrees, r);
            take_into(&mut targets, c, m, i);
            proof {
                let d0 = draws;
                draws = draws.push(r);
                assert(draws.drop_last() =~= d0);
            }
            attempts = attempts + 1;
        }
    }
    proof {
        assert(drawn_targets(degrees@, Seq::<usize>::empty(), m as int, i as int) =~= Seq::<usize>::empty());
        assert(targets@ == drawn_targets(degrees@, draws, m as int, i as int));
        assert(draws.len() <= n * 10);
        assert(total_degree > 0 && draws.len() < n * 10 ==> targets@.len() >= m);
    }
    top_up(&mut targets, m, i);
    proof {
        assert(targets@ == attach_targets_spec(degrees@, draws, m as int, i as int));
        assert(drawn_as(degrees@, draws, total_degree as int, m as int, i as int, n as int, targets@));
    }
    targets
}

/// Attachment slots of earlier nodes come before those of later nodes.
proof fn lemma_attach_slot_order(m: int, i: int, t: int, j: int)
    requires
        m <= i < j,
        0 <= t < m,
    ensures
        attach_slot(m, i, t) < attach_slot(m, j, 0),
{
    assert((i - m) * m + t < (j - m) * m) by (nonlinear_arith)
        requires m <= i < j, 0 <= t < m;
}

/// The edges of a Barabási–Albert graph on `n` nodes: first a clique on the
/// `m` seed nodes, in increasing order; then, for each later node `i`, `m`
/// edges from `i` to distinct earlier nodes.
pub open spec fn ba_shape<W>(slots: Seq<Option<(usize, usize, W)>>, n: int, m: int) -> bool {
    &&& slots.len() == attach_slot(m, n, 0)
    &&& forall|k: int| 0 <= k < seed_edges(m) ==> ends(#[trigger] slots[k]).0 < ends(slots[k]).1 < m
    &&& forall|x: int, y: int| 0 <= x < y < seed_edges(m) ==> lex_lt(ends(#[trigger] slots[x]), ends(#[trigger] slots[y]))
    &&& forall|i: int, t: int| m <= i < n && 0 <= t < m ==> ends(#[trigger] slots[attach_slot(m, i, t)]).0 == i
        && ends(slots[attach_slot(m, i, t)]).1 < i
    &&& forall|i: int, t1: int, t2: int| m <= i < n && 0 <= t1 < t2 < m
        ==> ends(#[trigger] slots[attach_slot(m, i, t1)]).1 != ends(#[trigger] slots[attach_slot(m, i, t2)]).1
}

/// The targets node `i` attached to, in order: the far ends of its `m`
/// attachment edges.
pub open spec fn ba_targets_at<W>(slots: Seq<Option<(usize, usize, W)>>, m: int, i: int) -> Seq<usize> {
    Seq::new(m as nat, |t: int| ends(slots[attach_slot(m, i, t)]).1)
}

/// The degrees of nodes `0 .. i` once the nodes before `i` have attached:
/// `m - 1` for each seed node, then each node's targets gain one and the
/// node itself starts at `m`.
pub open spec fn ba_degrees<W>(slots: Seq<Option<(usize, usize, W)>>, m: int, i: int) -> Seq<usize>
    decreases i - m,
{
    if i <= m {
        Seq::new(m as nat, |x: int| (m - 1) as usize)
    } else {
        let d = ba_degrees(slots, m, i - 1);
        let ts = ba_targets_at(slots, m, i - 1);
        Seq::new(d.len(), |x: int| (d[x] + if ts.contains(x as usize) { 1int } else { 0int }) as usize).push(m as usize)
    }
}

/// Each node from `m` to `i` attached to the targets that its draws give
/// (`attach_targets_spec`) under the degrees of the nodes before it.
pub open spec fn ba_drawn<W>(slots: Seq<Option<(usize, usize, W)>>, draws: Seq<Seq<usize>>, m: int, i: int, n: int)
    -> bool {
    &&& draws.len() == i - m
    &&& forall|j: int| m <= j < i ==> #[trigger] drawn_as(ba_degrees(slots, m, j), draws[j - m],
        total(ba_degrees(slots, m, j)), m, j, n, ba_targets_at(slots, m, j))
}

/// `ba_degrees` and `ba_targets_at` up to node `i` look only at the
/// attachment slots of nodes before `i`.
proof fn lemma_ba_prefix<W>(a: Seq<Option<(usize, usize, W)>>, b: Seq<Option<(usize, usize, W)>>, m: int, i: int)
    requires
        1 <= m,
        m <= i,
        attach_slot(m, i, 0) <= a.len(),
        a.len() <= b.len(),
        forall|k: int| 0 <= k < a.len() ==> a[k] == b[k],
    ensures
        ba_degrees(a, m, i) == ba_degrees(b, m, i),
        forall|j: int| m <= j < i ==> #[trigger] ba_targets_at(a, m, j) == ba_targets_at(b, m, j),
    decreases i,
{
    assert forall|j: int| m <= j < i implies #[trigger] ba_targets_at(a, m, j) == ba_targets_at(b, m, j) by {
        assert forall|t: int| 0 <= t < m implies ba_targets_at(a, m, j)[t] == ba_targets_at(b, m, j)[t] by {
            lemma_attach_slot_order(m, j, t, i);
            assert(attach_slot(m, j, t) >= 0) by (nonlinear_arith) requires m <= j, 0 <= t, 1 <= m;
        }
        assert(ba_targets_at(a, m, j) =~= ba_targets_at(b, m, j));
    }
    if i > m {
        assert(attach_slot(m, i - 1, 0) <= attach_slot(m, i, 0)) by (nonlinear_arith) requires m <= i - 1, 1 <= m;
        lemma_ba_prefix(a, b, m, i - 1);
    }
}

/// Generates a Barabási–Albert scale-free graph with the random stream fixed
/// by `seed`: a clique on `m` nodes, then each further node attaches to `m`
/// distinct earlier nodes, chosen with probability proportional to their
/// degree (see `choose_targets`).
pub fn barabasi_albert_graph<Ty: GraphConstructor, W: Copy>(n: usize, m: usize, seed: u64, weight: W)
    -> (r: Result<BaseGraph<u32, W, Ty>, GraphinaError>)
    requires
        n * 10 <= usize::MAX,
        0 < m <= n ==> m * (m - 1) + 2 * m * (n - m) <= usize::MAX,
    ensures
        r is Err <==> m == 0 || n < m,
        r is Err ==> r->Err_0 is InvalidArgument
            && r->Err_0->InvalidArgument_0@ == "n must be at least m and m must be > 0."@,
        r is Ok ==> {
            let g = r->Ok_0;
            &&& g.wf()
            &&& labelled(g, n as nat)
            &&& weighted(g.edge_slots(), weight)
            &&& ba_shape(g.edge_slots(), n as int, m as int)
            &&& exists|draws: Seq<Seq<usize>>| #[trigger] ba_drawn(g.edge_slots(), draws, m as int, n as int, n as int)
        },
{
    if m == 0 || n < m {
        return Err(GraphinaError::InvalidArgument(String::from_str("n must be at least m and m must be > 0.")));
    }
    let mut graph = BaseGraph::<u32, W, Ty>::new();
    add_labelled_nodes(&mut graph, m);
    assert(0 <= 2 * m * (n - m)) by (nonlinear_arith) requires m <= n;
    proof {
        assert forall|t: int| 0 <= t < m implies (#[trigger] graph.node_slots()[t]) is Some by {
            assert(graph.node_slots()[t] == Some(t as u32));
        }
    }
    add_seed_clique(&mut graph, m, weight);
    let ghost seed_slots = graph.edge_slots();
    let mut rng = seeded_rng(seed);
    let mut degrees: Vec<usize> = Vec::new();
    let mut q: usize = 0;
    while q < m
        invariant
            q <= m,
            degrees@.len() == q,
            forall|t: int| 0 <= t < q ==> #[trigger] degrees@[t] == m - 1,
            total(degrees@) == q * (m - 1),
        decreases m - q,
    {
        proof {
            lemma_total_push(degrees@, (m - 1) as usize);
        }
        degrees.push(m - 1);
        assert((q + 1) * (m - 1) == q * (m - 1) + (m - 1)) by (nonlinear_arith);
        q = q + 1;
    }
    let mut total_degree = m * (m - 1);
    let ghost mut dr: Seq<Seq<usize>> = Seq::empty();
    proof {
        assert(degrees@ =~= ba_degrees(graph.edge_slots(), m as int, m as int));
    }
    let mut i: usize = m;
    while i < n
        invariant
            1 <= m <= i <= n,
            n * 10 <= usize::MAX,
            m * (m - 1) + 2 * m * (n - m) <= usize::MAX,
            graph.wf(),
            labelled(graph, i as nat),
            weighted(graph.edge_slots(), weight),
            graph.edge_slots().len() == attach_slot(m as int, i as int, 0),
            seed_slots.len() == seed_edges(m as int),
            forall|k: int| 0 <= k < seed_edges(m as int) ==> #[trigger] graph.edge_slots()[k] == seed_slots[k],
            forall|k: int| 0 <= k < seed_edges(m as int) ==> ends(#[trigger] seed_slots[k]).0 < ends(seed_slots[k]).1 < m,
            forall|x: int, y: int| 0 <= x < y < seed_edges(m as int) ==> lex_lt(ends(#[trigger] seed_slots[x]), ends(#[trigger] seed_slots[y])),
            forall|j: int, t: int| m <= j < i && 0 <= t < m ==> ends(#[trigger] graph.edge_slots()[attach_slot(m as int, j, t)]).0 == j
                && ends(graph.edge_slots()[attach_slot(m as int, j, t)]).1 < j,
            forall|j: int, t1: int, t2: int| m <= j < i && 0 <= t1 < t2 < m
                ==> ends(#[trigger] graph.edge_slots()[attach_slot(m as int, j, t1)]).1
                    != ends(#[trigger] graph.edge_slots()[attach_slot(m as int, j, t2)]).1,
            degrees@.len() == i,
            total(degrees@) == total_degree,
            total_degree == m * (m - 1) + 2 * m * (i - m),
            degrees@ == ba_degrees(graph.edge_slots(), m as int, i as int),
            ba_drawn(graph.edge_slots(), dr, m as int, i as int, n as int),
        decreases n - i,
    {
        let new_node = graph.add_node(i as u32);
        let targets = choose_targets(&mut rng, &degrees, total_degree, i, m, n);
        let ghost start = graph.edge_slots();
        let ghost deg0 = degrees@;
        let ghost d = choose|d: Seq<usize>| #[trigger] drawn_as(deg0, d, total_degree as int, m as int, i as int, n as int,
            targets@);
        assert(m * (m - 1) + 2 * m * (i - m) + 2 * m <= m * (m - 1) + 2 * m * (n - m)) by (nonlinear_arith)
            requires 1 <= m <= i < n;
        assert(2 * (attach_slot(m as int, i as int, 0) + m) <= m * (m - 1) + 2 * m * (i - m) + 2 * m)
            by (nonlinear_arith)
            requires
                1 <= m <= i < n,
                attach_slot(m as int, i as int, 0) == m * (m - 1) / 2 + (i - m) * m;
        let mut p: usize = 0;
        while p < m
            invariant
                1 <= m <= i < n,
                new_node.0 == i,
                targets@.len() == m,
                distinct_below(targets@, i),
                graph.wf(),
                graph.node_slots().len() == i + 1,
                forall|t: int| 0 <= t <= i ==> #[trigger] graph.node_slots()[t] == Some(t as u32),
                weighted(graph.edge_slots(), weight),
                start.len() == attach_slot(m as int, i as int, 0),
                start.len() + m <= usize::MAX / 2,
                graph.edge_slots().len() == start.len() + p,
                p <= m,
                forall|k: int| 0 <= k < start.len() ==> #[trigger] graph.edge_slots()[k] == start[k],
                forall|t: int| 0 <= t < p ==> #[trigger] graph.edge_slots()[start.len() + t]
                    == Some((i, targets@[t], weight)),
                degrees@.len() == i,
                total(degrees@) == total_degree + p,
                total_degree + 2 * m <= usize::MAX,
                deg0.len() == i,
                degrees@ == Seq::new(i as nat, |x: int| (deg0[x] + if targets@.take(p as int).contains(x as usize) { 1int }
                    else { 0int }) as usize),
            decreases m - p,
        {
            let target = targets[p];
            proof {
                assert(graph.node_slots()[target as int] == Some(target as u32));
                assert(graph.node_slots()[i as int] == Some(i as u32));
                lemma_total_entry(degrees@, target as int);
            }
            let ghost before = graph.edge_slots();
            graph.add_edge(new_node, NodeId(target), weight);
            proof {
                let es = graph.edge_slots();
                assert forall|k: int| 0 <= k < es.len() implies (#[trigger] es[k]) is Some
                    && es[k].unwrap().2 == weight by {
                    if k < before.len() {
                        assert(es[k] == before[k]);
                    }
                }
                lemma_total_bump(degrees@, target as int);
            }
            let dt = degrees[target];
            let ghost dg = degrees@;
            degrees.set(target, dt + 1);
            proof {
                assert(!targets@.take(p as int).contains(target)) by {
                    if targets@.take(p as int).contains(target) {
                        let q = choose|q: int| 0 <= q < p && #[trigger] targets@.take(p as int)[q] == target;
                        assert(targets@[q] == targets@[p as int]);
                    }
                }
                assert forall|x: int| 0 <= x < i implies (#[trigger] targets@.take(p + 1).contains(x as usize)
                    <==> targets@.take(p as int).contains(x as usize) || x == target) by {
                    if targets@.take(p + 1).contains(x as usize) {
                        let q = choose|q: int| 0 <= q < p + 1 && #[trigger] targets@.take(p + 1)[q] == x as usize;
                        if q < p {
                            assert(targets@.take(p as int)[q] == x as usize);
                        }
                    }
                    if targets@.take(p as int).contains(x as usize) {
                        let q = choose|q: int| 0 <= q < p && #[trigger] targets@.take(p as int)[q] == x as usize;
                        assert(targets@.take(p + 1)[q] == x as usize);
                    }
                    if x == target {
                        assert(targets@.take(p + 1)[p as int] == target);
                    }
                }
                assert(degrees@ =~= Seq::new(i as nat, |x: int| (deg0[x] + if targets@.take(p + 1).contains(x as usize)
                    { 1int } else { 0int }) as usize));
            }
            p = p + 1;
        }
        proof {
            lemma_total_push(degrees@, m);
        }
        degrees.push(targets.len());
        total_degree = total_degree + 2 * targets.len();
        proof {
            let es = graph.edge_slots();
            let mm = m as int;
            let ii = i as int;
            assert(attach_slot(mm, ii + 1, 0) == attach_slot(mm, ii, 0) + mm) by (nonlinear_arith)
                requires mm >= 1;
            lemma_ba_prefix(start, es, mm, ii);
            assert(ba_targets_at(es, mm, ii) =~= targets@) by {
                assert forall|t: int| 0 <= t < mm implies ba_targets_at(es, mm, ii)[t] == targets@[t] by {
                    assert(attach_slot(mm, ii, t) == start.len() + t);
                    assert(es[start.len() + t] == Some((i, targets@[t], weight)));
                }
            }
            assert(targets@.take(mm) =~= targets@);
            assert(degrees@ =~= ba_degrees(es, mm, ii + 1));
            let dr0 = dr;
            dr = dr.push(d);
            assert forall|j: int| mm <= j < ii + 1 implies #[trigger] drawn_as(ba_degrees(es, mm, j), dr[j - mm],
                total(ba_degrees(es, mm, j)), mm, j, n as int, ba_targets_at(es, mm, j)) by {
                if j < ii {
                    assert(attach_slot(mm, j, 0) <= start.len()) by {
                        lemma_attach_slot_order(mm, j, 0, ii);
                    }
                    lemma_ba_prefix(start, es, mm, j);
                    assert(dr[j - mm] == dr0[j - mm]);
                    assert(drawn_as(ba_degrees(start, mm, j), dr0[j - mm], total(ba_degrees(start, mm, j)), mm, j,
                        n as int, ba_targets_at(start, mm, j)));
                } else {
                    assert(dr[j - mm] == d);
                }
            }
            assert(attach_slot(mm, ii + 1, 0) == attach_slot(mm, ii, 0) + mm) by (nonlinear_arith)
                requires mm >= 1;
            assert(m * (m - 1) + 2 * m * (i - m) + 2 * m == m * (m - 1) + 2 * m * (i + 1 - m)) by (nonlinear_arith);
            assert forall|k: int| 0 <= k < seed_edges(mm) implies #[trigger] es[k] == seed_slots[k] by {
                assert((ii - mm) * mm >= 0) by (nonlinear_arith) requires mm <= ii, mm >= 1;
                assert(es[k] == start[k]);
            }
            assert forall|j: int, t: int| mm <= j < ii + 1 && 0 <= t < mm
                implies ends(#[trigger] es[attach_slot(mm, j, t)]).0 == j && ends(es[attach_slot(mm, j, t)]).1 < j by {
                if j < ii {
                    lemma_attach_slot_order(mm, j, t, ii);
                    assert(es[attach_slot(mm, j, t)] == start[attach_slot(mm, j, t)]);
                } else {
                    assert(attach_slot(mm, j, t) == start.len() + t);
                    assert(es[start.len() + t] == Some((i, targets@[t], weight)));
                }
            }
            assert forall|j: int, t1: int, t2: int| mm <= j < ii + 1 && 0 <= t1 < t2 < mm
                implies ends(#[trigger] es[attach_slot(mm, j, t1)]).1 != ends(#[trigger] es[attach_slot(mm, j, t2)]).1 by {
                if j < ii {
                    lemma_attach_slot_order(mm, j, t1, ii);
                    lemma_attach_slot_order(mm, j, t2, ii);
                    assert(es[attach_slot(mm, j, t1)] == start[attach_slot(mm, j, t1)]);
                    assert(es[attach_slot(mm, j, t2)] == start[attach_slot(mm, j, t2)]);
                } else {
                    assert(attach_slot(mm, j, t1) == start.len() + t1);
                    assert(attach_slot(mm, j, t2) == start.len() + t2);
                    assert(es[start.len() + t1] == Some((i, targets@[t1], weight)));
                    assert(es[start.len() + t2] == Some((i, targets@[t2], weight)));
                }
            }
        }
        i = i + 1;
    }
    Ok(graph)
}

/// `count` coin flips drawn from a generator seeded with `seed`.
fn draw_coins(seed: u64, coin: &Bernoulli, count: usize) -> (coins: Vec<bool>)
    ensures
        coins@.len() == count,
{
    let mut rng = seeded_rng(seed);
    let mut coins: Vec<bool> = Vec::new();
    let mut t: usize = 0;
    while t < count
        invariant
            t <= count,
            coins@.len() == t,
        decreases count - t,
    {
        coins.push(flip(&mut rng, coin));
        t = t + 1;
    }
    coins
}

/// The message for a probability outside `[0, 1]`.
pub open spec fn probability_message() -> Seq<char> {
    "Probability p must be in the range [0.0, 1.0]."@
}

/// Generates an Erdős–Rényi graph on `n` nodes: each candidate pair (every
/// ordered pair of distinct nodes for a directed graph, every unordered pair
/// otherwise), in increasing order, is joined when a coin flip of `coin`,
/// drawn from a generator seeded with `seed`, comes up true. `coin` is the
/// edge probability as a Bernoulli distribution, `None` for a probability
/// outside `[0, 1]`. Fails when `n` is zero or the probability is invalid,
/// in that order.
pub fn erdos_renyi_graph<Ty: GraphConstructor, W: Copy>(n: usize, coin: Option<&Bernoulli>, seed: u64, weight: W)
    -> (r: Result<BaseGraph<u32, W, Ty>, GraphinaError>)
    requires
        n * n < usize::MAX / 2,
    ensures
        r is Err <==> n == 0 || coin is None,
        n == 0 ==> r is Err && r->Err_0 is InvalidArgument && r->Err_0->InvalidArgument_0@ == no_nodes_message(),
        n > 0 && coin is None ==> r is Err && r->Err_0 is InvalidArgument
            && r->Err_0->InvalidArgument_0@ == probability_message(),
        r is Ok ==> exists|coins: Seq<bool>| coins.len() == pair_count(n as int, Ty::spec_is_directed())
            && #[trigger] erdos_renyi_shape(r->Ok_0, n as nat, coins, weight),
{
    if n == 0 {
        return Err(GraphinaError::InvalidArgument(String::from_str("Number of nodes must be greater than zero.")));
    }
    let coin = match coin {
        Some(c) => c,
        None => {
            return Err(GraphinaError::InvalidArgument(String::from_str("Probability p must be in the range [0.0, 1.0].")));
        },
    };
    proof {
        assert(n * (n - 1) <= n * n) by (nonlinear_arith) requires n >= 1;
    }
    let count = if Ty::is_directed() { n * (n - 1) } else { n * (n - 1) / 2 };
    let coins = draw_coins(seed, coin, count);
    let r = erdos_renyi_from_coins::<Ty, W>(n, &coins, weight);
    proof {
        if r is Ok {
            assert(erdos_renyi_shape(r->Ok_0, n as nat, coins@, weight));
        }
    }
    r
}

/// Generates a random bipartite graph with parts `0..n1` and `n1..n1 + n2`:
/// each pair `(u, v)` with `u` in the first part and `v` in the second, in
/// increasing order, is joined when a coin flip of `coin`, drawn from a
/// generator seeded with `seed`, comes up true. `coin` is `None` for a
/// probability outside `[0, 1]`. Fails when a part is empty or the
/// probability is invalid, in that order.
pub fn bipartite_graph<Ty: GraphConstructor, W: Copy>(n1: usize, n2: usize, coin: Option<&Bernoulli>, seed: u64,
    weight: W) -> (r: Result<BaseGraph<u32, W, Ty>, GraphinaError>)
    requires
        n1 + n2 < usize::MAX / 2,
        n1 * n2 < usize::MAX / 2,
    ensures
        r is Err <==> n1 == 0 || n2 == 0 || coin is None,
        n1 == 0 || n2 == 0 ==> r is Err && r->Err_0 is InvalidArgument
            && r->Err_0->InvalidArgument_0@ == "Both partitions must have at least one node."@,
        n1 > 0 && n2 > 0 && coin is None ==> r is Err && r->Err_0 is InvalidArgument
            && r->Err_0->InvalidArgument_0@ == probability_message(),
        r is Ok ==> exists|coins: Seq<bool>| coins.len() == n1 * n2
            && #[trigger] bipartite_shape(r->Ok_0, n1 as nat, n2 as nat, coins, weight),
{
    if n1 == 0 || n2 == 0 {
        return Err(GraphinaError::InvalidArgument(String::from_str("Both partitions must have at least one node.")));
    }
    let coin = match coin {
        Some(c) => c,
        None => {
            return Err(GraphinaError::InvalidArgument(String::from_str("Probability p must be in the range [0.0, 1.0].")));
        },
    };
    let coins = draw_coins(seed, coin, n1 * n2);
    let r = bipartite_from_coins::<Ty, W>(n1, n2, &coins, weight);
    proof {
        if r is Ok {
            assert(bipartite_shape(r->Ok_0, n1 as nat, n2 as nat, coins@, weight));
        }
    }
    r
}

/// A step of `j` around a ring of `n` nodes, `0 < j < n`, leaves node `i`.
proof fn lemma_ring_step(i: int, j: int, n: int)
    requires
        0 <= i < n,
        0 < j < n,
    ensures
        (i + j) % n != i,
        0 <= (i + j) % n < n,
{
    if i + j < n {
        vstd::arithmetic::div_mod::lemma_fundamental_div_mod_converse(i + j, n, 0, i + j);
    } else {
        vstd::arithmetic::div_mod::lemma_fundamental_div_mod_converse(i + j, n, 1, i + j - n);
    }
}

/// No edge is a self-loop, and every edge carries the weight `w`.
pub open spec fn loop_free_weighted<Ty: GraphConstructor, W>(g: BaseGraph<u32, W, Ty>, w: W) -> bool {
    forall|e: int| #[trigger] g.has_edge(e) ==> g.src(e) != g.tgt(e) && g.weight(e) == w
}

/// The message for a bad lattice degree.
pub open spec fn lattice_message() -> Seq<char> {
    "k must be even and less than n."@
}

/// The message for a rewiring probability outside `[0, 1]`.
pub open spec fn beta_message() -> Seq<char> {
    "Beta must be in the range [0.0, 1.0]."@
}

/// The ring lattice of `n` labelled nodes, each joined to its `hk`
/// successors, edges in the order of `ring_lattice`.
fn ring_graph<Ty: GraphConstructor, W: Copy>(n: usize, hk: usize, weight: W) -> (g: BaseGraph<u32, W, Ty>)
    requires
        0 < n,
        2 * hk < n,
        n * hk < usize::MAX / 4,
    ensures
        g.wf(),
        labelled(g, n as nat),
        loop_free_weighted(g, weight),
        g.edge_slots() == ring_lattice(n as int, hk as int, weight),
        count_live(g.edge_slots()) == n * hk,
{
    let mut graph = BaseGraph::<u32, W, Ty>::new();
    add_labelled_nodes(&mut graph, n);
    let mut i: usize = 0;
    while i < n
        invariant
            i <= n,
            0 < n,
            2 * hk < n,
            n * hk < usize::MAX / 4,
            graph.wf(),
            labelled(graph, n as nat),
            loop_free_weighted(graph, weight),
            graph.edge_slots().len() == i * hk,
            count_live(graph.edge_slots()) == i * hk,
            forall|q: int| 0 <= q < graph.edge_slots().len() ==> #[trigger] graph.edge_slots()[q]
                == Some((ring_edge(n as int, hk as int, q).0, ring_edge(n as int, hk as int, q).1, weight)),
        decreases n - i,
    {
        let mut j: usize = 1;
        while j <= hk
            invariant
                i < n,
                1 <= j <= hk + 1,
                2 * hk < n,
                n * hk < usize::MAX / 4,
                graph.wf(),
                labelled(graph, n as nat),
                loop_free_weighted(graph, weight),
                graph.edge_slots().len() == i * hk + j - 1,
                count_live(graph.edge_slots()) == i * hk + j - 1,
                forall|q: int| 0 <= q < graph.edge_slots().len() ==> #[trigger] graph.edge_slots()[q]
                    == Some((ring_edge(n as int, hk as int, q).0, ring_edge(n as int, hk as int, q).1, weight)),
            decreases hk + 1 - j,
        {
            proof {
                lemma_ring_step(i as int, j as int, n as int);
                lemma_ring_edge(n as int, hk as int, i as int, j as int);
                assert(i * hk + j - 1 < n * hk) by (nonlinear_arith)
                    requires i < n, j <= hk;
            }
            let neighbor = (i + j) % n;
            proof {
                assert(graph.node_slots()[i as int] == Some(i as u32));
                assert(graph.node_slots()[neighbor as int] == Some(neighbor as u32));
                lemma_count_push(graph.edge_slots(), Some((i, neighbor, weight)));
            }
            let ghost before = graph;
            graph.add_edge(NodeId(i), NodeId(neighbor), weight);
            proof {
                assert forall|e: int| #[trigger] graph.has_edge(e) implies graph.src(e) != graph.tgt(e)
                    && graph.weight(e) == weight by {
                    if e < before.edge_slots().len() {
                        assert(before.has_edge(e));
                    }
                }
            }
            j = j + 1;
        }
        i = i + 1;
        proof {
            assert((i - 1) * hk + hk == i * hk) by (nonlinear_arith);
        }
    }
    assert(graph.edge_slots() =~= ring_lattice(n as int, hk as int, weight));
    graph
}

/// Takes out the first edge from `i` to `nbr`, when there is one.
fn take_out_first<Ty: GraphConstructor, W: Copy>(graph: &mut BaseGraph<u32, W, Ty>, i: usize, nbr: usize, n: usize,
    weight: W) -> (found: bool)
    requires
        old(graph).wf(),
        labelled(*old(graph), n as nat),
        loop_free_weighted(*old(graph), weight),
    ensures
        final(graph).wf(),
        labelled(*final(graph), n as nat),
        loop_free_weighted(*final(graph), weight),
        found == find_first(old(graph).edge_slots(), i, nbr, 0) is Some,
        final(graph).edge_slots().len() == old(graph).edge_slots().len(),
        found ==> final(graph).edge_slots() == old(graph).edge_slots().update(
            find_first(old(graph).edge_slots(), i, nbr, 0).unwrap(), None)
            && count_live(final(graph).edge_slots()) + 1 == count_live(old(graph).edge_slots()),
        !found ==> final(graph).edge_slots() == old(graph).edge_slots(),
{
    match graph.first_edge(NodeId(i), NodeId(nbr)) {
        Some(eid) => {
            proof {
                let f = eid.0 as int;
                lemma_find_first_hit(graph.edge_slots(), i, nbr, 0);
                assert(graph.has_edge(f));
                lemma_count_update(graph.edge_slots(), f, None);
            }
            let ghost g0 = *graph;
            graph.remove_edge(eid);
            proof {
                assert forall|e: int| #[trigger] graph.has_edge(e) implies graph.src(e) != graph.tgt(e)
                    && graph.weight(e) == weight by {
                    assert(g0.has_edge(e));
                }
            }
            true
        },
        None => false,
    }
}

/// The first edge `find_first` names exists.
proof fn lemma_find_first_hit<W>(slots: Seq<Option<(usize, usize, W)>>, u: usize, v: usize, from: int)
    requires
        find_first(slots, u, v, from) is Some,
    ensures
        crate::types::edge_between(slots, find_first(slots, u, v, from).unwrap(), u, v),
    decreases slots.len() - from,
{
    if 0 <= from < slots.len() && !crate::types::edge_between(slots, from, u, v) {
        lemma_find_first_hit(slots, u, v, from + 1);
    }
}

/// Adds the rewired edge from `i` to `t`.
fn put_back<Ty: GraphConstructor, W: Copy>(graph: &mut BaseGraph<u32, W, Ty>, i: usize, t: usize, n: usize, weight: W)
    requires
        old(graph).wf(),
        labelled(*old(graph), n as nat),
        loop_free_weighted(*old(graph), weight),
        i < n,
        t < n,
        t != i,
        old(graph).edge_slots().len() < usize::MAX / 2,
    ensures
        final(graph).wf(),
        labelled(*final(graph), n as nat),
        loop_free_weighted(*final(graph), weight),
        final(graph).edge_slots() == old(graph).edge_slots().push(Some((i, t, weight))),
        count_live(final(graph).edge_slots()) == count_live(old(graph).edge_slots()) + 1,
{
    proof {
        assert(graph.node_slots()[i as int] == Some(i as u32));
        assert(graph.node_slots()[t as int] == Some(t as u32));
        lemma_count_push(graph.edge_slots(), Some((i, t, weight)));
    }
    let ghost g1 = *graph;
    graph.add_edge(NodeId(i), NodeId(t), weight);
    proof {
        assert forall|e: int| #[trigger] graph.has_edge(e) implies graph.src(e) != graph.tgt(e)
            && graph.weight(e) == weight by {
            if e < g1.edge_slots().len() {
                assert(g1.has_edge(e));
            }
        }
    }
}

/// The state of a Watts–Strogatz graph after `p` rewiring steps driven by
/// `coins` and `draws`.
pub open spec fn ws_state<Ty: GraphConstructor, W>(g: BaseGraph<u32, W, Ty>, n: int, hk: int, coins: Seq<bool>,
    draws: Seq<Seq<usize>>, w: W, p: int) -> bool {
    &&& coins.len() == p
    &&& draws.len() == p
    &&& forall|x: int| 0 <= x < p ==> (#[trigger] draws[x]).len() <= 2 * n
    &&& g.edge_slots() == ws_slots(n, hk, coins, draws, w, p)
}

/// Builds a Watts–Strogatz graph from its coin flips and target draws: the
/// ring lattice of `n` nodes with `k / 2` successors each, then for each
/// lattice edge `p` in order, when `coins[p]` is true, the first edge from
/// its source to its target is taken out and an edge from the source to the
/// first free target among the first `2 * n` entries of `draws[p]` (or back
/// to the old target when there is none) is added (`ws_slots`). Fails as
/// `watts_strogatz_graph` does on `n` and `k`.
pub fn watts_strogatz_from_draws<Ty: GraphConstructor, W: Copy>(n: usize, k: usize, coins: &Vec<bool>,
    draws: &Vec<Vec<usize>>, weight: W) -> (r: Result<BaseGraph<u32, W, Ty>, GraphinaError>)
    requires
        0 < n && k % 2 == 0 && k < n ==> n * k < usize::MAX / 4 && coins@.len() == n * (k / 2)
            && draws@.len() == n * (k / 2),
    ensures
        r is Err <==> n == 0 || k % 2 != 0 || k >= n,
        n == 0 ==> r is Err && r->Err_0 is InvalidArgument && r->Err_0->InvalidArgument_0@ == no_nodes_message(),
        n > 0 && (k % 2 != 0 || k >= n) ==> r is Err && r->Err_0 is InvalidArgument
            && r->Err_0->InvalidArgument_0@ == lattice_message(),
        r is Ok ==> {
            let g = r->Ok_0;
            &&& g.wf()
            &&& labelled(g, n as nat)
            &&& g.spec_edge_count() == n * (k / 2)
            &&& loop_free_weighted(g, weight)
            &&& g.edge_slots() == ws_slots(n as int, (k / 2) as int, coins@,
                draws@.map_values(|d: Vec<usize>| d@), weight, (n * (k / 2)) as int)
        },
{
    if n == 0 {
        return Err(GraphinaError::InvalidArgument(String::from_str("Number of nodes must be greater than zero.")));
    }
    if k % 2 != 0 || k >= n {
        return Err(GraphinaError::InvalidArgument(String::from_str("k must be even and less than n.")));
    }
    let hk = k / 2;
    proof {
        assert(n * hk <= n * k) by (nonlinear_arith) requires hk <= k;
    }
    let mut graph = ring_graph::<Ty, W>(n, hk, weight);
    let ghost dv = draws@.map_values(|d: Vec<usize>| d@);
    let ghost lattice = n * hk;
    let mut rewired: usize = 0;
    let mut p: usize = 0;
    let mut i: usize = 0;
    while i < n
        invariant
            i <= n,
            0 < n,
            2 * hk < n,
            lattice == n * hk,
            n * hk < usize::MAX / 4,
            coins@.len() == lattice,
            dv == draws@.map_values(|d: Vec<usize>| d@),
            dv.len() == lattice,
            p == i * hk,
            rewired <= p,
            graph.wf(),
            labelled(graph, n as nat),
            loop_free_weighted(graph, weight),
            graph.edge_slots().len() <= lattice + rewired,
            count_live(graph.edge_slots()) == lattice,
            graph.edge_slots() == ws_slots(n as int, hk as int, coins@, dv, weight, p as int),
        decreases n - i,
    {
        let mut j: usize = 1;
        while j <= hk
            invariant
                i < n,
                1 <= j <= hk + 1,
                0 < n,
                2 * hk < n,
                lattice == n * hk,
                n * hk < usize::MAX / 4,
                coins@.len() == lattice,
                dv == draws@.map_values(|d: Vec<usize>| d@),
                dv.len() == lattice,
                p == i * hk + j - 1,
                rewired <= p,
                graph.wf(),
                labelled(graph, n as nat),
                loop_free_weighted(graph, weight),
                graph.edge_slots().len() <= lattice + rewired,
                count_live(graph.edge_slots()) == lattice,
                graph.edge_slots() == ws_slots(n as int, hk as int, coins@, dv, weight, p as int),
            decreases hk + 1 - j,
        {
            proof {
                lemma_ring_step(i as int, j as int, n as int);
                lemma_ring_edge(n as int, hk as int, i as int, j as int);
                assert(i * hk + j - 1 < n * hk) by (nonlinear_arith)
                    requires i < n, j <= hk;
                assert(n <= n * hk) by (nonlinear_arith) requires hk >= j, j >= 1;
                assert(lattice + rewired < usize::MAX / 2);
            }
            let neighbor = (i + j) % n;
            let ghost s0 = graph.edge_slots();
            if coins[p] {
                let found = take_out_first(&mut graph, i, neighbor, n, weight);
                if found {
                    let t = crate::rewiring::choose_rewire_target(&graph, n, i, neighbor, &draws[p], 2 * n);
                    proof {
                        assert(dv[p as int] == draws@[p as int]@);
                        let c = rewire_choice(graph.edge_slots(), n as int, i, neighbor, dv[p as int], 2 * n);
                        let m = if dv[p as int].len() < 2 * n { dv[p as int].len() as int } else { 2 * n };
                        lemma_first_free_target(graph.edge_slots(), n as int, i, neighbor, dv[p as int], m);
                    }
                    put_back(&mut graph, i, t, n, weight);
                    rewired = rewired + 1;
                }
            }
            proof {
                assert(ws_slots(n as int, hk as int, coins@, dv, weight, p + 1)
                    == ws_step(s0, n as int, hk as int, coins@[p as int], dv[p as int], weight, p as int));
            }
            p = p + 1;
            j = j + 1;
        }
        i = i + 1;
        proof {
            assert((i - 1) * hk + hk == i * hk) by (nonlinear_arith);
        }
    }
    proof {
        assert(coins@.len() == n * hk);
    }
    Ok(graph)
}

/// A free target found among the draws is a node of the ring other than `i`.
proof fn lemma_first_free_target<W>(slots: Seq<Option<(usize, usize, W)>>, n: int, i: usize, nbr: usize,
    draws: Seq<usize>, m: int)
    ensures
        first_free(slots, n, i, nbr, draws, m) is Some ==> (first_free(slots, n, i, nbr, draws, m).unwrap() as int) < n
            && first_free(slots, n, i, nbr, draws, m).unwrap() != i,
    decreases m,
{
    if m > 0 {
        lemma_first_free_target(slots, n, i, nbr, draws, m - 1);
    }
}

/// Generates a Watts–Strogatz small-world graph: a ring of `n` nodes, each
/// joined to its `k / 2` successors, whose edges are then rewired. Taking
/// the lattice edges from each node `i` to `i + j` (modulo `n`) in order, a
/// coin flip of `coin` decides whether to rewire it; a rewired edge is
/// removed and replaced by an edge from `i` to a random target that is
/// neither `i` nor the old neighbour and not yet joined to `i` either way,
/// or restored as it was when `2 * n` draws find no such target. The draws
/// come from one generator seeded with `seed`. `coin` is the rewiring
/// probability as a Bernoulli distribution, `None` for one outside `[0, 1]`.
/// Fails when `n` is zero, `k` is odd or not below `n`, or the probability is
/// invalid, in that order. The result has `n * (k / 2)` edges and no
/// self-loops, and is what `watts_strogatz_from_draws` makes of the coin
/// flips and target draws that were made.
pub fn watts_strogatz_graph<Ty: GraphConstructor, W: Copy>(n: usize, k: usize, coin: Option<&Bernoulli>, seed: u64,
    weight: W) -> (r: Result<BaseGraph<u32, W, Ty>, GraphinaError>)
    requires
        0 < n && k % 2 == 0 && k < n && coin is Some ==> n * k < usize::MAX / 4,
    ensures
        r is Err <==> n == 0 || k % 2 != 0 || k >= n || coin is None,
        n == 0 ==> r is Err && r->Err_0 is InvalidArgument && r->Err_0->InvalidArgument_0@ == no_nodes_message(),
        n > 0 && (k % 2 != 0 || k >= n) ==> r is Err && r->Err_0 is InvalidArgument
            && r->Err_0->InvalidArgument_0@ == lattice_message(),
        n > 0 && k % 2 == 0 && k < n && coin is None ==> r is Err && r->Err_0 is InvalidArgument
            && r->Err_0->InvalidArgument_0@ == beta_message(),
        r is Ok ==> {
            let g = r->Ok_0;
            &&& g.wf()
            &&& labelled(g, n as nat)
            &&& g.spec_edge_count() == n * (k / 2)
            &&& loop_free_weighted(g, weight)
            &&& no_parallel(g.edge_slots())
            &&& exists|coins: Seq<bool>, draws: Seq<Seq<usize>>| #[trigger] ws_state(g, n as int, (k / 2) as int,
                coins, draws, weight, (n * (k / 2)) as int)
        },
{
    if n == 0 {
        return Err(GraphinaError::InvalidArgument(String::from_str("Number of nodes must be greater than zero.")));
    }
    if k % 2 != 0 || k >= n {
        return Err(GraphinaError::InvalidArgument(String::from_str("k must be even and less than n.")));
    }
    let coin = match coin {
        Some(c) => c,
        None => {
            return Err(GraphinaError::InvalidArgument(String::from_str("Beta must be in the range [0.0, 1.0].")));
        },
    };
    let hk = k / 2;
    proof {
        assert(n * hk <= n * k) by (nonlinear_arith) requires hk <= k;
    }
    let mut graph = ring_graph::<Ty, W>(n, hk, weight);
    proof {
        lemma_ring_no_parallel(n as int, hk as int, weight);
    }
    let mut rng = seeded_rng(seed);
    let ghost lattice = n * hk;
    let ghost mut coins: Seq<bool> = Seq::empty();
    let ghost mut dv: Seq<Seq<usize>> = Seq::empty();
    let mut rewired: usize = 0;
    let mut p: usize = 0;
    let mut i: usize = 0;
    while i < n
        invariant
            i <= n,
            0 < n,
            2 * hk < n,
            lattice == n * hk,
            n * hk < usize::MAX / 4,
            p == i * hk,
            rewired <= p,
            graph.wf(),
            labelled(graph, n as nat),
            loop_free_weighted(graph, weight),
            graph.edge_slots().len() <= lattice + rewired,
            count_live(graph.edge_slots()) == lattice,
            ws_state(graph, n as int, hk as int, coins, dv, weight, p as int),
            no_parallel(graph.edge_slots()),
        decreases n - i,
    {
        let mut j: usize = 1;
        while j <= hk
            invariant
                i < n,
                1 <= j <= hk + 1,
                0 < n,
                2 * hk < n,
                lattice == n * hk,
                n * hk < usize::MAX / 4,
                p == i * hk + j - 1,
                rewired <= p,
                graph.wf(),
                labelled(graph, n as nat),
                loop_free_weighted(graph, weight),
                graph.edge_slots().len() <= lattice + rewired,
                count_live(graph.edge_slots()) == lattice,
                ws_state(graph, n as int, hk as int, coins, dv, weight, p as int),
                no_parallel(graph.edge_slots()),
            decreases hk + 1 - j,
        {
            proof {
                lemma_ring_step(i as int, j as int, n as int);
                lemma_ring_edge(n as int, hk as int, i as int, j as int);
                assert(i * hk + j - 1 < n * hk) by (nonlinear_arith)
                    requires i < n, j <= hk;
                assert(n <= n * hk) by (nonlinear_arith) requires hk >= j, j >= 1;
                assert(lattice + rewired < usize::MAX / 2);
            }
            let neighbor = (i + j) % n;
            let ghost s0 = graph.edge_slots();
            let ghost mut d: Seq<usize> = Seq::empty();
            let c = flip(&mut rng, coin);
            if c {
                let found = take_out_first(&mut graph, i, neighbor, n, weight);
                if found {
                    let ghost s1 = graph.edge_slots();
                    proof {
                        lemma_find_first_hit(s0, i, neighbor, 0);
                        lemma_take_out_keeps(s0, find_first(s0, i, neighbor, 0).unwrap(), i, neighbor);
                    }
                    let max_attempts = n * 2;
                    let mut attempts: usize = 0;
                    let mut new_target = neighbor;
                    loop
                        invariant_except_break
                            attempts < max_attempts,
                            first_free(s1, n as int, i, neighbor, d, d.len() as int) is None,
                        invariant
                            n > 0,
                            i < n,
                            neighbor < n,
                            neighbor != i,
                            max_attempts == n * 2,
                            graph.edge_slots() == s1,
                            new_target < n,
                            new_target != i,
                            d.len() == attempts,
                            attempts <= max_attempts,
                        ensures
                            new_target == rewire_choice(s1, n as int, i, neighbor, d, 2 * n),
                            d.len() <= 2 * n,
                        decreases max_attempts - attempts,
                    {
                        let target = random_below(&mut rng, n);
                        proof {
                            let d0 = d;
                            d = d.push(target);
                            assert(d.drop_last() =~= d0);
                            assert forall|m: int| 0 <= m <= d0.len() implies first_free(s1, n as int, i, neighbor, d, m)
                                == first_free(s1, n as int, i, neighbor, d0, m) by {
                                lemma_first_free_prefix(s1, n as int, i, neighbor, d0, d, m);
                            }
                        }
                        attempts = attempts + 1;
                        let joined = graph.joined_either_way(NodeId(i), NodeId(target));
                        if target != i && target != neighbor && !joined {
                            new_target = target;
                            proof {
                                assert(d[d.len() - 1] == target);
                                assert(first_free(s1, n as int, i, neighbor, d, d.len() as int) == Some(target));
                            }
                            break;
                        }
                        proof {
                            assert(d[d.len() - 1] == target);
                            assert(first_free(s1, n as int, i, neighbor, d, d.len() as int) is None);
                        }
                        if attempts >= max_attempts {
                            new_target = neighbor;
                            break;
                        }
                    }
                    proof {
                        let m = if d.len() < 2 * n { d.len() as int } else { 2 * n as int };
                        if first_free(s1, n as int, i, neighbor, d, m) is Some {
                            lemma_first_free_is_free(s1, n as int, i, neighbor, d, m);
                        }
                        lemma_put_back_keeps(s1, i, new_target, weight);
                    }
                    put_back(&mut graph, i, new_target, n, weight);
                    rewired = rewired + 1;
                }
            }
            proof {
                let c0 = coins;
                let d0 = dv;
                coins = coins.push(c);
                dv = dv.push(d);
                assert forall|m: int| 0 <= m <= p implies ws_slots(n as int, hk as int, coins, dv, weight, m)
                    == ws_slots(n as int, hk as int, c0, d0, weight, m) by {
                    lemma_ws_slots_prefix(n as int, hk as int, c0, d0, coins, dv, weight, m);
                }
                assert(ws_slots(n as int, hk as int, coins, dv, weight, p + 1)
                    == ws_step(s0, n as int, hk as int, c, d, weight, p as int));
                assert forall|x: int| 0 <= x < p + 1 implies (#[trigger] dv[x]).len() <= 2 * n by {
                    if x < p {
                        assert(dv[x] == d0[x]);
                    }
                }
            }
            p = p + 1;
            j = j + 1;
        }
        i = i + 1;
        proof {
            assert((i - 1) * hk + hk == i * hk) by (nonlinear_arith);
        }
    }
    proof {
        assert(ws_state(graph, n as int, hk as int, coins, dv, weight, (n * hk) as int));
    }
    Ok(graph)
}

/// Draws past the first `m` do not matter to `first_free` over `m`.
proof fn lemma_first_free_prefix<W>(slots: Seq<Option<(usize, usize, W)>>, n: int, i: usize, nbr: usize,
    a: Seq<usize>, b: Seq<usize>, m: int)
    requires
        m <= a.len(),
        a.len() <= b.len(),
        forall|x: int| 0 <= x < a.len() ==> a[x] == b[x],
    ensures
        first_free(slots, n, i, nbr, b, m) == first_free(slots, n, i, nbr, a, m),
    decreases m,
{
    if m > 0 {
        lemma_first_free_prefix(slots, n, i, nbr, a, b, m - 1);
    }
}

/// Later coins and draws do not matter to the first `m` steps.
proof fn lemma_ws_slots_prefix<W>(n: int, hk: int, c0: Seq<bool>, d0: Seq<Seq<usize>>, c1: Seq<bool>,
    d1: Seq<Seq<usize>>, w: W, m: int)
    requires
        m <= c0.len(),
        m <= d0.len(),
        c0.len() <= c1.len(),
        d0.len() <= d1.len(),
        forall|x: int| 0 <= x < c0.len() ==> c0[x] == c1[x],
        forall|x: int| 0 <= x < d0.len() ==> d0[x] == d1[x],
    ensures
        ws_slots(n, hk, c1, d1, w, m) == ws_slots(n, hk, c0, d0, w, m),
    decreases m,
{
    if m > 0 {
        lemma_ws_slots_prefix(n, hk, c0, d0, c1, d1, w, m - 1);
    }
}

} // verus!
