//! The ring lattice of a Watts–Strogatz graph and the rewiring of its edges,
//! stated over the coin flips and target draws that drive it.

use vstd::prelude::*;
use crate::types::{BaseGraph, EdgeId, GraphConstructor, NodeId, edge_between};

verus! {

/// Some edge joins `u` and `v`, either way round.
pub open spec fn either_way<W>(slots: Seq<Option<(usize, usize, W)>>, u: usize, v: usize) -> bool {
    exists|e: int| edge_between(slots, e, u, v) || edge_between(slots, e, v, u)
}

/// No two existing edges join the same two nodes, in either direction.
pub open spec fn no_parallel<W>(slots: Seq<Option<(usize, usize, W)>>) -> bool {
    &&& forall|a: int, b: int, u: usize, v: usize| #[trigger] edge_between(slots, a, u, v)
        && #[trigger] edge_between(slots, b, u, v) ==> a == b
    &&& forall|a: int, b: int, u: usize, v: usize| #[trigger] edge_between(slots, a, u, v)
        && #[trigger] edge_between(slots, b, v, u) ==> a == b
}

/// `t` is a node of the ring (below `n`) that a rewired edge from `i` may go
/// to: neither `i` nor its old neighbour `nbr`, and not yet joined to `i`.
pub open spec fn free_target<W>(slots: Seq<Option<(usize, usize, W)>>, n: int, i: usize, nbr: usize, t: usize) -> bool {
    &&& (t as int) < n
    &&& t != i
    &&& t != nbr
    &&& !either_way(slots, i, t)
}

/// The first free target among the first `m` draws.
pub open spec fn first_free<W>(slots: Seq<Option<(usize, usize, W)>>, n: int, i: usize, nbr: usize,
    draws: Seq<usize>, m: int) -> Option<usize>
    decreases m,
{
    if m <= 0 {
        None
    } else {
        match first_free(slots, n, i, nbr, draws, m - 1) {
            Some(t) => Some(t),
            None => if free_target(slots, n, i, nbr, draws[m - 1]) { Some(draws[m - 1]) } else { None },
        }
    }
}

/// Where a rewired edge from `i` goes: the first free target among the
/// first `limit` draws, or back to `nbr` when there is none.
pub open spec fn rewire_choice<W>(slots: Seq<Option<(usize, usize, W)>>, n: int, i: usize, nbr: usize,
    draws: Seq<usize>, limit: int) -> usize {
    let m = if draws.len() < limit { draws.len() as int } else { limit };
    match first_free(slots, n, i, nbr, draws, m) {
        Some(t) => t,
        None => nbr,
    }
}

/// The first edge at or after `from` that runs from `u` to `v`.
pub open spec fn find_first<W>(slots: Seq<Option<(usize, usize, W)>>, u: usize, v: usize, from: int) -> Option<int>
    decreases slots.len() - from,
{
    if from < 0 || from >= slots.len() {
        None
    } else if edge_between(slots, from, u, v) {
        Some(from)
    } else {
        find_first(slots, u, v, from + 1)
    }
}

/// Lattice edge `p` of a ring of `n` nodes with `hk` successors each: from
/// node `p / hk` to the node `p % hk + 1` steps further round.
pub open spec fn ring_edge(n: int, hk: int, p: int) -> (usize, usize) {
    ((p / hk) as usize, ((p / hk + p % hk + 1) % n) as usize)
}

/// The ring lattice: edges `0 .. n * hk`, each weighing `w`.
pub open spec fn ring_lattice<W>(n: int, hk: int, w: W) -> Seq<Option<(usize, usize, W)>> {
    Seq::new((n * hk) as nat, |q: int| Some((ring_edge(n, hk, q).0, ring_edge(n, hk, q).1, w)))
}

/// Rewiring step `p`: when `coin` comes up, the first edge from the lattice
/// edge's source to its target is taken out and an edge from the source to
/// `rewire_choice` over `draws` (at most `2 * n` of them) is added; otherwise
/// nothing changes.
pub open spec fn ws_step<W>(slots: Seq<Option<(usize, usize, W)>>, n: int, hk: int, coin: bool, draws: Seq<usize>,
    w: W, p: int) -> Seq<Option<(usize, usize, W)>> {
    let i = ring_edge(n, hk, p).0;
    let nbr = ring_edge(n, hk, p).1;
    if !coin {
        slots
    } else {
        match find_first(slots, i, nbr, 0) {
            None => slots,
            Some(f) => {
                let s1 = slots.update(f, None);
                s1.push(Some((i, rewire_choice(s1, n, i, nbr, draws, 2 * n), w)))
            },
        }
    }
}

/// The edge slots after the first `p` rewiring steps, from the ring lattice.
pub open spec fn ws_slots<W>(n: int, hk: int, coins: Seq<bool>, draws: Seq<Seq<usize>>, w: W, p: int)
    -> Seq<Option<(usize, usize, W)>>
    decreases p,
{
    if p <= 0 {
        ring_lattice(n, hk, w)
    } else {
        ws_step(ws_slots(n, hk, coins, draws, w, p - 1), n, hk, coins[p - 1], draws[p - 1], w, p - 1)
    }
}

/// The first edge between two nodes, as `find_first` describes it.
proof fn lemma_find_first<W>(slots: Seq<Option<(usize, usize, W)>>, u: usize, v: usize, from: int, r: Option<int>)
    requires
        0 <= from,
        r is Some ==> from <= r.unwrap() && edge_between(slots, r.unwrap(), u, v)
            && forall|e: int| from <= e < r.unwrap() ==> !edge_between(slots, e, u, v),
        r is None ==> forall|e: int| from <= e ==> !edge_between(slots, e, u, v),
    ensures
        find_first(slots, u, v, from) == r,
    decreases slots.len() - from,
{
    if from < slots.len() {
        if !edge_between(slots, from, u, v) {
            lemma_find_first(slots, u, v, from + 1, r);
        }
    } else {
        if r is Some {
            assert(edge_between(slots, r.unwrap(), u, v));
        }
    }
}

/// Lattice edge `i * hk + j - 1` runs from `i` to `i + j` round the ring.
pub proof fn lemma_ring_edge(n: int, hk: int, i: int, j: int)
    requires
        0 <= i,
        1 <= j <= hk,
        n > 0,
    ensures
        ring_edge(n, hk, i * hk + j - 1) == (i as usize, ((i + j) % n) as usize),
{
    vstd::arithmetic::div_mod::lemma_fundamental_div_mod_converse(i * hk + j - 1, hk, i, j - 1);
}

/// Lattice edge `p` split into its source `x` and step `j`, with the ring's
/// wrap-around written out.
proof fn lemma_ring_parts(n: int, hk: int, p: int) -> (r: (int, int))
    requires
        1 <= hk,
        2 * hk < n,
        n <= usize::MAX,
        0 <= p < n * hk,
    ensures
        0 <= r.0 < n,
        1 <= r.1 <= hk,
        p == r.0 * hk + r.1 - 1,
        ring_edge(n, hk, p).0 == r.0,
        ring_edge(n, hk, p).1 == (if r.0 + r.1 < n { r.0 + r.1 } else { r.0 + r.1 - n }),
{
    let x = p / hk;
    let j = p % hk + 1;
    vstd::arithmetic::div_mod::lemma_fundamental_div_mod(p, hk);
    vstd::arithmetic::div_mod::lemma_mod_pos_bound(p, hk);
    assert(p == x * hk + j - 1) by (nonlinear_arith)
        requires p == hk * x + (j - 1);
    assert(0 <= x < n) by (nonlinear_arith)
        requires p == x * hk + j - 1, 1 <= j <= hk, 0 <= p < n * hk, hk >= 1;
    lemma_ring_edge(n, hk, x, j);
    if x + j < n {
        vstd::arithmetic::div_mod::lemma_fundamental_div_mod_converse(x + j, n, 0, x + j);
    } else {
        vstd::arithmetic::div_mod::lemma_fundamental_div_mod_converse(x + j, n, 1, x + j - n);
    }
    (x, j)
}

/// The ring lattice has no parallel edges, either way round: a lattice edge
/// goes at most `hk` steps forward, and two such steps never close the ring.
pub proof fn lemma_ring_no_parallel<W>(n: int, hk: int, w: W)
    requires
        0 <= hk,
        2 * hk < n,
        n <= usize::MAX,
    ensures
        no_parallel(ring_lattice(n, hk, w)),
{
    let s = ring_lattice(n, hk, w);
    if hk >= 1 {
        assert forall|a: int, b: int, u: usize, v: usize| #[trigger] edge_between(s, a, u, v)
            && #[trigger] edge_between(s, b, u, v) implies a == b by {
            let (xa, ja) = lemma_ring_parts(n, hk, a);
            let (xb, jb) = lemma_ring_parts(n, hk, b);
        }
        assert forall|a: int, b: int, u: usize, v: usize| #[trigger] edge_between(s, a, u, v)
            && #[trigger] edge_between(s, b, v, u) implies a == b by {
            let (xa, ja) = lemma_ring_parts(n, hk, a);
            let (xb, jb) = lemma_ring_parts(n, hk, b);
        }
    } else {
        assert(n * hk == 0) by (nonlinear_arith) requires hk == 0;
    }
}

/// A free target found among the draws is free.
pub proof fn lemma_first_free_is_free<W>(slots: Seq<Option<(usize, usize, W)>>, n: int, i: usize, nbr: usize,
    draws: Seq<usize>, m: int)
    requires
        first_free(slots, n, i, nbr, draws, m) is Some,
    ensures
        free_target(slots, n, i, nbr, first_free(slots, n, i, nbr, draws, m).unwrap()),
    decreases m,
{
    if m > 0 && first_free(slots, n, i, nbr, draws, m - 1) is Some {
        lemma_first_free_is_free(slots, n, i, nbr, draws, m - 1);
    }
}

/// Taking an edge out keeps edges unparalleled and leaves its ends unjoined.
pub proof fn lemma_take_out_keeps<W>(s0: Seq<Option<(usize, usize, W)>>, f: int, u: usize, v: usize)
    requires
        no_parallel(s0),
        edge_between(s0, f, u, v),
    ensures
        no_parallel(s0.update(f, None)),
        !either_way(s0.update(f, None), u, v),
{
    let s1 = s0.update(f, None);
    assert forall|a: int, b: int, x: usize, y: usize| #[trigger] edge_between(s1, a, x, y)
        && #[trigger] edge_between(s1, b, x, y) implies a == b by {
        assert(edge_between(s0, a, x, y) && edge_between(s0, b, x, y));
    }
    assert forall|a: int, b: int, x: usize, y: usize| #[trigger] edge_between(s1, a, x, y)
        && #[trigger] edge_between(s1, b, y, x) implies a == b by {
        assert(edge_between(s0, a, x, y) && edge_between(s0, b, y, x));
    }
    if either_way(s1, u, v) {
        let e = choose|e: int| edge_between(s1, e, u, v) || edge_between(s1, e, v, u);
        if edge_between(s1, e, u, v) {
            assert(edge_between(s0, e, u, v));
        } else {
            assert(edge_between(s0, e, v, u));
        }
    }
}

/// Adding an edge between two distinct unjoined nodes keeps edges unparalleled.
pub proof fn lemma_put_back_keeps<W>(s1: Seq<Option<(usize, usize, W)>>, u: usize, v: usize, w: W)
    requires
        no_parallel(s1),
        !either_way(s1, u, v),
        u != v,
    ensures
        no_parallel(s1.push(Some((u, v, w)))),
{
    let s2 = s1.push(Some((u, v, w)));
    let l = s1.len() as int;
    assert forall|a: int, b: int, x: usize, y: usize| #[trigger] edge_between(s2, a, x, y)
        && #[trigger] edge_between(s2, b, x, y) implies a == b by {
        if a != l && b != l {
            assert(edge_between(s1, a, x, y) && edge_between(s1, b, x, y));
        } else if a == l && b != l {
            assert(edge_between(s1, b, u, v));
        } else if b == l && a != l {
            assert(edge_between(s1, a, u, v));
        }
    }
    assert forall|a: int, b: int, x: usize, y: usize| #[trigger] edge_between(s2, a, x, y)
        && #[trigger] edge_between(s2, b, y, x) implies a == b by {
        if a != l && b != l {
            assert(edge_between(s1, a, x, y) && edge_between(s1, b, y, x));
        } else if a == l && b != l {
            assert(edge_between(s1, b, v, u));
        } else if b == l && a != l {
            assert(edge_between(s1, a, v, u));
        }
    }
}

impl<A, W, Ty: GraphConstructor> BaseGraph<A, W, Ty> {
    /// Whether some edge joins `u` and `v`, either way round.
    pub fn joined_either_way(&self, u: NodeId, v: NodeId) -> (b: bool)
        ensures
            b == either_way(self.edge_slots(), u.0, v.0),
    {
        let a = self.find_edge(u, v);
        let b = self.find_edge(v, u);
        proof {
            if a is Some {
                assert(edge_between(self.edge_slots(), a.unwrap().0 as int, u.0, v.0));
            }
            if b is Some {
                assert(edge_between(self.edge_slots(), b.unwrap().0 as int, v.0, u.0));
            }
        }
        a.is_some() || b.is_some()
    }

    /// The first edge from `u` to `v`, as `find_first` describes it.
    pub fn first_edge(&self, u: NodeId, v: NodeId) -> (r: Option<EdgeId>)
        ensures
            r is Some <==> find_first(self.edge_slots(), u.0, v.0, 0) is Some,
            r is Some ==> r.unwrap().0 as int == find_first(self.edge_slots(), u.0, v.0, 0).unwrap(),
    {
        let r = self.find_edge(u, v);
        proof {
            match r {
                Some(e) => lemma_find_first(self.edge_slots(), u.0, v.0, 0, Some(e.0 as int)),
                None => lemma_find_first(self.edge_slots(), u.0, v.0, 0, None),
            }
        }
        r
    }
}

/// The first free target among `draws`, at most `limit` of them looked at,
/// or `nbr` when there is none (`rewire_choice`).
pub fn choose_rewire_target<A, W, Ty: GraphConstructor>(graph: &BaseGraph<A, W, Ty>, n: usize, i: usize, nbr: usize,
    draws: &Vec<usize>, limit: usize) -> (t: usize)
    ensures
        t == rewire_choice(graph.edge_slots(), n as int, i, nbr, draws@, limit as int),
{
    let m = if draws.len() < limit { draws.len() } else { limit };
    let mut x: usize = 0;
    while x < m
        invariant
            x <= m,
            m as int == if draws@.len() < limit { draws@.len() as int } else { limit as int },
            m <= draws@.len(),
            first_free(graph.edge_slots(), n as int, i, nbr, draws@, x as int) is None,
        decreases m - x,
    {
        let t = draws[x];
        if t < n && t != i && t != nbr && !graph.joined_either_way(NodeId(i), NodeId(t)) {
            proof {
                lemma_first_free_stays(graph.edge_slots(), n as int, i, nbr, draws@, x as int + 1, m as int, t);
            }
            return t;
        }
        x = x + 1;
    }
    nbr
}

/// Once a free target is found, looking at more draws keeps it.
pub proof fn lemma_first_free_stays<W>(slots: Seq<Option<(usize, usize, W)>>, n: int, i: usize, nbr: usize,
    draws: Seq<usize>, a: int, b: int, t: usize)
    requires
        0 < a <= b,
        first_free(slots, n, i, nbr, draws, a) == Some(t),
    ensures
        first_free(slots, n, i, nbr, draws, b) == Some(t),
    decreases b - a,
{
    if b > a {
        lemma_first_free_stays(slots, n, i, nbr, draws, a, b - 1, t);
    }
}

} // verus!
