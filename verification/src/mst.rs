//! Spanning forests: a union–find structure and the cycle-free selection of
//! edges at the heart of Kruskal's and Borůvka's algorithms. Edges are taken
//! in the order the caller gives (by weight, for a minimum spanning tree);
//! comparing and adding the weights themselves happens outside the library.

use vstd::prelude::*;
use crate::error::GraphinaError;
use crate::types::{BaseGraph, EdgeId, GraphConstructor, NodeId, count_live, count_true, lemma_live_indices, live_indices};
use crate::walks::{connects, is_walk_in, lemma_closed_contains_connected, lemma_connects_refl,
    lemma_connects_step, lemma_connects_trans};

verus! {

/// The pairs, read as undirected links.
pub open spec fn linked(pairs: Seq<(usize, usize)>) -> spec_fn(usize, usize) -> bool {
    |a: usize, b: usize| exists|k: int| 0 <= k < pairs.len()
        && ((#[trigger] pairs[k]).0 == a && pairs[k].1 == b || pairs[k].0 == b && pairs[k].1 == a)
}

/// `a` and `b` are joined by a chain of the pairs (every node is joined to
/// itself).
pub open spec fn joined(pairs: Seq<(usize, usize)>, a: usize, b: usize) -> bool {
    connects(linked(pairs), a, b)
}

/// Walks along a relation stay walks along a larger one.
proof fn lemma_connects_mono(r1: spec_fn(usize, usize) -> bool, r2: spec_fn(usize, usize) -> bool, a: usize, b: usize)
    requires
        connects(r1, a, b),
        forall|x: usize, y: usize| #[trigger] r1(x, y) ==> r2(x, y),
    ensures
        connects(r2, a, b),
{
    let s = |x: usize| connects(r2, a, x);
    lemma_connects_refl(r2, a);
    assert forall|x: usize, y: usize| s(x) && #[trigger] r1(x, y) implies s(y) by {
        lemma_connects_step(r2, a, x, y);
    }
    lemma_closed_contains_connected(r1, s, a, b);
}

/// Joining with one more pair: `a` and `b` are joined exactly when they were
/// already, or one reaches `u` and the other `v`.
pub proof fn lemma_joined_push(pairs: Seq<(usize, usize)>, u: usize, v: usize, a: usize, b: usize)
    ensures
        joined(pairs.push((u, v)), a, b) <==> joined(pairs, a, b)
            || (joined(pairs, a, u) && joined(pairs, v, b))
            || (joined(pairs, a, v) && joined(pairs, u, b)),
{
    let p = pairs;
    let q = pairs.push((u, v));
    let lp = linked(p);
    let lq = linked(q);
    assert forall|x: usize, y: usize| #[trigger] lp(x, y) implies lq(x, y) by {
        let k = choose|k: int| 0 <= k < p.len() && ((#[trigger] p[k]).0 == x && p[k].1 == y || p[k].0 == y && p[k].1 == x);
        assert(q[k] == p[k]);
    }
    assert(lq(u, v)) by {
        assert(q[p.len() as int] == (u, v));
    }
    assert(lq(v, u)) by {
        assert(q[p.len() as int] == (u, v));
    }
    if joined(q, a, b) {
        let s = |x: usize| joined(p, a, x) || (joined(p, a, u) && joined(p, v, x)) || (joined(p, a, v) && joined(p, u, x));
        lemma_connects_refl(lp, a);
        assert forall|x: usize, y: usize| s(x) && #[trigger] lq(x, y) implies s(y) by {
            let k = choose|k: int| 0 <= k < q.len() && ((#[trigger] q[k]).0 == x && q[k].1 == y || q[k].0 == y && q[k].1 == x);
            if k < p.len() {
                assert(q[k] == p[k]);
                assert(lp(x, y));
                if joined(p, a, x) {
                    lemma_connects_step(lp, a, x, y);
                }
                if joined(p, a, u) && joined(p, v, x) {
                    lemma_connects_step(lp, v, x, y);
                }
                if joined(p, a, v) && joined(p, u, x) {
                    lemma_connects_step(lp, u, x, y);
                }
            } else {
                assert(q[k] == (u, v));
                lemma_connects_refl(lp, u);
                lemma_connects_refl(lp, v);
            }
        }
        lemma_closed_contains_connected(lq, s, a, b);
    }
    if joined(p, a, b) {
        lemma_connects_mono(lp, lq, a, b);
    }
    if joined(p, a, u) && joined(p, v, b) {
        lemma_connects_mono(lp, lq, a, u);
        lemma_connects_mono(lp, lq, v, b);
        lemma_connects_step(lq, a, u, v);
        lemma_connects_trans(lq, a, v, b);
    }
    if joined(p, a, v) && joined(p, u, b) {
        lemma_connects_mono(lp, lq, a, v);
        lemma_connects_mono(lp, lq, u, b);
        lemma_connects_step(lq, a, v, u);
        lemma_connects_trans(lq, a, u, b);
    }
}

/// Without pairs, a node is joined only to itself.
proof fn lemma_joined_empty(a: usize, b: usize)
    ensures
        joined(Seq::<(usize, usize)>::empty(), a, b) <==> a == b,
{
    let l = linked(Seq::<(usize, usize)>::empty());
    if a == b {
        lemma_connects_refl(l, a);
    }
    if joined(Seq::<(usize, usize)>::empty(), a, b) {
        let w = choose|w: Seq<usize>| #[trigger] is_walk_in(l, w) && w[0] == a && w.last() == b;
        if w.len() > 1 {
            assert(l(w[0], w[1]));
        }
    }
}

/// `joined` is symmetric.
pub proof fn lemma_joined_sym(pairs: Seq<(usize, usize)>, a: usize, b: usize)
    requires
        joined(pairs, a, b),
    ensures
        joined(pairs, b, a),
{
    let l = linked(pairs);
    assert forall|x: usize, y: usize| #[trigger] l(x, y) implies l(y, x) by {
        let k = choose|k: int| 0 <= k < pairs.len() && ((#[trigger] pairs[k]).0 == x && pairs[k].1 == y || pairs[k].0 == y && pairs[k].1 == x);
    }
    crate::walks::lemma_connects_sym(l, a, b);
}

/// `root_of` after the set whose representative is `loser` is hung under
/// the representative `winner`.
spec fn hang(root_of: Seq<usize>, loser: usize, winner: usize) -> Seq<usize> {
    Seq::new(root_of.len(), |x: int| if root_of[x] == loser { winner } else { root_of[x] })
}

/// A disjoint-set forest with path compression and union by rank. Besides
/// the parent links it keeps, as ghost state, the representative of each
/// element and a distance that strictly falls along parent links.
struct UnionFind {
    parent: Vec<usize>,
    rank: Vec<usize>,
    root_of: Ghost<Seq<usize>>,
    dist: Ghost<Seq<nat>>,
    merges: Ghost<nat>,
}

/// Which elements are representatives.
spec fn root_marks(root_of: Seq<usize>) -> Seq<bool> {
    Seq::new(root_of.len(), |i: int| root_of[i] == i)
}

/// A marked entry is counted.
proof fn lemma_count_true_pos(s: Seq<bool>, k: int)
    requires
        0 <= k < s.len(),
        s[k],
    ensures
        count_true(s) == count_true(s.update(k, false)) + 1,
{
    let t = s.update(k, false);
    crate::types::lemma_count_true_set(t, k);
    assert(t.update(k, true) =~= s);
}

impl UnionFind {
    /// Number of elements.
    spec fn size(&self) -> nat {
        self.parent@.len()
    }

    /// The representative of `i`.
    spec fn rep(&self, i: usize) -> usize {
        self.root_of@[i as int]
    }

    /// `a` and `b` are in the same set.
    spec fn same(&self, a: usize, b: usize) -> bool {
        self.rep(a) == self.rep(b)
    }

    spec fn wf(&self) -> bool {
        let n = self.parent@.len();
        &&& self.rank@.len() == n
        &&& self.root_of@.len() == n
        &&& self.dist@.len() == n
        &&& forall|i: int| 0 <= i < n ==> {
            &&& (#[trigger] self.parent@[i]) < n
            &&& self.root_of@[i] < n
            &&& self.root_of@[self.root_of@[i] as int] == self.root_of@[i]
            &&& (self.parent@[i] == i <==> self.root_of@[i] == i)
            &&& (self.root_of@[i] == i ==> self.dist@[i] == 0)
            &&& (self.parent@[i] != i ==> self.root_of@[self.parent@[i] as int] == self.root_of@[i]
                && self.dist@[self.parent@[i] as int] < self.dist@[i])
            &&& self.rank@[i] <= self.merges@
        }
        &&& count_true(root_marks(self.root_of@)) + self.merges@ == n
    }

    /// `n` singleton sets.
    fn new(n: usize) -> (uf: Self)
        ensures
            uf.wf(),
            uf.size() == n,
            forall|i: usize| i < n ==> #[trigger] uf.rep(i) == i,
    {
        let mut parent: Vec<usize> = Vec::new();
        let mut rank: Vec<usize> = Vec::new();
        let mut k: usize = 0;
        while k < n
            invariant
                k <= n,
                parent@.len() == k,
                rank@.len() == k,
                forall|i: int| 0 <= i < k ==> #[trigger] parent@[i] == i && rank@[i] == 0,
            decreases n - k,
        {
            parent.push(k);
            rank.push(0);
            k = k + 1;
        }
        let ghost roots = Seq::new(n as nat, |i: int| i as usize);
        let uf = UnionFind {
            parent,
            rank,
            root_of: Ghost(roots),
            dist: Ghost(Seq::new(n as nat, |i: int| 0nat)),
            merges: Ghost(0nat),
        };
        proof {
            assert(root_marks(roots) =~= Seq::new(n as nat, |i: int| true));
            lemma_count_all_true(n as nat);
        }
        uf
    }

    /// The representative of `i`; compresses the path from `i`.
    fn find(&mut self, i: usize) -> (r: usize)
        requires
            old(self).wf(),
            i < old(self).size(),
        ensures
            final(self).wf(),
            r == old(self).rep(i),
            final(self).size() == old(self).size(),
            final(self).root_of@ == old(self).root_of@,
            final(self).merges@ == old(self).merges@,
            final(self).rank@ == old(self).rank@,
        decreases old(self).dist@[i as int],
    {
        let p = self.parent[i];
        if p != i {
            assert(self.parent@[i as int] != i);
            let r = self.find(p);
            let ghost mid_parent = self.parent@;
            let ghost mid_dist = self.dist@;
            proof {
                assert(mid_parent[i as int] < mid_parent.len());
                assert(mid_parent[i as int] != i);
                assert(mid_dist[i as int] >= 1);
                assert(self.root_of@[r as int] == r);
            }
            self.parent.set(i, r);
            self.dist = Ghost(self.dist@.update(i as int, 1nat));
            proof {
                let n = self.parent@.len();
                assert forall|x: int| 0 <= x < n implies (#[trigger] self.parent@[x]) < n
                    && (self.parent@[x] == x <==> self.root_of@[x] == x) by {
                    assert(mid_parent[x] < n);
                }
                assert forall|x: int| 0 <= x < n && self.root_of@[x] == x implies #[trigger] self.dist@[x] == 0 by {
                    if x != i as int {
                        assert(mid_parent[x] < n);
                        assert(self.dist@[x] == mid_dist[x]);
                    }
                }
                assert forall|x: int| 0 <= x < n && #[trigger] self.parent@[x] != x implies
                    self.root_of@[self.parent@[x] as int] == self.root_of@[x]
                    && self.dist@[self.parent@[x] as int] < self.dist@[x] by {
                    if x != i as int {
                        assert(self.parent@[x] == mid_parent[x]);
                        assert(self.dist@[x] == mid_dist[x]);
                        if mid_parent[x] == i {
                            assert(mid_dist[i as int] < mid_dist[x]);
                        } else {
                            assert(self.dist@[mid_parent[x] as int] == mid_dist[mid_parent[x] as int]);
                        }
                    }
                }
                assert forall|x: int| 0 <= x < n implies #[trigger] self.rank@[x] <= self.merges@ by {
                    assert(mid_parent[x] < n);
                }
                assert(root_marks(self.root_of@) == root_marks(old(self).root_of@));
            }
            r
        } else {
            i
        }
    }

    /// Merges the sets of `i` and `j`, hanging the root of lower rank under
    /// the other (on a tie, `j`'s root under `i`'s, whose rank grows).
    fn union(&mut self, i: usize, j: usize)
        requires
            old(self).wf(),
            i < old(self).size(),
            j < old(self).size(),
        ensures
            final(self).wf(),
            final(self).size() == old(self).size(),
            forall|a: usize, b: usize| a < old(self).size() && b < old(self).size() ==> (#[trigger] final(self).same(a, b)
                <==> old(self).same(a, b) || (old(self).same(a, i) && old(self).same(b, j))
                    || (old(self).same(a, j) && old(self).same(b, i))),
            old(self).same(i, j) ==> final(self).root_of@ == old(self).root_of@,
            !old(self).same(i, j) ==> final(self).root_of@ == hang(old(self).root_of@, old(self).rep(i), old(self).rep(j))
                || final(self).root_of@ == hang(old(self).root_of@, old(self).rep(j), old(self).rep(i)),
    {
        let ri = self.find(i);
        let rj = self.find(j);
        if ri == rj {
            return;
        }
        let n = self.parent.len();
        let ghost ro = self.root_of@;
        proof {
            assert(self.parent@[i as int] < n);
            assert(self.parent@[j as int] < n);
            assert(self.parent@[ri as int] < n);
            assert(self.parent@[rj as int] < n);
            assert(ro[ri as int] == ri && ro[rj as int] == rj);
        }
        if self.rank[ri] < self.rank[rj] {
            self.link(ri, rj, false);
        } else if self.rank[ri] > self.rank[rj] {
            self.link(rj, ri, false);
        } else {
            self.link(rj, ri, true);
        }
    }

    /// Hangs the root `loser` under the root `winner`, raising the winner's
    /// rank when asked.
    fn link(&mut self, loser: usize, winner: usize, bump: bool)
        requires
            old(self).wf(),
            loser < old(self).size(),
            winner < old(self).size(),
            loser != winner,
            old(self).rep(loser) == loser,
            old(self).rep(winner) == winner,
        ensures
            final(self).wf(),
            final(self).size() == old(self).size(),
            forall|a: usize, b: usize| a < old(self).size() && b < old(self).size() ==> (#[trigger] final(self).same(a, b)
                <==> old(self).same(a, b) || (old(self).same(a, loser) && old(self).same(b, winner))
                    || (old(self).same(a, winner) && old(self).same(b, loser))),
            final(self).root_of@ == hang(old(self).root_of@, loser, winner),
    {
        let nn = self.parent.len();
        let ghost n = self.parent@.len();
        let ghost ro = self.root_of@;
        let ghost d = self.dist@;
        let ghost m = self.merges@;
        proof {
            let marks = root_marks(ro);
            let marks2 = root_marks(Seq::new(n, |x: int| if ro[x] == loser { winner } else { ro[x] }));
            assert(marks[loser as int]);
            lemma_count_true_pos(marks, loser as int);
            assert(marks2 =~= marks.update(loser as int, false)) by {
                assert forall|x: int| 0 <= x < n implies marks2[x] == marks.update(loser as int, false)[x] by {
                    assert(self.parent@[x] < n);
                }
            }
            assert(marks2[winner as int]);
            lemma_count_true_pos(marks2, winner as int);
            assert(self.parent@[winner as int] < n);
            assert(self.rank@[winner as int] <= m);
            assert(m + 2 <= nn);
        }
        self.parent.set(loser, winner);
        if bump {
            let r = self.rank[winner];
            self.rank.set(winner, r + 1);
        }
        self.root_of = Ghost(Seq::new(n, |x: int| if ro[x] == loser { winner } else { ro[x] }));
        self.dist = Ghost(Seq::new(n, |x: int| if ro[x] == loser { d[x] + 1 } else { d[x] }));
        self.merges = Ghost(m + 1);
        proof {
            assert(self.root_of@ =~= hang(ro, loser, winner));
            assert forall|x: int| 0 <= x < n implies {
                &&& (#[trigger] self.parent@[x]) < n
                &&& self.root_of@[x] < n
                &&& self.root_of@[self.root_of@[x] as int] == self.root_of@[x]
                &&& (self.parent@[x] == x <==> self.root_of@[x] == x)
                &&& (self.root_of@[x] == x ==> self.dist@[x] == 0)
                &&& (self.parent@[x] != x ==> self.root_of@[self.parent@[x] as int] == self.root_of@[x]
                    && self.dist@[self.parent@[x] as int] < self.dist@[x])
                &&& self.rank@[x] <= self.merges@
            } by {
                assert(old(self).parent@[x] < n);
                if x != loser as int {
                    assert(self.parent@[x] == old(self).parent@[x]);
                    let px = old(self).parent@[x] as int;
                    assert(old(self).parent@[px] < n);
                }
            }
        }
    }
}

/// `count_true` of an all-`true` sequence.
proof fn lemma_count_all_true(n: nat)
    ensures
        count_true(Seq::new(n, |i: int| true)) == n,
    decreases n,
{
    if n > 0 {
        assert(Seq::new(n, |i: int| true).drop_last() =~= Seq::new((n - 1) as nat, |i: int| true));
        lemma_count_all_true((n - 1) as nat);
    }
}

/// An edge of a spanning tree.
#[derive(Debug, Clone, Copy)]
pub struct MstEdge<W> {
    pub u: NodeId,
    pub v: NodeId,
    pub weight: W,
}

/// The positions Kruskal's rule picks from `pairs`, scanned in order: a pair
/// is picked exactly when the pairs picked before it do not already join its
/// ends.
pub open spec fn greedy_picks(pairs: Seq<(usize, usize)>) -> Seq<int>
    decreases pairs.len(),
{
    if pairs.len() == 0 {
        Seq::empty()
    } else {
        let prev = greedy_picks(pairs.drop_last());
        let e = pairs.last();
        if joined(prev.map_values(|k: int| pairs[k]), e.0, e.1) {
            prev
        } else {
            prev.push(pairs.len() - 1)
        }
    }
}

/// The pairs at the picked positions.
pub open spec fn picked(pairs: Seq<(usize, usize)>) -> Seq<(usize, usize)> {
    greedy_picks(pairs).map_values(|k: int| pairs[k])
}

/// The endpoints of the edges `order`, in order.
pub open spec fn edge_pairs<A, W, Ty: GraphConstructor>(g: BaseGraph<A, W, Ty>, order: Seq<EdgeId>) -> Seq<(usize, usize)> {
    order.map_values(|e: EdgeId| (g.src(e.0 as int), g.tgt(e.0 as int)))
}

/// The message for a spanning tree of an empty graph.
pub open spec fn empty_mst_message() -> Seq<char> {
    "Graph is empty, cannot compute MST."@
}

/// Picks are increasing positions of `pairs`.
pub proof fn lemma_greedy_picks_bound(pairs: Seq<(usize, usize)>)
    ensures
        forall|t: int| 0 <= t < greedy_picks(pairs).len() ==> 0 <= #[trigger] greedy_picks(pairs)[t] < pairs.len(),
        greedy_picks(pairs).len() <= pairs.len(),
    decreases pairs.len(),
{
    if pairs.len() > 0 {
        lemma_greedy_picks_bound(pairs.drop_last());
    }
}

/// `result` lists the edges that the greedy rule picks from `cands`, in
/// order: ends and weight of each picked edge.
pub open spec fn forest_from<A, W, Ty: GraphConstructor>(g: BaseGraph<A, W, Ty>, cands: Seq<EdgeId>, result: Seq<MstEdge<W>>) -> bool {
    let pairs = edge_pairs(g, cands);
    let picks = greedy_picks(pairs);
    &&& result.len() == picks.len()
    &&& forall|t: int| 0 <= t < picks.len() ==> (#[trigger] result[t]).u.0 == pairs[picks[t]].0
        && result[t].v.0 == pairs[picks[t]].1
        && result[t].weight == g.weight(cands[picks[t]].0 as int)
}

/// The union–find state mirrors the greedy forest of `cands`: two slots share
/// a set exactly when the picked edges join them.
spec fn forest_state<A, W, Ty: GraphConstructor>(g: BaseGraph<A, W, Ty>, uf: UnionFind, result: Seq<MstEdge<W>>, cands: Seq<EdgeId>) -> bool {
    &&& uf.wf()
    &&& uf.size() == g.node_slots().len()
    &&& forall|a: usize, b: usize| a < uf.size() && b < uf.size() ==> (#[trigger] uf.same(a, b)
        <==> joined(picked(edge_pairs(g, cands)), a, b))
    &&& forest_from(g, cands, result)
    &&& forall|k: int| 0 <= k < cands.len() ==> g.has_edge(#[trigger] cands[k].0 as int)
}

/// The greedy forest of no edges.
fn empty_forest<A, W, Ty: GraphConstructor>(g: &BaseGraph<A, W, Ty>) -> (r: (UnionFind, Vec<MstEdge<W>>))
    requires
        g.wf(),
    ensures
        forest_state(*g, r.0, r.1@, Seq::empty()),
        forall|i: usize| i < r.0.size() ==> #[trigger] r.0.rep(i) == i,
{
    let uf = UnionFind::new(g.node_bound());
    let result: Vec<MstEdge<W>> = Vec::new();
    proof {
        let pairs = edge_pairs(*g, Seq::<EdgeId>::empty());
        assert(pairs =~= Seq::<(usize, usize)>::empty());
        assert(picked(pairs) =~= Seq::<(usize, usize)>::empty());
        assert forall|a: usize, b: usize| a < uf.size() && b < uf.size() implies (#[trigger] uf.same(a, b)
            <==> joined(picked(pairs), a, b)) by {
            lemma_joined_empty(a, b);
        }
    }
    (uf, result)
}

/// Offers edge `e` to the greedy forest: it is taken, and the sets of its
/// ends merged, exactly when its ends are not yet in one set.
fn take_edge<A, W: Copy, Ty: GraphConstructor>(g: &BaseGraph<A, W, Ty>, uf: &mut UnionFind,
    result: &mut Vec<MstEdge<W>>, e: EdgeId, Ghost(cands): Ghost<Seq<EdgeId>>) -> (taken: bool)
    requires
        g.wf(),
        g.has_edge(e.0 as int),
        forest_state(*g, *old(uf), old(result)@, cands),
    ensures
        forest_state(*g, *final(uf), final(result)@, cands.push(e)),
        taken <==> !old(uf).same(g.src(e.0 as int), g.tgt(e.0 as int)),
        !taken ==> final(uf).root_of@ == old(uf).root_of@,
        taken ==> final(uf).root_of@ == hang(old(uf).root_of@, old(uf).rep(g.src(e.0 as int)), old(uf).rep(g.tgt(e.0 as int)))
            || final(uf).root_of@ == hang(old(uf).root_of@, old(uf).rep(g.tgt(e.0 as int)), old(uf).rep(g.src(e.0 as int))),
{
    let (u, v) = g.edge_endpoints(e).unwrap();
    let w = *g.edge_weight(e).unwrap();
    let bound = g.node_bound();
    let ghost pre = edge_pairs(*g, cands);
    let ghost post = edge_pairs(*g, cands.push(e));
    let ghost prev = picked(pre);
    proof {
        assert(g.has_node(u.0 as int) && g.has_node(v.0 as int));
        assert(post.drop_last() =~= pre);
        assert(post.last() == (u.0, v.0));
        lemma_greedy_picks_bound(pre);
        assert(greedy_picks(pre).map_values(|t: int| post[t]) =~= prev);
    }
    let ghost uf0 = *uf;
    proof {
        assert(uf0.same(u.0, v.0) <==> joined(prev, u.0, v.0));
    }
    let ru = uf.find(u.0);
    let rv = uf.find(v.0);
    proof {
        assert(uf.parent@[u.0 as int] < bound);
        assert(uf.parent@[v.0 as int] < bound);
        assert forall|a: usize, b: usize| a < bound && b < bound implies (#[trigger] uf.same(a, b)
            <==> joined(prev, a, b)) by {
            assert(uf0.same(a, b) <==> joined(prev, a, b));
        }
    }
    if ru != rv {
        proof {
            assert(!uf.same(u.0, v.0));
            assert(!joined(prev, u.0, v.0));
            assert(greedy_picks(post) == greedy_picks(pre).push(cands.len() as int));
            assert(picked(post) =~= prev.push((u.0, v.0)));
        }
        let ghost uf1 = *uf;
        proof {
            assert(uf1.rep(ru) == ru && uf1.rep(rv) == rv);
        }
        uf.union(ru, rv);
        result.push(MstEdge { u, v, weight: w });
        proof {
            assert forall|a: usize, b: usize| a < bound && b < bound implies (#[trigger] uf.same(a, b)
                <==> joined(picked(post), a, b)) by {
                assert(uf1.same(a, ru) <==> uf1.same(a, u.0));
                assert(uf1.same(b, rv) <==> uf1.same(b, v.0));
                assert(uf1.same(a, rv) <==> uf1.same(a, v.0));
                assert(uf1.same(b, ru) <==> uf1.same(b, u.0));
                assert(uf1.same(a, u.0) <==> joined(prev, a, u.0));
                assert(uf1.same(a, v.0) <==> joined(prev, a, v.0));
                assert(uf1.same(b, u.0) <==> joined(prev, b, u.0));
                assert(uf1.same(b, v.0) <==> joined(prev, b, v.0));
                assert(uf1.same(a, b) <==> joined(prev, a, b));
                lemma_joined_push(prev, u.0, v.0, a, b);
                if joined(prev, b, v.0) {
                    lemma_joined_sym(prev, b, v.0);
                }
                if joined(prev, v.0, b) {
                    lemma_joined_sym(prev, v.0, b);
                }
                if joined(prev, b, u.0) {
                    lemma_joined_sym(prev, b, u.0);
                }
                if joined(prev, u.0, b) {
                    lemma_joined_sym(prev, u.0, b);
                }
            }
            let picks = greedy_picks(post);
            assert forall|t: int| 0 <= t < picks.len() implies (#[trigger] result@[t]).u.0 == post[picks[t]].0
                && result@[t].v.0 == post[picks[t]].1
                && result@[t].weight == g.weight(cands.push(e)[picks[t]].0 as int) by {
                if t < picks.len() - 1 {
                    assert(picks[t] == greedy_picks(pre)[t]);
                    assert(cands.push(e)[picks[t]] == cands[picks[t]]);
                }
            }
            assert forall|k: int| 0 <= k < cands.push(e).len() implies g.has_edge(#[trigger] cands.push(e)[k].0 as int) by {
                if k < cands.len() {
                    assert(cands.push(e)[k] == cands[k]);
                }
            }
        }
        true
    } else {
        proof {
            assert(joined(prev, u.0, v.0));
            assert(greedy_picks(post) == greedy_picks(pre));
            assert(picked(post) =~= prev);
            let picks = greedy_picks(post);
            assert forall|t: int| 0 <= t < picks.len() implies (#[trigger] result@[t]).u.0 == post[picks[t]].0
                && result@[t].v.0 == post[picks[t]].1
                && result@[t].weight == g.weight(cands.push(e)[picks[t]].0 as int) by {
                assert(cands.push(e)[picks[t]] == cands[picks[t]]);
            }
            assert forall|k: int| 0 <= k < cands.push(e).len() implies g.has_edge(#[trigger] cands.push(e)[k].0 as int) by {
                if k < cands.len() {
                    assert(cands.push(e)[k] == cands[k]);
                }
            }
        }
        false
    }
}

/// Kruskal's selection over the edges `order` (the caller sorts them by
/// weight): each edge is taken exactly when the edges taken before it do not
/// already join its ends, so the result is a spanning forest of those edges.
/// Fails on a graph without nodes.
pub fn kruskal_mst<A, W: Copy, Ty: GraphConstructor>(graph: &BaseGraph<A, W, Ty>, order: &Vec<EdgeId>)
    -> (r: Result<Vec<MstEdge<W>>, GraphinaError>)
    requires
        graph.wf(),
        forall|k: int| 0 <= k < order@.len() ==> graph.has_edge(#[trigger] order@[k].0 as int),
    ensures
        r is Err <==> graph.spec_node_count() == 0,
        r is Err ==> r->Err_0 is InvalidGraph && r->Err_0->InvalidGraph_0@ == empty_mst_message(),
        r is Ok ==> forest_from(*graph, order@, r->Ok_0@),
{
    if graph.node_count() == 0 {
        return Err(GraphinaError::invalid_graph("Graph is empty, cannot compute MST."));
    }
    let (mut uf, mut result) = empty_forest(graph);
    proof {
        assert(order@.take(0) =~= Seq::<EdgeId>::empty());
    }
    let mut k: usize = 0;
    while k < order.len()
        invariant
            graph.wf(),
            forall|q: int| 0 <= q < order@.len() ==> graph.has_edge(#[trigger] order@[q].0 as int),
            k <= order@.len(),
            forest_state(*graph, uf, result@, order@.take(k as int)),
        decreases order@.len() - k,
    {
        let e = order[k];
        proof {
            assert(graph.has_edge(order@[k as int].0 as int));
        }
        take_edge(graph, &mut uf, &mut result, e, Ghost(order@.take(k as int)));
        proof {
            assert(order@.take(k as int).push(e) =~= order@.take(k as int + 1));
        }
        k = k + 1;
    }
    proof {
        assert(order@.take(order@.len() as int) =~= order@);
    }
    Ok(result)
}

/// Which slots are nodes that represent their own set.
spec fn live_roots<A, W, Ty: GraphConstructor>(g: BaseGraph<A, W, Ty>, root_of: Seq<usize>) -> Seq<bool> {
    Seq::new(root_of.len(), |x: int| g.has_node(x) && root_of[x] == x)
}

/// Nodes are only ever grouped with nodes: a node's representative is a
/// node, and an empty slot stays alone.
spec fn nodes_closed<A, W, Ty: GraphConstructor>(g: BaseGraph<A, W, Ty>, root_of: Seq<usize>) -> bool {
    forall|x: int| 0 <= x < root_of.len() ==> (g.has_node(x) ==> g.has_node(#[trigger] root_of[x] as int))
        && (!g.has_node(x) ==> root_of[x] == x)
}

/// Every entry names a representative.
spec fn roots_fixed(root_of: Seq<usize>) -> bool {
    forall|x: int| 0 <= x < root_of.len() ==> (#[trigger] root_of[x]) < root_of.len()
        && root_of[root_of[x] as int] == root_of[x]
}

/// The edge at position `k` of `edges` has its ends in two sets.
spec fn crosses<A, W, Ty: GraphConstructor>(g: BaseGraph<A, W, Ty>, roots: Seq<usize>, edges: Seq<EdgeId>, k: int) -> bool {
    roots[g.src(edges[k].0 as int) as int] != roots[g.tgt(edges[k].0 as int) as int]
}

/// The edge at position `k` leaves the set represented by `r`.
spec fn leaves<A, W, Ty: GraphConstructor>(g: BaseGraph<A, W, Ty>, roots: Seq<usize>, edges: Seq<EdgeId>, k: int, r: usize) -> bool {
    crosses(g, roots, edges, k)
        && (roots[g.src(edges[k].0 as int) as int] == r || roots[g.tgt(edges[k].0 as int) as int] == r)
}

/// Marking the existing slots counts the existing slots.
proof fn lemma_count_live_marks<T>(s: Seq<Option<T>>)
    ensures
        count_true(Seq::new(s.len(), |i: int| s[i] is Some)) == count_live(s),
    decreases s.len(),
{
    if s.len() > 0 {
        let p = s.drop_last();
        lemma_count_live_marks(p);
        assert(Seq::new(s.len(), |i: int| s[i] is Some).drop_last() =~= Seq::new(p.len(), |i: int| p[i] is Some));
    }
}

/// Two marked entries make a count of at least two.
proof fn lemma_count_two(s: Seq<bool>, i: int, j: int)
    requires
        0 <= i < s.len(),
        0 <= j < s.len(),
        i != j,
        s[i],
        s[j],
    ensures
        count_true(s) >= 2,
{
    lemma_count_true_pos(s, i);
    let t = s.update(i, false);
    lemma_count_true_pos(t, j);
}

/// With fewer than two live representatives, all nodes share one set.
proof fn lemma_one_root<A, W, Ty: GraphConstructor>(g: BaseGraph<A, W, Ty>, root_of: Seq<usize>, x: int, y: int)
    requires
        nodes_closed(g, root_of),
        roots_fixed(root_of),
        count_true(live_roots(g, root_of)) < 2,
        0 <= x < root_of.len(),
        0 <= y < root_of.len(),
        g.has_node(x),
        g.has_node(y),
    ensures
        root_of[x] == root_of[y],
{
    let rx = root_of[x];
    let ry = root_of[y];
    assert(g.has_node(rx as int) && g.has_node(ry as int));
    if rx != ry {
        lemma_count_two(live_roots(g, root_of), rx as int, ry as int);
    }
}

/// Hanging one live representative under another keeps nodes with nodes
/// and removes one live representative.
proof fn lemma_hang_live<A, W, Ty: GraphConstructor>(g: BaseGraph<A, W, Ty>, root_of: Seq<usize>, loser: usize, winner: usize)
    requires
        nodes_closed(g, root_of),
        roots_fixed(root_of),
        loser < root_of.len(),
        winner < root_of.len(),
        loser != winner,
        root_of[loser as int] == loser,
        root_of[winner as int] == winner,
        g.has_node(loser as int),
        g.has_node(winner as int),
    ensures
        nodes_closed(g, hang(root_of, loser, winner)),
        roots_fixed(hang(root_of, loser, winner)),
        count_true(live_roots(g, hang(root_of, loser, winner))) + 1 == count_true(live_roots(g, root_of)),
{
    let h = hang(root_of, loser, winner);
    let m = live_roots(g, root_of);
    assert(live_roots(g, h) =~= m.update(loser as int, false));
    lemma_count_true_pos(m, loser as int);
}

/// The representative of every slot, in slot order.
fn root_table(uf: &mut UnionFind) -> (roots: Vec<usize>)
    requires
        old(uf).wf(),
    ensures
        final(uf).wf(),
        final(uf).size() == old(uf).size(),
        final(uf).root_of@ == old(uf).root_of@,
        roots@ == old(uf).root_of@,
{
    let n = uf.parent.len();
    let ghost ro = uf.root_of@;
    let mut roots: Vec<usize> = Vec::new();
    let mut i: usize = 0;
    while i < n
        invariant
            uf.wf(),
            uf.size() == n,
            uf.root_of@ == ro,
            ro.len() == n,
            i <= n,
            roots@ == ro.take(i as int),
        decreases n - i,
    {
        let r = uf.find(i);
        roots.push(r);
        proof {
            assert(roots@ =~= ro.take(i as int + 1));
        }
        i = i + 1;
    }
    proof {
        assert(ro.take(n as int) =~= ro);
    }
    roots
}

/// For every set, the position in `edges` of the lightest edge leaving it,
/// lightest by `rank`, the earliest among equals; `None` for a set that no
/// edge leaves.
fn cheapest_edges<A, W, Ty: GraphConstructor>(g: &BaseGraph<A, W, Ty>, edges: &Vec<EdgeId>, roots: &Vec<usize>,
    rank: &Vec<u64>) -> (acc: Vec<Option<usize>>)
    requires
        g.wf(),
        roots@.len() == g.node_slots().len(),
        forall|x: int| 0 <= x < roots@.len() ==> #[trigger] roots@[x] < roots@.len(),
        forall|k: int| 0 <= k < edges@.len() ==> g.has_edge(#[trigger] edges@[k].0 as int),
        rank@.len() == g.edge_slots().len(),
    ensures
        acc@.len() == roots@.len(),
        forall|r: int| 0 <= r < acc@.len() && (#[trigger] acc@[r]) is Some ==> {
            let c = acc@[r].unwrap() as int;
            &&& 0 <= c < edges@.len()
            &&& leaves(*g, roots@, edges@, c, r as usize)
            &&& forall|k: int| 0 <= k < edges@.len() && leaves(*g, roots@, edges@, k, r as usize) ==>
                rank@[edges@[c].0 as int] < rank@[#[trigger] edges@[k].0 as int]
                || (rank@[edges@[c].0 as int] == rank@[edges@[k].0 as int] && c <= k)
        },
        forall|k: int| 0 <= k < edges@.len() && crosses(*g, roots@, edges@, k) ==>
            (#[trigger] acc@[roots@[g.src(edges@[k].0 as int) as int] as int]) is Some
            && acc@[roots@[g.tgt(edges@[k].0 as int) as int] as int] is Some,
{
    let n = roots.len();
    let mut acc: Vec<Option<usize>> = Vec::new();
    let mut i: usize = 0;
    while i < n
        invariant
            i <= n,
            n == roots@.len(),
            acc@.len() == i,
            forall|r: int| 0 <= r < i ==> (#[trigger] acc@[r]) is None,
        decreases n - i,
    {
        acc.push(None);
        i = i + 1;
    }
    let mut k: usize = 0;
    while k < edges.len()
        invariant
            g.wf(),
            n == roots@.len(),
            roots@.len() == g.node_slots().len(),
            forall|x: int| 0 <= x < roots@.len() ==> #[trigger] roots@[x] < roots@.len(),
            forall|q: int| 0 <= q < edges@.len() ==> g.has_edge(#[trigger] edges@[q].0 as int),
            rank@.len() == g.edge_slots().len(),
            k <= edges@.len(),
            acc@.len() == n,
            forall|r: int| 0 <= r < n && (#[trigger] acc@[r]) is Some ==> {
                let c = acc@[r].unwrap() as int;
                &&& 0 <= c < k
                &&& leaves(*g, roots@, edges@, c, r as usize)
                &&& forall|q: int| 0 <= q < k && leaves(*g, roots@, edges@, q, r as usize) ==>
                    rank@[edges@[c].0 as int] < rank@[#[trigger] edges@[q].0 as int]
                    || (rank@[edges@[c].0 as int] == rank@[edges@[q].0 as int] && c <= q)
            },
            forall|r: int| 0 <= r < n && (#[trigger] acc@[r]) is None ==>
                forall|q: int| 0 <= q < k ==> !#[trigger] leaves(*g, roots@, edges@, q, r as usize),
        decreases edges@.len() - k,
    {
        let e = edges[k];
        let (u, v) = g.edge_endpoints(e).unwrap();
        proof {
            assert(g.has_edge(edges@[k as int].0 as int));
            assert(g.has_node(u.0 as int) && g.has_node(v.0 as int));
        }
        let ru = roots[u.0];
        let rv = roots[v.0];
        if ru != rv {
            let ghost acc0 = acc@;
            let ek = rank[e.0];
            let take_u = match acc[ru] {
                Some(c) => ek < rank[edges[c].0],
                None => true,
            };
            if take_u {
                acc.set(ru, Some(k));
            }
            let ghost acc1 = acc@;
            let take_v = match acc[rv] {
                Some(c) => ek < rank[edges[c].0],
                None => true,
            };
            if take_v {
                acc.set(rv, Some(k));
            }
            proof {
                assert(leaves(*g, roots@, edges@, k as int, ru));
                assert(leaves(*g, roots@, edges@, k as int, rv));
                assert forall|r: int| 0 <= r < n && (#[trigger] acc@[r]) is Some implies {
                    let c = acc@[r].unwrap() as int;
                    &&& 0 <= c < k + 1
                    &&& leaves(*g, roots@, edges@, c, r as usize)
                    &&& forall|q: int| 0 <= q < k + 1 && leaves(*g, roots@, edges@, q, r as usize) ==>
                        rank@[edges@[c].0 as int] < rank@[#[trigger] edges@[q].0 as int]
                        || (rank@[edges@[c].0 as int] == rank@[edges@[q].0 as int] && c <= q)
                } by {
                    if r != ru as int && r != rv as int {
                        assert(acc@[r] == acc0[r]);
                        assert(!leaves(*g, roots@, edges@, k as int, r as usize));
                    }
                }
                assert forall|r: int| 0 <= r < n && (#[trigger] acc@[r]) is None implies
                    forall|q: int| 0 <= q < k + 1 ==> !#[trigger] leaves(*g, roots@, edges@, q, r as usize) by {
                    assert(r != ru as int && r != rv as int);
                    assert(acc@[r] == acc0[r]);
                }
            }
        } else {
            proof {
                assert forall|r: int| 0 <= r < n implies !#[trigger] leaves(*g, roots@, edges@, k as int, r as usize) by {}
            }
        }
        k = k + 1;
    }
    proof {
        assert forall|q: int| 0 <= q < edges@.len() && crosses(*g, roots@, edges@, q) implies
            (#[trigger] acc@[roots@[g.src(edges@[q].0 as int) as int] as int]) is Some
            && acc@[roots@[g.tgt(edges@[q].0 as int) as int] as int] is Some by {
            assert(g.has_edge(edges@[q].0 as int));
            let rs = roots@[g.src(edges@[q].0 as int) as int];
            let rt = roots@[g.tgt(edges@[q].0 as int) as int];
            assert(g.has_node(g.src(edges@[q].0 as int) as int));
            assert(g.has_node(g.tgt(edges@[q].0 as int) as int));
            assert(leaves(*g, roots@, edges@, q, rs));
            assert(leaves(*g, roots@, edges@, q, rt));
            assert(rs < n && rt < n);
            assert(k == edges@.len());
            if acc@[rs as int] is None {
                assert(forall|q2: int| 0 <= q2 < k ==> !#[trigger] leaves(*g, roots@, edges@, q2, (rs as int) as usize));
                assert(!leaves(*g, roots@, edges@, q, (rs as int) as usize));
                assert((rs as int) as usize == rs);
            }
            if acc@[rt as int] is None {
                assert(forall|q2: int| 0 <= q2 < k ==> !#[trigger] leaves(*g, roots@, edges@, q2, (rt as int) as usize));
                assert(!leaves(*g, roots@, edges@, q, (rt as int) as usize));
                assert((rt as int) as usize == rt);
            }
        }
    }
    acc
}

/// Edge `e` leaves the set of nodes that `pairs` join to `x`: one of its
/// ends is joined to `x` and the other is not.
pub open spec fn leaves_class<A, W, Ty: GraphConstructor>(g: BaseGraph<A, W, Ty>, pairs: Seq<(usize, usize)>, x: usize,
    e: int) -> bool {
    &&& g.has_edge(e)
    &&& joined(pairs, x, g.src(e)) != joined(pairs, x, g.tgt(e))
}

/// Candidate `k` was chosen as a lightest edge (by `rank`) leaving one set of
/// the forest that the candidates before some position `b <= k` had built.
pub open spec fn lightest_leaving<A, W, Ty: GraphConstructor>(g: BaseGraph<A, W, Ty>, rank: Seq<u64>,
    cands: Seq<EdgeId>, k: int) -> bool {
    exists|b: int, x: usize| 0 <= b <= k
        && #[trigger] leaves_class(g, picked(edge_pairs(g, cands.take(b))), x, cands[k].0 as int)
        && forall|f: int| leaves_class(g, picked(edge_pairs(g, cands.take(b))), x, f)
            ==> rank[cands[k].0 as int] <= rank[f]
}

/// A candidate's choice stays justified when later candidates follow.
proof fn lemma_lightest_stable<A, W, Ty: GraphConstructor>(g: BaseGraph<A, W, Ty>, rank: Seq<u64>,
    cands: Seq<EdgeId>, e: EdgeId, k: int)
    requires
        0 <= k < cands.len(),
        lightest_leaving(g, rank, cands, k),
    ensures
        lightest_leaving(g, rank, cands.push(e), k),
{
    let (b, x) = choose|b: int, x: usize| 0 <= b <= k
        && #[trigger] leaves_class(g, picked(edge_pairs(g, cands.take(b))), x, cands[k].0 as int)
        && forall|f: int| leaves_class(g, picked(edge_pairs(g, cands.take(b))), x, f)
            ==> rank[cands[k].0 as int] <= rank[f];
    assert(cands.push(e).take(b) =~= cands.take(b));
    assert(cands.push(e)[k] == cands[k]);
    assert(leaves_class(g, picked(edge_pairs(g, cands.push(e).take(b))), x, cands.push(e)[k].0 as int));
}

/// Borůvka's rounds, with the weights given as `rank`, one entry per edge
/// slot (a lower rank is a lighter edge). Each round, every set of nodes
/// chooses the lightest edge leaving it (the earliest edge among equals);
/// the chosen edges, taken in the order of their sets, are kept unless the
/// edges kept before already join their ends. Rounds end when all nodes are
/// in one set or no edge leaves a set. The result is a spanning forest of
/// the graph: kept edges close no cycle, and the ends of every edge end up
/// joined; and every candidate was a lightest edge leaving its set at the
/// start of its round (`lightest_leaving`). Fails on a graph without nodes.
pub fn boruvka_mst<A, W: Copy, Ty: GraphConstructor>(graph: &BaseGraph<A, W, Ty>, rank: &Vec<u64>)
    -> (r: Result<Vec<MstEdge<W>>, GraphinaError>)
    requires
        graph.wf(),
        rank@.len() == graph.edge_slots().len(),
    ensures
        r is Err <==> graph.spec_node_count() == 0,
        r is Err ==> r->Err_0 is InvalidGraph && r->Err_0->InvalidGraph_0@ == empty_mst_message(),
        r is Ok ==> exists|cands: Seq<EdgeId>| #[trigger] forest_from(*graph, cands, r->Ok_0@)
            && (forall|k: int| 0 <= k < cands.len() ==> graph.has_edge(#[trigger] cands[k].0 as int))
            && (forall|e: int| #[trigger] graph.has_edge(e)
                ==> joined(picked(edge_pairs(*graph, cands)), graph.src(e), graph.tgt(e)))
            && forall|k: int| 0 <= k < cands.len() ==> #[trigger] lightest_leaving(*graph, rank@, cands, k),
{
    if graph.node_count() == 0 {
        return Err(GraphinaError::invalid_graph("Graph is empty, cannot compute MST."));
    }
    let bound = graph.node_bound();
    let edges = graph.edge_ids();
    let (mut uf, mut result) = empty_forest(graph);
    let ghost mut cands: Seq<EdgeId> = Seq::empty();
    let mut components = graph.node_count();
    proof {
        let slots = graph.edge_slots();
        lemma_live_indices(slots);
        assert forall|k: int| 0 <= k < edges@.len() implies graph.has_edge(#[trigger] edges@[k].0 as int) by {
            assert(edges@[k].0 == graph.spec_edge_ids()[k]);
        }
        assert forall|e: int| #[trigger] graph.has_edge(e) implies exists|k: int| 0 <= k < edges@.len() && edges@[k].0 == e by {
            assert(live_indices(slots).contains(e as usize));
            let k = choose|k: int| 0 <= k < live_indices(slots).len() && live_indices(slots)[k] == e as usize;
            assert(edges@[k].0 == e);
        }
        assert(uf.root_of@ =~= Seq::new(bound as nat, |x: int| x as usize)) by {
            assert forall|x: int| 0 <= x < bound implies uf.root_of@[x] == x as usize by {
                assert(uf.rep(x as usize) == x as usize);
            }
        }
        let nodes = graph.node_slots();
        assert(live_roots(*graph, uf.root_of@) =~= Seq::new(nodes.len(), |i: int| nodes[i] is Some));
        lemma_count_live_marks(nodes);
    }
    loop
        invariant
            graph.wf(),
            bound == graph.node_slots().len(),
            rank@.len() == graph.edge_slots().len(),
            forall|k: int| 0 <= k < edges@.len() ==> graph.has_edge(#[trigger] edges@[k].0 as int),
            forall|e: int| #[trigger] graph.has_edge(e) ==> exists|k: int| 0 <= k < edges@.len() && edges@[k].0 == e,
            forest_state(*graph, uf, result@, cands),
            nodes_closed(*graph, uf.root_of@),
            components == count_true(live_roots(*graph, uf.root_of@)),
            forall|k: int| 0 <= k < cands.len() ==> #[trigger] lightest_leaving(*graph, rank@, cands, k),
        ensures
            forest_state(*graph, uf, result@, cands),
            forall|e: int| #[trigger] graph.has_edge(e) ==> uf.same(graph.src(e), graph.tgt(e)),
            forall|k: int| 0 <= k < cands.len() ==> #[trigger] lightest_leaving(*graph, rank@, cands, k),
        decreases components,
    {
        if components <= 1 {
            proof {
                assert(roots_fixed(uf.root_of@)) by {
                    assert forall|x: int| 0 <= x < uf.root_of@.len() implies (#[trigger] uf.root_of@[x]) < uf.root_of@.len()
                        && uf.root_of@[uf.root_of@[x] as int] == uf.root_of@[x] by {
                        assert(uf.parent@[x] < bound);
                    }
                }
                assert forall|e: int| #[trigger] graph.has_edge(e) implies uf.same(graph.src(e), graph.tgt(e)) by {
                    assert(graph.has_node(graph.src(e) as int) && graph.has_node(graph.tgt(e) as int));
                    lemma_one_root(*graph, uf.root_of@, graph.src(e) as int, graph.tgt(e) as int);
                }
            }
            break;
        }
        let ghost ro0 = uf.root_of@;
        let ghost c0 = components;
        let ghost ufb = uf;
        let roots = root_table(&mut uf);
        proof {
            assert forall|a: usize, b: usize| a < uf.size() && b < uf.size() implies (#[trigger] uf.same(a, b)
                <==> joined(picked(edge_pairs(*graph, cands)), a, b)) by {
                assert(ufb.same(a, b) == uf.same(a, b));
            }
            assert forall|x: int| 0 <= x < roots@.len() implies #[trigger] roots@[x] < roots@.len() by {
                assert(uf.parent@[x] < bound);
            }
        }
        let acc = cheapest_edges(graph, &edges, &roots, rank);
        let ghost cands0 = cands;
        let ghost p0 = picked(edge_pairs(*graph, cands0));
        proof {
            assert(roots_fixed(ro0)) by {
                assert forall|x: int| 0 <= x < ro0.len() implies (#[trigger] ro0[x]) < ro0.len()
                    && ro0[ro0[x] as int] == ro0[x] by {
                    assert(uf.parent@[x] < bound);
                }
            }
            assert forall|a: usize, y: usize| a < bound && y < bound implies (#[trigger] joined(p0, a, y)
                <==> ro0[a as int] == ro0[y as int]) by {
                assert(uf.same(a, y) <==> joined(p0, a, y));
            }
            assert(cands.take(cands0.len() as int) =~= cands0);
        }
        let mut found = false;
        let mut i: usize = 0;
        while i < bound
            invariant
                graph.wf(),
                bound == graph.node_slots().len(),
                rank@.len() == graph.edge_slots().len(),
                forall|k: int| 0 <= k < edges@.len() ==> graph.has_edge(#[trigger] edges@[k].0 as int),
                roots@ == ro0,
                ro0.len() == bound,
                acc@.len() == bound,
                forall|r: int| 0 <= r < bound && (#[trigger] acc@[r]) is Some ==>
                    acc@[r].unwrap() < edges@.len() && crosses(*graph, ro0, edges@, acc@[r].unwrap() as int),
                forall|k: int| 0 <= k < edges@.len() && crosses(*graph, ro0, edges@, k) ==>
                    (#[trigger] acc@[ro0[graph.src(edges@[k].0 as int) as int] as int]) is Some,
                forest_state(*graph, uf, result@, cands),
                nodes_closed(*graph, uf.root_of@),
                components == count_true(live_roots(*graph, uf.root_of@)),
                i <= bound,
                !found ==> uf.root_of@ == ro0 && forall|j: int| 0 <= j < i ==> (#[trigger] acc@[j]) is None,
                found ==> components < c0,
                components <= c0,
                forall|e: int| #[trigger] graph.has_edge(e) ==> exists|k: int| 0 <= k < edges@.len() && edges@[k].0 == e,
                roots_fixed(ro0),
                p0 == picked(edge_pairs(*graph, cands0)),
                forall|a: usize, y: usize| a < bound && y < bound ==> (#[trigger] joined(p0, a, y)
                    <==> ro0[a as int] == ro0[y as int]),
                cands0.len() <= cands.len(),
                cands.take(cands0.len() as int) == cands0,
                forall|r: int| 0 <= r < bound && (#[trigger] acc@[r]) is Some ==> {
                    let c = acc@[r].unwrap() as int;
                    &&& leaves(*graph, ro0, edges@, c, r as usize)
                    &&& forall|k: int| 0 <= k < edges@.len() && leaves(*graph, ro0, edges@, k, r as usize) ==>
                        rank@[edges@[c].0 as int] <= rank@[#[trigger] edges@[k].0 as int]
                },
                forall|k: int| 0 <= k < cands.len() ==> #[trigger] lightest_leaving(*graph, rank@, cands, k),
            decreases bound - i,
        {
            match acc[i] {
                Some(c) => {
                    let e = edges[c];
                    let ghost uf0 = uf;
                    proof {
                        assert(graph.has_edge(edges@[c as int].0 as int));
                    }
                    let taken = take_edge(graph, &mut uf, &mut result, e, Ghost(cands));
                    proof {
                        let ghost old_c = cands;
                        assert forall|k: int| 0 <= k < old_c.len() implies #[trigger] lightest_leaving(*graph, rank@,
                            old_c.push(e), k) by {
                            lemma_lightest_stable(*graph, rank@, old_c, e, k);
                        }
                        let b = cands0.len() as int;
                        let x = i;
                        let ce = edges@[c as int].0 as int;
                        assert(old_c.push(e).take(b) =~= cands0) by {
                            assert(old_c.take(b) == cands0);
                        }
                        assert(graph.has_node(graph.src(ce) as int) && graph.has_node(graph.tgt(ce) as int));
                        assert(leaves(*graph, ro0, edges@, c as int, x));
                        assert(ro0[x as int] == x);
                        assert(joined(p0, x, graph.src(ce)) <==> ro0[graph.src(ce) as int] == x);
                        assert(joined(p0, x, graph.tgt(ce)) <==> ro0[graph.tgt(ce) as int] == x);
                        assert(leaves_class(*graph, p0, x, ce));
                        assert forall|f: int| leaves_class(*graph, p0, x, f) implies rank@[ce] <= rank@[f] by {
                            let q = choose|q: int| 0 <= q < edges@.len() && edges@[q].0 == f;
                            assert(graph.has_node(graph.src(f) as int) && graph.has_node(graph.tgt(f) as int));
                            assert(joined(p0, x, graph.src(f)) <==> ro0[graph.src(f) as int] == x);
                            assert(joined(p0, x, graph.tgt(f)) <==> ro0[graph.tgt(f) as int] == x);
                            assert(leaves(*graph, ro0, edges@, q, x));
                        }
                        assert(old_c.push(e)[old_c.len() as int] == e);
                        assert(leaves_class(*graph, picked(edge_pairs(*graph, old_c.push(e).take(b))), x,
                            old_c.push(e)[old_c.len() as int].0 as int));
                        assert(lightest_leaving(*graph, rank@, old_c.push(e), old_c.len() as int));
                        assert(old_c.push(e).take(b) =~= old_c.take(b));
                        cands = cands.push(e);
                    }
                    if taken {
                        proof {
                            let s = graph.src(e.0 as int);
                            let t = graph.tgt(e.0 as int);
                            assert(graph.has_node(s as int) && graph.has_node(t as int));
                            let rs = uf0.rep(s);
                            let rt = uf0.rep(t);
                            assert(uf0.parent@[s as int] < bound);
                            assert(uf0.parent@[t as int] < bound);
                            assert(uf0.parent@[rs as int] < bound);
                            assert(uf0.parent@[rt as int] < bound);
                            assert(roots_fixed(uf0.root_of@)) by {
                                assert forall|x: int| 0 <= x < uf0.root_of@.len() implies (#[trigger] uf0.root_of@[x]) < uf0.root_of@.len()
                                    && uf0.root_of@[uf0.root_of@[x] as int] == uf0.root_of@[x] by {
                                    assert(uf0.parent@[x] < bound);
                                }
                            }
                            assert(graph.has_node(rs as int) && graph.has_node(rt as int));
                            if uf.root_of@ == hang(uf0.root_of@, rs, rt) {
                                lemma_hang_live(*graph, uf0.root_of@, rs, rt);
                            } else {
                                lemma_hang_live(*graph, uf0.root_of@, rt, rs);
                            }
                        }
                        components = components - 1;
                        found = true;
                    }
                }
                None => {}
            }
            i = i + 1;
        }
        if !found {
            proof {
                assert forall|e: int| #[trigger] graph.has_edge(e) implies uf.same(graph.src(e), graph.tgt(e)) by {
                    let k = choose|k: int| 0 <= k < edges@.len() && edges@[k].0 == e;
                    assert(graph.has_node(graph.src(e) as int));
                    if crosses(*graph, ro0, edges@, k) {
                        let r = ro0[graph.src(edges@[k].0 as int) as int];
                        assert(uf.parent@[graph.src(e) as int] < bound);
                        assert(acc@[r as int] is Some);
                    }
                }
            }
            break;
        }
    }
    proof {
        assert forall|e: int| #[trigger] graph.has_edge(e) implies
            joined(picked(edge_pairs(*graph, cands)), graph.src(e), graph.tgt(e)) by {
            assert(graph.has_node(graph.src(e) as int) && graph.has_node(graph.tgt(e) as int));
            assert(uf.same(graph.src(e), graph.tgt(e)));
        }
        assert(forest_from(*graph, cands, result@));
        assert(forall|k: int| 0 <= k < cands.len() ==> graph.has_edge(#[trigger] cands[k].0 as int));
    }
    let r: Result<Vec<MstEdge<W>>, GraphinaError> = Ok(result);
    proof {
        assert(r->Ok_0@ == result@);
        assert(forest_from(*graph, cands, r->Ok_0@));
    }
    r
}

} // verus!
