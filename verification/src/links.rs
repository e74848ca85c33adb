//! Link prediction by shared neighbourhoods.

use vstd::prelude::*;
use crate::types::{BaseGraph, GraphConstructor, NodeId, ids};

verus! {

/// The nodes that occur in both `a` and `b`.
pub open spec fn common(a: Seq<usize>, b: Seq<usize>) -> Set<usize> {
    Set::new(|x: usize| a.contains(x) && b.contains(x))
}

/// Whether `x` occurs in `s` before position `k`.
fn occurs_before(s: &Vec<usize>, k: usize, x: usize) -> (b: bool)
    requires
        k <= s@.len(),
    ensures
        b == s@.take(k as int).contains(x),
{
    let mut i: usize = 0;
    while i < k
        invariant
            k <= s@.len(),
            i <= k,
            forall|p: int| 0 <= p < i ==> s@[p] != x,
        decreases k - i,
    {
        if s[i] == x {
            assert(s@.take(k as int)[i as int] == x);
            return true;
        }
        i = i + 1;
    }
    proof {
        if s@.take(k as int).contains(x) {
            let p = choose|p: int| 0 <= p < k && s@.take(k as int)[p] == x;
            assert(s@[p] == x);
        }
    }
    false
}

/// Whether `x` occurs in `s`.
fn occurs(s: &Vec<usize>, x: usize) -> (b: bool)
    ensures
        b == s@.contains(x),
{
    let b = occurs_before(s, s.len(), x);
    assert(s@.take(s@.len() as int) =~= s@);
    b
}

/// The number of distinct nodes that are neighbours of both `u` and `v`.
pub fn common_neighbors<A, W, Ty: GraphConstructor>(graph: &BaseGraph<A, W, Ty>, u: NodeId, v: NodeId) -> (c: usize)
    requires
        graph.wf(),
    ensures
        c == common(graph.neighbor_seq(u.0), graph.neighbor_seq(v.0)).len(),
{
    broadcast use vstd::set::group_set_axioms, vstd::seq_lib::seq_to_set_is_finite;
    let nu = graph.neighbor_indices(u.0);
    let nv = graph.neighbor_indices(v.0);
    let ghost su = nu@;
    let ghost sv = nv@;
    let mut count: usize = 0;
    let mut k: usize = 0;
    assert(common(su.take(0), sv) =~= Set::<usize>::empty());
    while k < nu.len()
        invariant
            su == nu@,
            sv == nv@,
            k <= su.len(),
            common(su.take(k as int), sv).finite(),
            count == common(su.take(k as int), sv).len(),
            count <= k,
        decreases su.len() - k,
    {
        let x = nu[k];
        let ghost before = common(su.take(k as int), sv);
        let ghost after = common(su.take(k as int + 1), sv);
        proof {
            let t0 = su.take(k as int);
            let t1 = su.take(k as int + 1);
            assert forall|y: usize| t1.contains(y) <==> t0.contains(y) || y == x by {
                if t1.contains(y) {
                    let p = choose|p: int| 0 <= p < t1.len() && t1[p] == y;
                    if p < k {
                        assert(t0[p] == y);
                    }
                }
                if t0.contains(y) {
                    let p = choose|p: int| 0 <= p < t0.len() && t0[p] == y;
                    assert(t1[p] == y);
                }
                if y == x {
                    assert(t1[k as int] == x);
                }
            }
        }
        let seen = occurs_before(&nu, k, x);
        let shared = occurs(&nv, x);
        if !seen && shared {
            proof {
                assert(after =~= before.insert(x));
            }
            count = count + 1;
        } else {
            proof {
                assert(after =~= before);
            }
        }
        k = k + 1;
    }
    proof {
        assert(su.take(su.len() as int) =~= su);
    }
    count
}

/// The pairs `(ns[r], ns[c])` for `r < c < j`, by increasing `c`.
pub open spec fn row_pairs(ns: Seq<usize>, r: int, j: int) -> Seq<(NodeId, NodeId)>
    decreases j - r,
{
    if j <= r + 1 {
        seq![]
    } else {
        row_pairs(ns, r, j - 1).push((NodeId(ns[r]), NodeId(ns[j - 1])))
    }
}

/// The unordered pairs of `ns` whose first member is among the first `i`,
/// row by row: `(ns[r], ns[c])` for `r < c`.
pub open spec fn pairs_upto(ns: Seq<usize>, i: int) -> Seq<(NodeId, NodeId)>
    decreases i,
{
    if i <= 0 {
        seq![]
    } else {
        pairs_upto(ns, i - 1) + row_pairs(ns, i - 1, ns.len() as int)
    }
}

/// Every unordered pair of existing nodes, once, smaller id first, ordered
/// by the first node and then the second: the pairs scored when no pairs
/// are given.
pub fn default_ebunch<A, W, Ty: GraphConstructor>(graph: &BaseGraph<A, W, Ty>) -> (r: Vec<(NodeId, NodeId)>)
    ensures
        r@ == pairs_upto(graph.spec_node_ids(), graph.spec_node_ids().len() as int),
{
    let nodes = graph.node_ids();
    let ghost ns = graph.spec_node_ids();
    let n = nodes.len();
    let mut r: Vec<(NodeId, NodeId)> = Vec::new();
    let mut i: usize = 0;
    while i < n
        invariant
            ids(nodes@) == ns,
            n == nodes@.len(),
            i <= n,
            r@ == pairs_upto(ns, i as int),
        decreases n - i,
    {
        let ghost before = r@;
        let mut j: usize = i + 1;
        proof {
            assert(before + row_pairs(ns, i as int, j as int) =~= before);
        }
        while j < n
            invariant
                ids(nodes@) == ns,
                n == nodes@.len(),
                i < n,
                i + 1 <= j <= n,
                r@ == before + row_pairs(ns, i as int, j as int),
            decreases n - j,
        {
            proof {
                assert(ids(nodes@)[i as int] == nodes@[i as int].0);
                assert(ids(nodes@)[j as int] == nodes@[j as int].0);
            }
            r.push((nodes[i], nodes[j]));
            proof {
                assert(before + row_pairs(ns, i as int, j + 1) =~= (before + row_pairs(ns, i as int, j as int))
                    .push((NodeId(ns[i as int]), NodeId(ns[j as int]))));
            }
            j = j + 1;
        }
        proof {
            assert(ids(nodes@).len() == n);
        }
        i = i + 1;
    }
    proof {
        assert(ids(nodes@).len() == n);
    }
    r
}

} // verus!
