//! Walks over an arbitrary adjacency relation on node indices, and the facts
//! about reachability that the graph algorithms rely on.

use vstd::prelude::*;

verus! {

/// `w` is a non-empty walk: each node is related to the next by `rel`.
pub open spec fn is_walk_in(rel: spec_fn(usize, usize) -> bool, w: Seq<usize>) -> bool {
    &&& w.len() >= 1
    &&& forall|i: int| 0 <= i < w.len() - 1 ==> rel(#[trigger] w[i], w[i + 1])
}

/// Some walk along `rel` starts at `a` and ends at `b`.
pub open spec fn connects(rel: spec_fn(usize, usize) -> bool, a: usize, b: usize) -> bool {
    exists|w: Seq<usize>| #[trigger] is_walk_in(rel, w) && w[0] == a && w.last() == b
}

/// Every node is connected to itself by the one-node walk.
pub proof fn lemma_connects_refl(rel: spec_fn(usize, usize) -> bool, a: usize)
    ensures
        connects(rel, a, a),
{
    let w = seq![a];
    assert(is_walk_in(rel, w));
}

/// A walk to `u` extends by one step along `rel`.
pub proof fn lemma_connects_step(rel: spec_fn(usize, usize) -> bool, a: usize, u: usize, v: usize)
    requires
        connects(rel, a, u),
        rel(u, v),
    ensures
        connects(rel, a, v),
{
    let w = choose|w: Seq<usize>| #[trigger] is_walk_in(rel, w) && w[0] == a && w.last() == u;
    let w2 = w.push(v);
    assert forall|i: int| 0 <= i < w2.len() - 1 implies rel(#[trigger] w2[i], w2[i + 1]) by {
        if i < w.len() - 1 {
            assert(w2[i] == w[i] && w2[i + 1] == w[i + 1]);
        } else {
            assert(w2[i] == u && w2[i + 1] == v);
        }
    }
    assert(is_walk_in(rel, w2));
}

/// Walks compose: a walk from `a` to `b` followed by one from `b` to `c`.
pub proof fn lemma_connects_trans(rel: spec_fn(usize, usize) -> bool, a: usize, b: usize, c: usize)
    requires
        connects(rel, a, b),
        connects(rel, b, c),
    ensures
        connects(rel, a, c),
{
    let w1 = choose|w: Seq<usize>| #[trigger] is_walk_in(rel, w) && w[0] == a && w.last() == b;
    let w2 = choose|w: Seq<usize>| #[trigger] is_walk_in(rel, w) && w[0] == b && w.last() == c;
    let w = w1 + w2.drop_first();
    assert forall|i: int| 0 <= i < w.len() - 1 implies rel(#[trigger] w[i], w[i + 1]) by {
        if i < w1.len() - 1 {
            assert(w[i] == w1[i] && w[i + 1] == w1[i + 1]);
        } else {
            let j = i - (w1.len() - 1);
            assert(w[i] == w2[j]) by {
                if j == 0 {
                    assert(w[i] == w1.last());
                } else {
                    assert(w[i] == w2.drop_first()[j - 1]);
                }
            }
            assert(w[i + 1] == w2.drop_first()[j]);
            assert(w2[j] == w2[j]);
            assert(rel(w2[j], w2[j + 1]));
        }
    }
    assert(w.last() == c) by {
        if w2.len() == 1 {
            assert(w.last() == w1.last());
        } else {
            assert(w.last() == w2.drop_first().last());
        }
    }
    assert(is_walk_in(rel, w));
}

/// A walk along a symmetric relation can be reversed.
pub proof fn lemma_connects_sym(rel: spec_fn(usize, usize) -> bool, a: usize, b: usize)
    requires
        connects(rel, a, b),
        forall|x: usize, y: usize| #[trigger] rel(x, y) ==> rel(y, x),
    ensures
        connects(rel, b, a),
{
    let w = choose|w: Seq<usize>| #[trigger] is_walk_in(rel, w) && w[0] == a && w.last() == b;
    let r = w.reverse();
    assert forall|i: int| 0 <= i < r.len() - 1 implies rel(#[trigger] r[i], r[i + 1]) by {
        let j = w.len() - 2 - i;
        assert(r[i] == w[j + 1]);
        assert(r[i + 1] == w[j]);
        assert(rel(w[j], w[j + 1]));
    }
    assert(is_walk_in(rel, r));
}

/// A set of nodes that contains `a` and is closed under `rel` contains every
/// node connected from `a`.
pub proof fn lemma_closed_contains_connected(
    rel: spec_fn(usize, usize) -> bool,
    s: spec_fn(usize) -> bool,
    a: usize,
    b: usize,
)
    requires
        s(a),
        forall|u: usize, v: usize| s(u) && #[trigger] rel(u, v) ==> s(v),
        connects(rel, a, b),
    ensures
        s(b),
{
    let w = choose|w: Seq<usize>| #[trigger] is_walk_in(rel, w) && w[0] == a && w.last() == b;
    lemma_walk_stays_in(rel, s, w, w.len() - 1);
}

proof fn lemma_walk_stays_in(
    rel: spec_fn(usize, usize) -> bool,
    s: spec_fn(usize) -> bool,
    w: Seq<usize>,
    k: int,
)
    requires
        is_walk_in(rel, w),
        s(w[0]),
        forall|u: usize, v: usize| s(u) && #[trigger] rel(u, v) ==> s(v),
        0 <= k < w.len(),
    ensures
        s(w[k]),
    decreases k,
{
    if k > 0 {
        lemma_walk_stays_in(rel, s, w, k - 1);
        assert(rel(w[k - 1], w[k]));
    }
}

/// The relation with its arguments swapped.
pub open spec fn flip(rel: spec_fn(usize, usize) -> bool) -> spec_fn(usize, usize) -> bool {
    |u: usize, v: usize| rel(v, u)
}

/// A walk read backwards is a walk along the flipped relation.
pub proof fn lemma_connects_flip(rel: spec_fn(usize, usize) -> bool, a: usize, b: usize)
    requires
        connects(rel, a, b),
    ensures
        connects(flip(rel), b, a),
{
    let w = choose|w: Seq<usize>| #[trigger] is_walk_in(rel, w) && w[0] == a && w.last() == b;
    let r = w.reverse();
    assert forall|i: int| 0 <= i < r.len() - 1 implies flip(rel)(#[trigger] r[i], r[i + 1]) by {
        let j = w.len() - 2 - i;
        assert(r[i] == w[j + 1]);
        assert(r[i + 1] == w[j]);
        assert(rel(w[j], w[j + 1]));
    }
    assert(is_walk_in(flip(rel), r));
}

} // verus!
