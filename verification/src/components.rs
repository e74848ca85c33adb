//! Component labelling: nodes are taken in id order, and each node that no
//! earlier node reaches starts a new label, which spreads by breadth-first
//! search to every node it reaches that carries no label yet.

use vstd::prelude::*;
use crate::types::{BaseGraph, GraphConstructor, NodeId, ids};
use crate::traversal::falses;
use crate::walks::{connects, lemma_closed_contains_connected, lemma_connects_refl, lemma_connects_step,
    lemma_connects_trans};

verus! {

/// `y` is a node that no smaller node reaches: it starts a new label.
pub open spec fn is_start<A, W, Ty: GraphConstructor>(g: BaseGraph<A, W, Ty>, y: usize) -> bool {
    &&& g.has_node(y as int)
    &&& forall|z: usize| z < y && g.has_node(z as int) ==> !#[trigger] g.reachable(z, y)
}

/// The number of starts below `k`.
pub open spec fn count_starts<A, W, Ty: GraphConstructor>(g: BaseGraph<A, W, Ty>, k: nat) -> nat
    decreases k,
{
    if k == 0 {
        0
    } else {
        count_starts(g, (k - 1) as nat) + if is_start(g, (k - 1) as usize) { 1nat } else { 0nat }
    }
}

/// `m` is the least node that reaches `x`.
pub open spec fn least_reacher<A, W, Ty: GraphConstructor>(g: BaseGraph<A, W, Ty>, m: usize, x: usize) -> bool {
    &&& g.has_node(m as int)
    &&& g.reachable(m, x)
    &&& forall|z: usize| z < m && g.has_node(z as int) ==> !#[trigger] g.reachable(z, x)
}

/// The label of node `x`: the number of starts below the least node that
/// reaches it.
pub open spec fn labelled<A, W, Ty: GraphConstructor>(g: BaseGraph<A, W, Ty>, x: usize, c: nat) -> bool {
    exists|m: usize| #[trigger] least_reacher(g, m, x) && c == count_starts(g, m as nat)
}

/// Some node below `i` reaches `x`.
spec fn reached_below<A, W, Ty: GraphConstructor>(g: BaseGraph<A, W, Ty>, i: nat, x: usize) -> bool {
    exists|y: usize| y < i && g.has_node(y as int) && #[trigger] g.reachable(y, x)
}

/// The nodes reached from an existing node exist.
pub(crate) proof fn lemma_reach_live<A, W, Ty: GraphConstructor>(g: BaseGraph<A, W, Ty>, s: usize, x: usize)
    requires
        g.wf(),
        g.has_node(s as int),
        g.reachable(s, x),
    ensures
        g.has_node(x as int),
        x < g.node_slots().len(),
{
    let live = |v: usize| g.has_node(v as int);
    assert forall|u: usize, v: usize| live(u) && #[trigger] g.adj()(u, v) implies live(v) by {
        g.lemma_neighbors_exist(u);
    }
    lemma_closed_contains_connected(g.adj(), live, s, x);
}

/// At most one node is the least to reach `x`.
pub(crate) proof fn lemma_least_unique<A, W, Ty: GraphConstructor>(g: BaseGraph<A, W, Ty>, m1: usize, m2: usize, x: usize)
    requires
        least_reacher(g, m1, x),
        least_reacher(g, m2, x),
    ensures
        m1 == m2,
{
    if m1 < m2 {
        assert(!g.reachable(m1, x));
    } else if m2 < m1 {
        assert(!g.reachable(m2, x));
    }
}

/// The least node to reach anything is a start.
pub(crate) proof fn lemma_least_is_start<A, W, Ty: GraphConstructor>(g: BaseGraph<A, W, Ty>, m: usize, x: usize)
    requires
        least_reacher(g, m, x),
    ensures
        is_start(g, m),
{
    assert forall|z: usize| z < m && g.has_node(z as int) implies !#[trigger] g.reachable(z, m) by {
        if g.reachable(z, m) {
            lemma_connects_trans(g.adj(), z, m, x);
            assert(g.reachable(z, x));
        }
    }
}

/// There are at most `k` starts below `k`, and the count only grows.
pub(crate) proof fn lemma_count_starts_bound<A, W, Ty: GraphConstructor>(g: BaseGraph<A, W, Ty>, j: nat, k: nat)
    requires
        j <= k,
    ensures
        count_starts(g, k) <= k,
        count_starts(g, j) <= count_starts(g, k),
    decreases k,
{
    if k > 0 {
        if j < k {
            lemma_count_starts_bound(g, j, (k - 1) as nat);
        } else {
            lemma_count_starts_bound(g, (k - 1) as nat, (k - 1) as nat);
        }
    }
}

/// Spreads `label` by breadth-first search from the unlabelled node `s`:
/// every node that `s` reaches and that is not yet visited is visited and
/// labelled, in the order the search meets it. The visited nodes must be
/// closed under steps along edges.
fn spread<A, W, Ty: GraphConstructor>(g: &BaseGraph<A, W, Ty>, visited: &mut Vec<bool>,
    labels: &mut Vec<Option<usize>>, s: usize, label: usize)
    requires
        g.wf(),
        old(visited)@.len() == g.node_slots().len(),
        old(labels)@.len() == g.node_slots().len(),
        g.has_node(s as int),
        !old(visited)@[s as int],
        forall|u: usize, v: usize| (u as int) < old(visited)@.len() && old(visited)@[u as int]
            && #[trigger] g.adj()(u, v) ==> (v as int) < old(visited)@.len() && old(visited)@[v as int],
    ensures
        final(visited)@.len() == old(visited)@.len(),
        final(labels)@.len() == old(labels)@.len(),
        forall|x: usize| (x as int) < old(visited)@.len() ==> (#[trigger] final(visited)@[x as int]
            <==> old(visited)@[x as int] || g.reachable(s, x)),
        forall|x: usize| (x as int) < old(visited)@.len() ==> #[trigger] final(labels)@[x as int]
            == if !old(visited)@[x as int] && g.reachable(s, x) { Some(label) } else { old(labels)@[x as int] },
{
    let n = g.node_bound();
    let ghost vis0 = visited@;
    let ghost lab0 = labels@;
    let mut queue: Vec<usize> = Vec::new();
    queue.push(s);
    visited.set(s, true);
    proof {
        lemma_connects_refl(g.adj(), s);
        assert forall|x: int| 0 <= x < n implies (#[trigger] visited@[x] <==> vis0[x] || queue@.contains(x as usize)) by {
            if x == s as int {
                assert(queue@[0] == s);
            }
        }
        assert(queue@.take(0) =~= Seq::<usize>::empty());
    }
    let mut head: usize = 0;
    while head < queue.len()
        invariant
            g.wf(),
            n == g.node_slots().len(),
            visited@.len() == n,
            labels@.len() == n,
            vis0.len() == n,
            lab0.len() == n,
            head <= queue@.len(),
            queue@.len() >= 1,
            queue@[0] == s,
            queue@.no_duplicates(),
            forall|u: usize, v: usize| (u as int) < n && vis0[u as int] && #[trigger] g.adj()(u, v)
                ==> (v as int) < n && vis0[v as int],
            forall|k: int| 0 <= k < queue@.len() ==> (#[trigger] queue@[k]) < n && !vis0[queue@[k] as int]
                && g.reachable(s, queue@[k]),
            forall|x: int| 0 <= x < n ==> (#[trigger] visited@[x] <==> vis0[x] || queue@.contains(x as usize)),
            forall|x: int| 0 <= x < n ==> #[trigger] labels@[x]
                == if queue@.take(head as int).contains(x as usize) { Some(label) } else { lab0[x] },
            forall|k: int, v: usize| 0 <= k < head && #[trigger] g.adj()(queue@[k], v)
                ==> (v as int) < n && visited@[v as int],
        decreases n - head,
    {
        proof {
            assert forall|k: int| 0 <= k < queue@.len() implies (#[trigger] queue@[k]) < n by {}
            crate::laws::lemma_distinct_below_len(queue@, n);
        }
        let u = queue[head];
        labels.set(u, Some(label));
        let nbrs = g.neighbor_indices(u);
        proof {
            g.lemma_neighbors_exist(u);
            assert forall|x: int| 0 <= x < n implies #[trigger] labels@[x]
                == if queue@.take(head as int + 1).contains(x as usize) { Some(label) } else { lab0[x] } by {
                if x == u as int {
                    assert(queue@.take(head as int + 1)[head as int] == u);
                } else {
                    if queue@.take(head as int + 1).contains(x as usize) {
                        let k = choose|k: int| 0 <= k < head + 1 && #[trigger] queue@.take(head as int + 1)[k] == x as usize;
                        assert(k != head as int);
                        assert(queue@.take(head as int)[k] == x as usize);
                    }
                    if queue@.take(head as int).contains(x as usize) {
                        let k = choose|k: int| 0 <= k < head && #[trigger] queue@.take(head as int)[k] == x as usize;
                        assert(queue@.take(head as int + 1)[k] == x as usize);
                    }
                }
            }
        }
        let mut j: usize = 0;
        while j < nbrs.len()
            invariant
                g.wf(),
                n == g.node_slots().len(),
                visited@.len() == n,
                labels@.len() == n,
                vis0.len() == n,
                lab0.len() == n,
                head < queue@.len(),
                queue@[0] == s,
                queue@[head as int] == u,
                queue@.no_duplicates(),
                nbrs@ == g.neighbor_seq(u),
                j <= nbrs@.len(),
                forall|x: usize| #[trigger] g.neighbor_seq(u).contains(x) ==> g.has_node(x as int),
                forall|u2: usize, v: usize| (u2 as int) < n && vis0[u2 as int] && #[trigger] g.adj()(u2, v)
                    ==> (v as int) < n && vis0[v as int],
                forall|k: int| 0 <= k < queue@.len() ==> (#[trigger] queue@[k]) < n && !vis0[queue@[k] as int]
                    && g.reachable(s, queue@[k]),
                forall|x: int| 0 <= x < n ==> (#[trigger] visited@[x] <==> vis0[x] || queue@.contains(x as usize)),
                forall|x: int| 0 <= x < n ==> #[trigger] labels@[x]
                    == if queue@.take(head as int + 1).contains(x as usize) { Some(label) } else { lab0[x] },
                forall|k: int, v: usize| 0 <= k < head && #[trigger] g.adj()(queue@[k], v)
                    ==> (v as int) < n && visited@[v as int],
                forall|jj: int| 0 <= jj < j ==> (#[trigger] nbrs@[jj] as int) < n && visited@[nbrs@[jj] as int],
            decreases nbrs@.len() - j,
        {
            let x = nbrs[j];
            assert(g.neighbor_seq(u).contains(x));
            proof {
                lemma_reach_live(*g, s, s);
            }
            if !visited[x] {
                proof {
                    assert(g.reachable(s, queue@[head as int]));
                    lemma_connects_step(g.adj(), s, u, x);
                    assert(!vis0[x as int]);
                    assert(!queue@.contains(x));
                }
                visited.set(x, true);
                let ghost before = queue@;
                queue.push(x);
                proof {
                    assert forall|y: int| 0 <= y < n implies (#[trigger] visited@[y] <==> vis0[y] || queue@.contains(y as usize)) by {
                        if y == x as int {
                            assert(queue@.last() == x);
                        } else if before.contains(y as usize) {
                            let k = choose|k: int| 0 <= k < before.len() && before[k] == y as usize;
                            assert(queue@[k] == y as usize);
                        } else if queue@.contains(y as usize) {
                            let k = choose|k: int| 0 <= k < queue@.len() && queue@[k] == y as usize;
                            assert(k < before.len());
                        }
                    }
                    assert(queue@.take(head as int + 1) =~= before.take(head as int + 1));
                    assert forall|a: int, b: int| 0 <= a < queue@.len() && 0 <= b < queue@.len() && a != b
                        implies queue@[a] != queue@[b] by {
                        if a == before.len() {
                            assert(before.contains(queue@[b]) ==> false || b != a);
                        }
                    }
                }
            }
            j = j + 1;
        }
        head = head + 1;
        proof {
            assert forall|k: int, v: usize| 0 <= k < head && #[trigger] g.adj()(queue@[k], v)
                implies (v as int) < n && visited@[v as int] by {
                if k == head - 1 {
                    let jj = choose|jj: int| 0 <= jj < nbrs@.len() && nbrs@[jj] == v;
                }
            }
        }
    }
    proof {
        let vis = visited@;
        let closed = |v: usize| (v as int) < n && vis[v as int];
        assert forall|a: usize, b: usize| closed(a) && #[trigger] g.adj()(a, b) implies closed(b) by {
            if vis0[a as int] {
            } else {
                let k = choose|k: int| 0 <= k < queue@.len() && queue@[k] == a;
                assert(g.adj()(queue@[k], b));
            }
        }
        assert(queue@.take(head as int) =~= queue@);
        assert forall|x: usize| (x as int) < n implies (#[trigger] visited@[x as int]
            <==> vis0[x as int] || g.reachable(s, x)) by {
            if g.reachable(s, x) {
                assert(queue@[0] == s);
                lemma_closed_contains_connected(g.adj(), closed, s, x);
            }
            if queue@.contains(x) {
                let k = choose|k: int| 0 <= k < queue@.len() && queue@[k] == x;
            }
        }
        assert forall|x: usize| (x as int) < n implies #[trigger] labels@[x as int]
            == if !vis0[x as int] && g.reachable(s, x) { Some(label) } else { lab0[x as int] } by {
            if queue@.contains(x) {
                let k = choose|k: int| 0 <= k < queue@.len() && queue@[k] == x;
            }
            if !vis0[x as int] && g.reachable(s, x) {
                assert(visited@[x as int]);
            }
        }
    }
}

/// `n` empty labels.
fn no_labels(n: usize) -> (v: Vec<Option<usize>>)
    ensures
        v@.len() == n,
        forall|i: int| 0 <= i < n ==> #[trigger] v@[i] is None,
{
    let mut v: Vec<Option<usize>> = Vec::new();
    let mut i: usize = 0;
    while i < n
        invariant
            i <= n,
            v@.len() == i,
            forall|k: int| 0 <= k < i ==> #[trigger] v@[k] is None,
        decreases n - i,
    {
        v.push(None);
        i = i + 1;
    }
    v
}

/// Labels every node with its component and returns the labels, one per
/// node slot, with the number of labels used.
fn label_components<A, W, Ty: GraphConstructor>(g: &BaseGraph<A, W, Ty>) -> (r: (Vec<Option<usize>>, usize))
    requires
        g.wf(),
    ensures
        r.0@.len() == g.node_slots().len(),
        r.1 == count_starts(*g, g.node_slots().len() as nat),
        forall|x: usize| (x as int) < r.0@.len() ==> (#[trigger] r.0@[x as int] is Some <==> g.has_node(x as int)),
        forall|x: usize| (x as int) < r.0@.len() && #[trigger] r.0@[x as int] is Some
            ==> labelled(*g, x, r.0@[x as int].unwrap() as nat),
{
    let n = g.node_bound();
    let mut visited = falses(n);
    let mut labels = no_labels(n);
    let mut current: usize = 0;
    let mut i: usize = 0;
    while i < n
        invariant
            g.wf(),
            n == g.node_slots().len(),
            visited@.len() == n,
            labels@.len() == n,
            i <= n,
            current == count_starts(*g, i as nat),
            forall|x: usize| (x as int) < n ==> (#[trigger] visited@[x as int] <==> reached_below(*g, i as nat, x)),
            forall|x: usize| (x as int) < n ==> (#[trigger] labels@[x as int] is Some <==> visited@[x as int]),
            forall|x: usize| (x as int) < n && #[trigger] labels@[x as int] is Some
                ==> labelled(*g, x, labels@[x as int].unwrap() as nat),
        decreases n - i,
    {
        let ghost vis0 = visited@;
        let ghost lab0 = labels@;
        if g.contains_node(NodeId(i)) && !visited[i] {
            proof {
                assert forall|u: usize, v: usize| (u as int) < vis0.len() && vis0[u as int]
                    && #[trigger] g.adj()(u, v) implies (v as int) < vis0.len() && vis0[v as int] by {
                    let y = choose|y: usize| y < i && g.has_node(y as int) && #[trigger] g.reachable(y, u);
                    lemma_connects_step(g.adj(), y, u, v);
                    lemma_reach_live(*g, y, v);
                    assert(g.reachable(y, v));
                    assert(reached_below(*g, i as nat, v));
                }
                assert(is_start(*g, i)) by {
                    assert forall|z: usize| z < i && g.has_node(z as int) implies !#[trigger] g.reachable(z, i) by {
                        if g.reachable(z, i) {
                            assert(reached_below(*g, i as nat, i));
                        }
                    }
                }
                lemma_count_starts_bound(*g, i as nat, i as nat);
            }
            spread(g, &mut visited, &mut labels, i, current);
            proof {
                assert forall|x: usize| (x as int) < n implies (#[trigger] visited@[x as int]
                    <==> reached_below(*g, (i + 1) as nat, x)) by {
                    if reached_below(*g, (i + 1) as nat, x) {
                        let y = choose|y: usize| y < i + 1 && g.has_node(y as int) && #[trigger] g.reachable(y, x);
                        if y < i {
                            assert(reached_below(*g, i as nat, x));
                        }
                    }
                    if vis0[x as int] {
                        let y = choose|y: usize| y < i && g.has_node(y as int) && #[trigger] g.reachable(y, x);
                        assert(reached_below(*g, (i + 1) as nat, x));
                    }
                    if g.reachable(i, x) {
                        assert(reached_below(*g, (i + 1) as nat, x));
                    }
                }
                assert forall|x: usize| (x as int) < n && #[trigger] labels@[x as int] is Some
                    implies labelled(*g, x, labels@[x as int].unwrap() as nat) by {
                    if !vis0[x as int] && g.reachable(i, x) {
                        assert forall|z: usize| z < i && g.has_node(z as int) implies !#[trigger] g.reachable(z, x) by {
                            if g.reachable(z, x) {
                                assert(reached_below(*g, i as nat, x));
                            }
                        }
                        assert(least_reacher(*g, i, x));
                    } else {
                        assert(labels@[x as int] == lab0[x as int]);
                    }
                }
            }
            current = current + 1;
        } else {
            proof {
                assert(!is_start(*g, i)) by {
                    if g.has_node(i as int) {
                        assert(vis0[i as int]);
                        let y = choose|y: usize| y < i && g.has_node(y as int) && #[trigger] g.reachable(y, i);
                        assert(g.reachable(y, i));
                    }
                }
                assert forall|x: usize| (x as int) < n implies (#[trigger] visited@[x as int]
                    <==> reached_below(*g, (i + 1) as nat, x)) by {
                    if reached_below(*g, (i + 1) as nat, x) {
                        let y = choose|y: usize| y < i + 1 && g.has_node(y as int) && #[trigger] g.reachable(y, x);
                        if y == i {
                            assert(vis0[i as int]);
                            let y2 = choose|y2: usize| y2 < i && g.has_node(y2 as int) && #[trigger] g.reachable(y2, i);
                            lemma_connects_trans(g.adj(), y2, i, x);
                            assert(g.reachable(y2, x));
                            assert(reached_below(*g, i as nat, x));
                        } else {
                            assert(reached_below(*g, i as nat, x));
                        }
                    }
                    if vis0[x as int] {
                        let y = choose|y: usize| y < i && g.has_node(y as int) && #[trigger] g.reachable(y, x);
                        assert(reached_below(*g, (i + 1) as nat, x));
                    }
                }
            }
        }
        i = i + 1;
    }
    proof {
        assert forall|x: usize| (x as int) < n implies (#[trigger] labels@[x as int] is Some <==> g.has_node(x as int)) by {
            if g.has_node(x as int) {
                lemma_connects_refl(g.adj(), x);
                assert(g.reachable(x, x));
                assert(reached_below(*g, n as nat, x));
            }
            if visited@[x as int] {
                let y = choose|y: usize| y < n && g.has_node(y as int) && #[trigger] g.reachable(y, x);
                lemma_reach_live(*g, y, x);
            }
        }
    }
    (labels, current)
}

/// Labels the nodes by component: nodes are taken in id order, and each node
/// that no earlier node reaches starts the next label (0, 1, ...), which
/// spreads along edges, by breadth-first search, to every node it reaches that
/// has no label yet. The result holds one entry per node slot, `None` for an
/// empty slot. A node's label is the number of such starting nodes below the
/// least node that reaches it; in an undirected graph, two nodes share a
/// label exactly when they are connected.
pub fn connected_components_parallel<A, W, Ty: GraphConstructor>(graph: &BaseGraph<A, W, Ty>)
    -> (labels: Vec<Option<usize>>)
    requires
        graph.wf(),
    ensures
        labels@.len() == graph.node_slots().len(),
        forall|x: usize| (x as int) < labels@.len() ==> (#[trigger] labels@[x as int] is Some <==> graph.has_node(x as int)),
        forall|x: usize| (x as int) < labels@.len() && #[trigger] labels@[x as int] is Some
            ==> labelled(*graph, x, labels@[x as int].unwrap() as nat),
{
    let (labels, _count) = label_components(graph);
    labels
}

/// The components as lists of nodes, one list per label in label order
/// (see `connected_components_parallel`), each list in increasing id order.
pub fn connected_components_parallel_list<A, W, Ty: GraphConstructor>(graph: &BaseGraph<A, W, Ty>)
    -> (lists: Vec<Vec<NodeId>>)
    requires
        graph.wf(),
    ensures
        lists@.len() == count_starts(*graph, graph.node_slots().len() as nat),
        forall|c: int, x: usize| 0 <= c < lists@.len() ==> (#[trigger] ids(lists@[c]@).contains(x)
            <==> graph.has_node(x as int) && labelled(*graph, x, c as nat)),
        forall|c: int, j: int, k: int| 0 <= c < lists@.len() && 0 <= j < k < lists@[c]@.len()
            ==> (#[trigger] lists@[c]@[j]).0 < #[trigger] lists@[c]@[k].0,
{
    let (labels, count) = label_components(graph);
    let n = labels.len();
    let mut lists: Vec<Vec<NodeId>> = Vec::new();
    let mut c: usize = 0;
    while c < count
        invariant
            c <= count,
            lists@.len() == c,
            forall|q: int| 0 <= q < c ==> (#[trigger] lists@[q])@.len() == 0,
        decreases count - c,
    {
        lists.push(Vec::new());
        c = c + 1;
    }
    let mut x: usize = 0;
    while x < n
        invariant
            graph.wf(),
            n == labels@.len(),
            n == graph.node_slots().len(),
            count == count_starts(*graph, n as nat),
            lists@.len() == count,
            x <= n,
            forall|y: usize| (y as int) < n ==> (#[trigger] labels@[y as int] is Some <==> graph.has_node(y as int)),
            forall|y: usize| (y as int) < n && #[trigger] labels@[y as int] is Some
                ==> labelled(*graph, y, labels@[y as int].unwrap() as nat),
            forall|q: int, y: usize| 0 <= q < count ==> (#[trigger] ids(lists@[q]@).contains(y)
                <==> y < x && labels@[y as int] == Some(q as usize)),
            forall|q: int, j: int| 0 <= q < count && 0 <= j < lists@[q]@.len() ==> (#[trigger] lists@[q]@[j]).0 < x,
            forall|q: int, j: int, k: int| 0 <= q < count && 0 <= j < k < lists@[q]@.len()
                ==> (#[trigger] lists@[q]@[j]).0 < #[trigger] lists@[q]@[k].0,
        decreases n - x,
    {
        match labels[x] {
            Some(q) => {
                proof {
                    let m = choose|m: usize| #[trigger] least_reacher(*graph, m, x) && q as nat == count_starts(*graph, m as nat);
                    lemma_least_is_start(*graph, m, x);
                    assert(graph.has_node(m as int));
                    lemma_count_starts_bound(*graph, (m + 1) as nat, n as nat);
                }
                let ghost before = lists@;
                lists[q].push(NodeId(x));
                proof {
                    assert forall|p: int, y: usize| 0 <= p < count implies (#[trigger] ids(lists@[p]@).contains(y)
                        <==> y < x + 1 && labels@[y as int] == Some(p as usize)) by {
                        if p == q as int {
                            assert(ids(lists@[p]@) =~= ids(before[p]@).push(x));
                            if ids(before[p]@).contains(y) {
                                let k = choose|k: int| 0 <= k < ids(before[p]@).len() && ids(before[p]@)[k] == y;
                                assert(ids(lists@[p]@)[k] == y);
                            }
                            if ids(lists@[p]@).contains(y) && y != x {
                                let k = choose|k: int| 0 <= k < ids(lists@[p]@).len() && ids(lists@[p]@)[k] == y;
                                assert(ids(before[p]@)[k] == y);
                            }
                            if y == x {
                                assert(ids(lists@[p]@).last() == x);
                            }
                        } else {
                            assert(lists@[p] == before[p]);
                        }
                    }
                    assert forall|p: int, j: int| 0 <= p < count && 0 <= j < lists@[p]@.len()
                        implies (#[trigger] lists@[p]@[j]).0 < x + 1 by {
                        if p == q as int && j < before[p]@.len() {
                            assert(lists@[p]@[j] == before[p]@[j]);
                        } else if p != q as int {
                            assert(lists@[p] == before[p]);
                        }
                    }
                    assert forall|p: int, j: int, k: int| 0 <= p < count && 0 <= j < k < lists@[p]@.len()
                        implies (#[trigger] lists@[p]@[j]).0 < #[trigger] lists@[p]@[k].0 by {
                        if p == q as int {
                            assert(lists@[p]@[j] == before[p]@[j]);
                            if k < before[p]@.len() {
                                assert(lists@[p]@[k] == before[p]@[k]);
                            }
                        } else {
                            assert(lists@[p] == before[p]);
                        }
                    }
                }
            }
            None => {
                proof {
                    assert forall|p: int, y: usize| 0 <= p < count implies (#[trigger] ids(lists@[p]@).contains(y)
                        <==> y < x + 1 && labels@[y as int] == Some(p as usize)) by {}
                }
            }
        }
        x = x + 1;
    }
    proof {
        assert forall|q: int, y: usize| 0 <= q < lists@.len() implies (#[trigger] ids(lists@[q]@).contains(y)
            <==> graph.has_node(y as int) && labelled(*graph, y, q as nat)) by {
            if graph.has_node(y as int) && labelled(*graph, y, q as nat) {
                assert(labels@[y as int] is Some);
                let q2 = labels@[y as int].unwrap();
                assert(labelled(*graph, y, q2 as nat));
                let m1 = choose|m: usize| #[trigger] least_reacher(*graph, m, y) && q as nat == count_starts(*graph, m as nat);
                let m2 = choose|m: usize| #[trigger] least_reacher(*graph, m, y) && q2 as nat == count_starts(*graph, m as nat);
                lemma_least_unique(*graph, m1, m2, y);
            }
        }
    }
    lists
}

} // verus!
