//! Sparse adjacency matrices: the cells a graph fills, one entry per edge
//! end, and the entries of a stored matrix that become edges. Rows and
//! columns follow the existing nodes in id order.

use vstd::prelude::*;
use crate::types::{BaseGraph, GraphConstructor, EdgeId, NodeId, ids};

verus! {

/// Row (and column) of the node with id `x`: its place among the existing
/// nodes in id order.
pub open spec fn place<A, W, Ty: GraphConstructor>(g: &BaseGraph<A, W, Ty>, x: usize) -> usize {
    (choose|i: int| 0 <= i < g.spec_node_ids().len() && g.spec_node_ids()[i] == x) as usize
}

/// The filled cells of the edges below slot `e`, edge by edge in slot
/// order, as `(row, column, edge)`: an edge fills the cell of its source's
/// row and its target's column, and an undirected edge between two
/// different nodes fills the mirrored cell right after.
pub open spec fn cells_upto<A, W, Ty: GraphConstructor>(g: &BaseGraph<A, W, Ty>, e: int) -> Seq<(usize, usize, usize)>
    decreases e,
{
    if e <= 0 {
        seq![]
    } else {
        let f = e - 1;
        let prev = cells_upto(g, f);
        if g.has_edge(f) {
            let i = place(g, g.src(f));
            let j = place(g, g.tgt(f));
            if !g.directed() && i != j {
                prev.push((i, j, f as usize)).push((j, i, f as usize))
            } else {
                prev.push((i, j, f as usize))
            }
        } else {
            prev
        }
    }
}

/// The stored entries below `k` that become edges, as their positions: all
/// of them for a directed graph, and for an undirected one only those on or
/// above the diagonal.
pub open spec fn kept_upto(entries: Seq<(usize, usize)>, directed: bool, k: int) -> Seq<usize>
    decreases k,
{
    if k <= 0 {
        seq![]
    } else {
        let prev = kept_upto(entries, directed, k - 1);
        if directed || entries[k - 1].0 <= entries[k - 1].1 {
            prev.push((k - 1) as usize)
        } else {
            prev
        }
    }
}

/// The entries of the graph's sparse adjacency matrix, as `(row, column,
/// edge)` in the order they are added (see `cells_upto`); every row and
/// column is below the number of nodes. Parallel edges give several entries
/// for one cell, which the matrix adds up.
pub fn adjacency_cells<A, W, Ty: GraphConstructor>(graph: &BaseGraph<A, W, Ty>) -> (c: Vec<(usize, usize, EdgeId)>)
    requires
        graph.wf(),
    ensures
        c@.len() == cells_upto(graph, graph.edge_slots().len() as int).len(),
        forall|k: int| 0 <= k < c@.len() ==> {
            let cell = cells_upto(graph, graph.edge_slots().len() as int)[k];
            &&& (#[trigger] c@[k]).0 == cell.0
            &&& c@[k].1 == cell.1
            &&& c@[k].2.0 == cell.2
            &&& (c@[k].0 as int) < graph.spec_node_count()
            &&& (c@[k].1 as int) < graph.spec_node_count()
        },
{
    let nodes = graph.node_ids();
    let n = nodes.len();
    let bound = graph.node_bound();
    let ghost ns = graph.spec_node_ids();
    proof {
        crate::types::lemma_live_indices(graph.node_slots());
        assert(ids(nodes@) == ns);
    }
    let mut pos: Vec<usize> = Vec::new();
    while pos.len() < bound
        invariant
            pos@.len() <= bound,
        decreases bound - pos@.len(),
    {
        pos.push(0);
    }
    let mut k: usize = 0;
    while k < n
        invariant
            ids(nodes@) == ns,
            ns == graph.spec_node_ids(),
            n == ns.len(),
            bound == graph.node_slots().len(),
            pos@.len() == bound,
            k <= n,
            forall|i: int| 0 <= i < n ==> (#[trigger] ns[i]) < bound && graph.has_node(ns[i] as int),
            forall|i: int, j: int| 0 <= i < j < n ==> (#[trigger] ns[i]) < #[trigger] ns[j],
            forall|i: int| 0 <= i < k ==> #[trigger] pos@[ns[i] as int] == i,
        decreases n - k,
    {
        proof {
            assert(ns[k as int] == nodes@[k as int].0);
        }
        pos.set(nodes[k].0, k);
        proof {
            assert forall|i: int| 0 <= i < k + 1 implies #[trigger] pos@[ns[i] as int] == i by {
                if i < k {
                    assert(ns[i] < ns[k as int]);
                }
            }
        }
        k = k + 1;
    }
    proof {
        assert forall|x: int| 0 <= x < bound && graph.has_node(x) implies exists|i: int| 0 <= i < n && #[trigger] ns[i]
            == x by {
            assert(ns.contains(x as usize));
        }
    }
    let directed = graph.is_directed();
    let ebound = graph.edge_bound();
    let mut c: Vec<(usize, usize, EdgeId)> = Vec::new();
    let mut e: usize = 0;
    while e < ebound
        invariant
            graph.wf(),
            ns == graph.spec_node_ids(),
            n == ns.len(),
            n == graph.spec_node_count(),
            bound == graph.node_slots().len(),
            ebound == graph.edge_slots().len(),
            directed == graph.directed(),
            pos@.len() == bound,
            e <= ebound,
            forall|i: int| 0 <= i < n ==> (#[trigger] ns[i]) < bound && graph.has_node(ns[i] as int),
            forall|x: int| 0 <= x < bound && graph.has_node(x) ==> exists|i: int| 0 <= i < n && #[trigger] ns[i] == x,
            forall|i: int, j: int| 0 <= i < j < n ==> (#[trigger] ns[i]) < #[trigger] ns[j],
            forall|i: int| 0 <= i < n ==> #[trigger] pos@[ns[i] as int] == i,
            c@.len() == cells_upto(graph, e as int).len(),
            forall|k: int| 0 <= k < c@.len() ==> {
                let cell = cells_upto(graph, e as int)[k];
                &&& (#[trigger] c@[k]).0 == cell.0
                &&& c@[k].1 == cell.1
                &&& c@[k].2.0 == cell.2
                &&& (c@[k].0 as int) < n
                &&& (c@[k].1 as int) < n
            },
        decreases ebound - e,
    {
        let ghost cb = c@;
        match graph.edge_endpoints(EdgeId(e)) {
            Some((a, b)) => {
                let ghost f = e as int;
                proof {
                    assert(graph.has_edge(f));
                    assert(graph.has_node(a.0 as int) && graph.has_node(b.0 as int));
                    let ia = choose|i: int| 0 <= i < n && #[trigger] ns[i] == a.0;
                    let ib = choose|i: int| 0 <= i < n && #[trigger] ns[i] == b.0;
                    assert(pos@[ns[ia] as int] == ia);
                    assert(pos@[ns[ib] as int] == ib);
                    let pa = place(graph, a.0);
                    let pb = place(graph, b.0);
                    assert(0 <= pa < n && ns[pa as int] == a.0) by {
                        assert(ns[ia] == a.0);
                    }
                    assert(0 <= pb < n && ns[pb as int] == b.0) by {
                        assert(ns[ib] == b.0);
                    }
                    if (pa as int) < ia {
                        assert(ns[pa as int] < ns[ia]);
                    }
                    if ia < (pa as int) {
                        assert(ns[ia] < ns[pa as int]);
                    }
                    if (pb as int) < ib {
                        assert(ns[pb as int] < ns[ib]);
                    }
                    if ib < (pb as int) {
                        assert(ns[ib] < ns[pb as int]);
                    }
                }
                let i = pos[a.0];
                let j = pos[b.0];
                c.push((i, j, EdgeId(e)));
                if !directed && i != j {
                    c.push((j, i, EdgeId(e)));
                }
            },
            None => {},
        }
        proof {
            let now = cells_upto(graph, e as int + 1);
            assert forall|k: int| 0 <= k < c@.len() implies {
                let cell = now[k];
                &&& (#[trigger] c@[k]).0 == cell.0
                &&& c@[k].1 == cell.1
                &&& c@[k].2.0 == cell.2
                &&& (c@[k].0 as int) < n
                &&& (c@[k].1 as int) < n
            } by {
                if k < cb.len() {
                    assert(c@[k] == cb[k]);
                    assert(now[k] == cells_upto(graph, e as int)[k]);
                }
            }
        }
        e = e + 1;
    }
    c
}

/// The positions of the stored entries that become edges, in order (see
/// `kept_upto`): every entry of a directed graph's matrix, and only those
/// on or above the diagonal of an undirected one, whose mirror images
/// would repeat them.
pub fn kept_entries(entries: &Vec<(usize, usize)>, directed: bool) -> (r: Vec<usize>)
    ensures
        r@ == kept_upto(entries@, directed, entries@.len() as int),
{
    let mut r: Vec<usize> = Vec::new();
    let mut k: usize = 0;
    while k < entries.len()
        invariant
            k <= entries@.len(),
            r@ == kept_upto(entries@, directed, k as int),
        decreases entries@.len() - k,
    {
        let (i, j) = entries[k];
        if directed || i <= j {
            r.push(k);
        }
        k = k + 1;
    }
    r
}

} // verus!
