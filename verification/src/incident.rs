//! The edges at a node, with their weights, in the order the graph's own
//! adjacency lists them.

use vstd::prelude::*;
use crate::types::{BaseGraph, Directed, GraphConstructor, NodeId, Undirected, out_from, in_from};

verus! {

/// Ids of the edges with index `lo` or above that leave `n`, newest first:
/// the edges behind `out_from`.
pub open spec fn out_edges_from<W>(edges: Seq<Option<(usize, usize, W)>>, n: usize, lo: int) -> Seq<int>
    decreases edges.len() - lo,
{
    if lo < 0 || lo >= edges.len() {
        seq![]
    } else {
        let rest = out_edges_from(edges, n, lo + 1);
        match edges[lo] {
            Some(e) => if e.0 == n { rest.push(lo) } else { rest },
            None => rest,
        }
    }
}

/// Ids of the edges with index `lo` or above that enter `n` from another
/// node, newest first: the edges behind `in_from`.
pub open spec fn in_edges_from<W>(edges: Seq<Option<(usize, usize, W)>>, n: usize, lo: int) -> Seq<int>
    decreases edges.len() - lo,
{
    if lo < 0 || lo >= edges.len() {
        seq![]
    } else {
        let rest = in_edges_from(edges, n, lo + 1);
        match edges[lo] {
            Some(e) => if e.1 == n && e.0 != n { rest.push(lo) } else { rest },
            None => rest,
        }
    }
}

impl<A, W, Ty: GraphConstructor> BaseGraph<A, W, Ty> {
    /// Ids of the edges at `n` that `neighbor_seq` follows, in its order:
    /// those leaving `n`, then, for undirected graphs, those entering it.
    pub open spec fn incident_ids(&self, n: usize) -> Seq<int> {
        if self.directed() {
            out_edges_from(self.edge_slots(), n, 0)
        } else {
            out_edges_from(self.edge_slots(), n, 0) + in_edges_from(self.edge_slots(), n, 0)
        }
    }

    /// The edges at `source` as `(other end, weight)`, in the order of
    /// `neighbors`: the edges leaving it, newest first, and for undirected
    /// graphs then the edges entering it from another node, newest first.
    pub fn outgoing_edges(&self, source: NodeId) -> (r: Vec<(NodeId, &W)>)
        ensures
            r@.len() == self.incident_ids(source.0).len(),
            r@.len() == self.neighbor_seq(source.0).len(),
            forall|k: int| 0 <= k < r@.len() ==> (#[trigger] r@[k]).0.0 == self.neighbor_seq(source.0)[k]
                && *r@[k].1 == self.weight(self.incident_ids(source.0)[k]),
    {
        let n = source.0;
        let mut r: Vec<(NodeId, &W)> = Vec::new();
        let len = self.edge_bound();
        let mut k = len;
        while k > 0
            invariant
                k <= len,
                len == self.edge_slots().len(),
                r@.len() == out_edges_from(self.edge_slots(), n, k as int).len(),
                r@.len() == out_from(self.edge_slots(), n, k as int).len(),
                forall|j: int| 0 <= j < r@.len() ==> (#[trigger] r@[j]).0.0 == out_from(self.edge_slots(), n, k as int)[j]
                    && *r@[j].1 == self.weight(out_edges_from(self.edge_slots(), n, k as int)[j]),
            decreases k,
        {
            k = k - 1;
            match self.edge_endpoints(crate::types::EdgeId(k)) {
                Some((u, v)) => {
                    if u.0 == n {
                        let w = self.edge_weight(crate::types::EdgeId(k)).unwrap();
                        r.push((v, w));
                    }
                },
                None => {},
            }
        }
        let ghost outs = r@.len();
        if !Ty::is_directed() {
            let mut k = len;
            while k > 0
                invariant
                    k <= len,
                    len == self.edge_slots().len(),
                    !self.directed(),
                    outs == out_edges_from(self.edge_slots(), n, 0).len(),
                    outs == out_from(self.edge_slots(), n, 0).len(),
                    r@.len() == outs + in_edges_from(self.edge_slots(), n, k as int).len(),
                    r@.len() == outs + in_from(self.edge_slots(), n, k as int).len(),
                    forall|j: int| 0 <= j < outs ==> (#[trigger] r@[j]).0.0 == out_from(self.edge_slots(), n, 0)[j]
                        && *r@[j].1 == self.weight(out_edges_from(self.edge_slots(), n, 0)[j]),
                    forall|j: int| outs <= j < r@.len() ==> (#[trigger] r@[j]).0.0
                        == in_from(self.edge_slots(), n, k as int)[j - outs]
                        && *r@[j].1 == self.weight(in_edges_from(self.edge_slots(), n, k as int)[j - outs]),
                decreases k,
            {
                k = k - 1;
                match self.edge_endpoints(crate::types::EdgeId(k)) {
                    Some((u, v)) => {
                        if v.0 == n && u.0 != n {
                            let w = self.edge_weight(crate::types::EdgeId(k)).unwrap();
                            r.push((u, w));
                        }
                    },
                    None => {},
                }
            }
        }
        r
    }
}

/// Edges as a flow sees them: each edge of a directed graph once, and each
/// edge of an undirected graph in both directions.
pub trait GraphinaGraph<A, W> {
    /// The edges as `(source, target, weight)`, in edge order; for an
    /// undirected graph each edge is followed by its reverse.
    fn flow_edges(&self) -> Vec<(NodeId, NodeId, &W)>;
}

impl<A, W> GraphinaGraph<A, W> for BaseGraph<A, W, Directed> {
    /// Each edge once, in increasing id order.
    fn flow_edges(&self) -> (r: Vec<(NodeId, NodeId, &W)>)
        ensures
            r@.len() == self.spec_edge_ids().len(),
            forall|k: int| 0 <= k < r@.len() ==> (#[trigger] r@[k]).0.0 == self.src(self.spec_edge_ids()[k] as int)
                && r@[k].1.0 == self.tgt(self.spec_edge_ids()[k] as int)
                && *r@[k].2 == self.weight(self.spec_edge_ids()[k] as int),
    {
        self.edges()
    }
}

impl<A, W> GraphinaGraph<A, W> for BaseGraph<A, W, Undirected> {
    /// Each edge in increasing id order, followed by its reverse.
    fn flow_edges(&self) -> (r: Vec<(NodeId, NodeId, &W)>)
        ensures
            r@.len() == 2 * self.spec_edge_ids().len(),
            forall|k: int| 0 <= k < self.spec_edge_ids().len() ==> {
                let e = self.spec_edge_ids()[k] as int;
                &&& (#[trigger] r@[2 * k]).0.0 == self.src(e) && r@[2 * k].1.0 == self.tgt(e)
                    && *r@[2 * k].2 == self.weight(e)
                &&& r@[2 * k + 1].0.0 == self.tgt(e) && r@[2 * k + 1].1.0 == self.src(e)
                    && *r@[2 * k + 1].2 == self.weight(e)
            },
    {
        let es = self.edges();
        let mut r: Vec<(NodeId, NodeId, &W)> = Vec::new();
        let mut k: usize = 0;
        while k < es.len()
            invariant
                k <= es@.len(),
                es@.len() == self.spec_edge_ids().len(),
                forall|j: int| 0 <= j < es@.len() ==> (#[trigger] es@[j]).0.0 == self.src(self.spec_edge_ids()[j] as int)
                    && es@[j].1.0 == self.tgt(self.spec_edge_ids()[j] as int)
                    && *es@[j].2 == self.weight(self.spec_edge_ids()[j] as int),
                r@.len() == 2 * k,
                forall|j: int| 0 <= j < k ==> {
                    let e = self.spec_edge_ids()[j] as int;
                    &&& (#[trigger] r@[2 * j]).0.0 == self.src(e) && r@[2 * j].1.0 == self.tgt(e)
                        && *r@[2 * j].2 == self.weight(e)
                    &&& r@[2 * j + 1].0.0 == self.tgt(e) && r@[2 * j + 1].1.0 == self.src(e)
                        && *r@[2 * j + 1].2 == self.weight(e)
                },
            decreases es@.len() - k,
        {
            let (s, t, w) = es[k];
            r.push((s, t, w));
            r.push((t, s, w));
            proof {
                assert forall|j: int| 0 <= j < k + 1 implies {
                    let e = self.spec_edge_ids()[j] as int;
                    &&& (#[trigger] r@[2 * j]).0.0 == self.src(e) && r@[2 * j].1.0 == self.tgt(e)
                        && *r@[2 * j].2 == self.weight(e)
                    &&& r@[2 * j + 1].0.0 == self.tgt(e) && r@[2 * j + 1].1.0 == self.src(e)
                        && *r@[2 * j + 1].2 == self.weight(e)
                } by {
                    if j < k {
                        assert(r@[2 * j] == r@.drop_last().drop_last()[2 * j]);
                        assert(r@[2 * j + 1] == r@.drop_last().drop_last()[2 * j + 1]);
                    }
                }
            }
            k = k + 1;
        }
        r
    }
}

} // verus!
