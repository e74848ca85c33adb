//! Conversion between graphs and their serializable form: the node attributes
//! in node order and the edges as `(source position, target position, weight)`.
//! Reading and writing files in JSON, binary or GraphML happens outside the
//! library.

use vstd::prelude::*;
use crate::builders::ends;
use crate::error::GraphinaError;
use crate::subgraphs::{all_true, masked, sub_edges};
use crate::types::{BaseGraph, GraphConstructor, NodeId, ids};

verus! {

/// Serializable representation of a graph for JSON/binary formats.
pub struct SerializableGraph<A, W> {
    /// Whether the graph is directed
    pub directed: bool,
    /// Node attributes indexed by their position
    pub nodes: Vec<A>,
    /// Edges as (source_index, target_index, weight) tuples
    pub edges: Vec<(usize, usize, W)>,
}

/// Every edge of `data` names two of its nodes.
pub open spec fn well_indexed<A, W>(data: SerializableGraph<A, W>) -> bool {
    forall|k: int| 0 <= k < data.edges@.len() ==> (#[trigger] data.edges@[k]).0 < data.nodes@.len()
        && data.edges@[k].1 < data.nodes@.len()
}

/// `g` is built from `data`: node `k` holds a clone of `data.nodes[k]` and
/// edge `k` joins the nodes `data.edges[k].0` and `data.edges[k].1` with a
/// clone of its weight.
pub open spec fn built_from<A: Clone, W: Clone, Ty: GraphConstructor>(
    g: BaseGraph<A, W, Ty>,
    data: SerializableGraph<A, W>,
) -> bool {
    &&& g.wf()
    &&& g.node_slots().len() == data.nodes@.len()
    &&& forall|k: int| 0 <= k < data.nodes@.len() ==> (#[trigger] g.node_slots()[k]) is Some
        && cloned(data.nodes@[k], g.node_slots()[k].unwrap())
    &&& g.edge_slots().len() == data.edges@.len()
    &&& forall|k: int| 0 <= k < data.edges@.len() ==> (#[trigger] g.edge_slots()[k]) is Some
        && ends(g.edge_slots()[k]) == (data.edges@[k].0, data.edges@[k].1)
        && cloned(data.edges@[k].2, g.edge_slots()[k].unwrap().2)
}

/// `data` describes `g`: the existing nodes in index order, and the existing
/// edges in index order with each endpoint renamed to its position among the
/// existing nodes.
pub open spec fn describes<A: Clone, W: Clone, Ty: GraphConstructor>(
    data: SerializableGraph<A, W>,
    g: BaseGraph<A, W, Ty>,
) -> bool {
    let live = g.spec_node_ids();
    let es = sub_edges(g.edge_slots(), live);
    &&& data.directed == Ty::spec_is_directed()
    &&& data.nodes@.len() == live.len()
    &&& forall|k: int| 0 <= k < live.len() ==> cloned(g.node_slots()[live[k] as int].unwrap(), #[trigger] data.nodes@[k])
    &&& data.edges@.len() == es.len()
    &&& forall|k: int| 0 <= k < es.len() ==> (#[trigger] data.edges@[k]).0 == es[k].0
        && data.edges@[k].1 == es[k].1 && cloned(es[k].2, data.edges@[k].2)
}

/// The message for a serialized graph whose directedness does not match.
pub open spec fn mismatch_message() -> Seq<char> {
    "Directedness mismatch between SerializableGraph and target graph type"@
}

impl<A: Clone, W: Clone, Ty: GraphConstructor> BaseGraph<A, W, Ty> {
    /// Converts the graph to its serializable form.
    pub fn to_serializable(&self) -> (data: SerializableGraph<A, W>)
        requires
            self.wf(),
        ensures
            describes(data, *self),
            well_indexed(data),
    {
        let nodes = self.node_ids();
        let bound = self.node_bound();
        let ghost live = self.spec_node_ids();
        proof {
            crate::types::lemma_live_indices(self.node_slots());
            assert forall|k: int| 0 <= k < nodes@.len() implies self.has_node(#[trigger] nodes@[k].0 as int) by {
                assert(ids(nodes@)[k] == nodes@[k].0);
            }
        }
        let attrs = self.cloned_attrs(nodes.as_slice());
        let map = self.position_map(nodes.as_slice());
        let keep = all_true(self.edge_bound());
        let edges = self.mapped_edges(&map, &keep, Ghost(live));
        let data = SerializableGraph { directed: Ty::is_directed(), nodes: attrs, edges };
        proof {
            assert(masked(self.edge_slots(), keep@) =~= self.edge_slots());
            assert forall|k: int| 0 <= k < live.len() implies cloned(self.node_slots()[live[k] as int].unwrap(), #[trigger] data.nodes@[k]) by {
                assert(ids(nodes@)[k] == nodes@[k].0);
            }
        }
        data
    }

    /// Builds a graph from its serializable form: node `k` for the `k`-th
    /// attribute and edge `k` for the `k`-th edge. The directedness flag is
    /// not checked (see `try_from_serializable`).
    pub fn from_serializable(data: &SerializableGraph<A, W>) -> (g: Self)
        requires
            well_indexed(*data),
            data.edges@.len() < usize::MAX / 2,
        ensures
            built_from(g, *data),
    {
        let mut graph = Self::with_capacity(data.nodes.len(), data.edges.len());
        let mut node_ids: Vec<NodeId> = Vec::new();
        let mut k: usize = 0;
        while k < data.nodes.len()
            invariant
                k <= data.nodes@.len(),
                graph.wf(),
                graph.edge_slots().len() == 0,
                graph.node_slots().len() == k,
                node_ids@.len() == k,
                forall|j: int| 0 <= j < k ==> (#[trigger] node_ids@[j]).0 == j,
                forall|j: int| 0 <= j < k ==> (#[trigger] graph.node_slots()[j]) is Some
                    && cloned(data.nodes@[j], graph.node_slots()[j].unwrap()),
            decreases data.nodes@.len() - k,
        {
            let id = graph.add_node(data.nodes[k].clone());
            node_ids.push(id);
            k = k + 1;
        }
        let mut e: usize = 0;
        while e < data.edges.len()
            invariant
                well_indexed(*data),
                data.edges@.len() < usize::MAX / 2,
                e <= data.edges@.len(),
                graph.wf(),
                graph.node_slots().len() == data.nodes@.len(),
                node_ids@.len() == data.nodes@.len(),
                forall|j: int| 0 <= j < node_ids@.len() ==> (#[trigger] node_ids@[j]).0 == j,
                forall|j: int| 0 <= j < data.nodes@.len() ==> (#[trigger] graph.node_slots()[j]) is Some
                    && cloned(data.nodes@[j], graph.node_slots()[j].unwrap()),
                graph.edge_slots().len() == e,
                forall|j: int| 0 <= j < e ==> (#[trigger] graph.edge_slots()[j]) is Some
                    && ends(graph.edge_slots()[j]) == (data.edges@[j].0, data.edges@[j].1)
                    && cloned(data.edges@[j].2, graph.edge_slots()[j].unwrap().2),
            decreases data.edges@.len() - e,
        {
            let edge = &data.edges[e];
            assert(edge.0 < data.nodes@.len() && edge.1 < data.nodes@.len());
            let source = node_ids[edge.0];
            let target = node_ids[edge.1];
            proof {
                assert(graph.node_slots()[edge.0 as int] is Some);
                assert(graph.node_slots()[edge.1 as int] is Some);
            }
            let ghost before = graph.edge_slots();
            graph.add_edge(source, target, edge.2.clone());
            proof {
                assert forall|j: int| 0 <= j < e + 1 implies (#[trigger] graph.edge_slots()[j]) is Some
                    && ends(graph.edge_slots()[j]) == (data.edges@[j].0, data.edges@[j].1)
                    && cloned(data.edges@[j].2, graph.edge_slots()[j].unwrap().2) by {
                    if j < e {
                        assert(graph.edge_slots()[j] == before[j]);
                    }
                }
            }
            e = e + 1;
        }
        graph
    }

    /// Like `from_serializable`, but fails when the directedness flag does not
    /// match the graph type (before looking at the edges).
    pub fn try_from_serializable(data: &SerializableGraph<A, W>) -> (r: Result<Self, GraphinaError>)
        requires
            data.directed == Ty::spec_is_directed() ==> well_indexed(*data),
            data.edges@.len() < usize::MAX / 2,
        ensures
            r is Err <==> data.directed != Ty::spec_is_directed(),
            r is Err ==> r->Err_0 is InvalidGraph && r->Err_0->InvalidGraph_0@ == mismatch_message(),
            r is Ok ==> built_from(r->Ok_0, *data),
    {
        if Ty::is_directed() != data.directed {
            return Err(GraphinaError::InvalidGraph(String::from_str(
                "Directedness mismatch between SerializableGraph and target graph type",
            )));
        }
        Ok(Self::from_serializable(data))
    }
}

} // verus!
