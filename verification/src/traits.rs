//! Interfaces for graph backends, split by concern so that an implementation
//! can offer only the operations that make sense for it. Implementations
//! promise nothing beyond their signatures.

use vstd::prelude::*;
use crate::error::GraphinaError;
use crate::types::{EdgeId, NodeId};

verus! {

/// Read-only queries.
pub trait GraphQuery<A, W> {
    fn is_directed(&self) -> bool;

    fn is_empty(&self) -> bool;

    fn node_count(&self) -> usize;

    fn edge_count(&self) -> usize;

    fn contains_node(&self, node: NodeId) -> bool;

    fn contains_edge(&self, source: NodeId, target: NodeId) -> bool;

    fn node_attr(&self, node: NodeId) -> Option<&A>;

    fn edge_weight(&self, source: NodeId, target: NodeId) -> Option<&W>;
}

/// Structural changes.
pub trait GraphMutate<A, W>: GraphQuery<A, W> {
    fn add_node(&mut self, attr: A) -> NodeId;

    fn add_edge(&mut self, source: NodeId, target: NodeId, weight: W) -> Result<EdgeId, GraphinaError>;

    fn update_node(&mut self, node: NodeId, new_attr: A) -> Result<(), GraphinaError>;

    fn remove_node(&mut self, node: NodeId) -> Result<A, GraphinaError>;

    fn remove_edge(&mut self, edge: EdgeId) -> Result<W, GraphinaError>;

    fn clear(&mut self);
}

/// Neighbourhood access.
pub trait GraphTraversal<A, W>: GraphQuery<A, W> {
    fn node_ids(&self) -> Vec<NodeId>;

    fn neighbors(&self, node: NodeId) -> Vec<NodeId>;

    fn degree(&self, node: NodeId) -> Option<usize>;

    fn in_degree(&self, node: NodeId) -> Option<usize>;

    fn out_degree(&self, node: NodeId) -> Option<usize>;
}

/// Adding many nodes or edges at once.
pub trait GraphBulkOps<A, W>: GraphMutate<A, W> {
    fn add_nodes_bulk(&mut self, attributes: &[A]) -> Vec<NodeId>
        where A: Clone;

    fn add_edges_bulk(&mut self, edges: &[(NodeId, NodeId, W)]) -> Result<Vec<EdgeId>, GraphinaError>
        where W: Clone;
}

/// Whole-graph properties.
pub trait GraphAlgorithms<A, W>: GraphTraversal<A, W> {
    fn is_connected(&self) -> bool;

    fn is_acyclic(&self) -> bool;

    fn validate(&self) -> Result<(), GraphinaError>;
}

/// Weight queries.
pub trait WeightedGraph<A, W>: GraphQuery<A, W> where W: PartialOrd {
    fn min_edge_weight(&self) -> Option<&W>;

    fn max_edge_weight(&self) -> Option<&W>;

    fn total_weight(&self) -> W
        where W: Clone + std::ops::Add<Output = W> + Default;
}

/// Saving to and loading from files.
pub trait GraphSerialization<A, W>: GraphQuery<A, W> {
    fn save_json(&self, path: &str) -> Result<(), GraphinaError>;

    fn load_json(path: &str) -> Result<Self, GraphinaError>
        where Self: Sized;

    fn save_binary(&self, path: &str) -> Result<(), GraphinaError>;

    fn load_binary(path: &str) -> Result<Self, GraphinaError>
        where Self: Sized;
}

} // verus!
