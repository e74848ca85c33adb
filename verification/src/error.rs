//! Unified error type for graph operations.

use vstd::prelude::*;
use crate::text::{decimal, usize_to_string};
use crate::exceptions::{GraphinaException, GraphinaNoPath, NodeNotFound, PowerIterationFailedConvergence};

verus! {

/// Unified error type for all graph operations.
#[derive(Debug)]
pub enum GraphinaError {
    /// General-purpose error
    Generic(String),
    /// Node not found in graph
    NodeNotFound(String),
    /// Edge not found in graph
    EdgeNotFound(String),
    /// No path exists between nodes
    NoPath(String),
    /// No cycle exists in graph
    NoCycle(String),
    /// Graph has a cycle when acyclic structure is expected
    HasCycle(String),
    /// Graph is empty or invalid for the operation
    InvalidGraph(String),
    /// Algorithm terminated unexpectedly
    AlgorithmError(String),
    /// No feasible solution exists
    Unfeasible(String),
    /// Optimization problem is unbounded
    Unbounded(String),
    /// Feature not implemented for this graph type
    NotImplemented(String),
    /// Ambiguous solution exists
    AmbiguousSolution(String),
    /// Exceeded maximum iterations
    ExceededMaxIterations { iterations: usize, message: String },
    /// Power iteration failed to converge
    ConvergenceFailed { iterations: usize, message: String },
    /// I/O error
    IoError(String),
    /// Serialization/deserialization error
    SerializationError(String),
    /// Invalid argument or parameter
    InvalidArgument(String),
}

/// The human-readable rendering of an error, as shown to users.
pub open spec fn error_text(e: GraphinaError) -> Seq<char> {
    match e {
        GraphinaError::Generic(m) => "Graphina error: "@ + m@,
        GraphinaError::NodeNotFound(m) => "Node not found: "@ + m@,
        GraphinaError::EdgeNotFound(m) => "Edge not found: "@ + m@,
        GraphinaError::NoPath(m) => "No path exists: "@ + m@,
        GraphinaError::NoCycle(m) => "No cycle exists: "@ + m@,
        GraphinaError::HasCycle(m) => "Graph has a cycle: "@ + m@,
        GraphinaError::InvalidGraph(m) => "Invalid graph: "@ + m@,
        GraphinaError::AlgorithmError(m) => "Algorithm error: "@ + m@,
        GraphinaError::Unfeasible(m) => "No feasible solution: "@ + m@,
        GraphinaError::Unbounded(m) => "Unbounded solution: "@ + m@,
        GraphinaError::NotImplemented(m) => "Not implemented: "@ + m@,
        GraphinaError::AmbiguousSolution(m) => "Ambiguous solution: "@ + m@,
        GraphinaError::ExceededMaxIterations { iterations, message } =>
            "Exceeded max iterations ("@ + decimal(iterations as nat) + "): "@ + message@,
        GraphinaError::ConvergenceFailed { iterations, message } =>
            "Convergence failed after "@ + decimal(iterations as nat) + " iterations: "@ + message@,
        GraphinaError::IoError(m) => "I/O error: "@ + m@,
        GraphinaError::SerializationError(m) => "Serialization error: "@ + m@,
        GraphinaError::InvalidArgument(m) => "Invalid argument: "@ + m@,
    }
}

fn prefixed(prefix: &str, message: &String) -> (s: String)
    ensures
        s@ == prefix@ + message@,
{
    let s = String::from_str(prefix);
    s.concat(message.as_str())
}

impl GraphinaError {
    /// Creates a generic error with the given message.
    pub fn generic(message: &str) -> (e: Self)
        ensures
            e == GraphinaError::Generic(e->Generic_0) && e->Generic_0@ == message@,
    {
        GraphinaError::Generic(String::from_str(message))
    }

    /// Creates a node not found error.
    pub fn node_not_found(message: &str) -> (e: Self)
        ensures
            e is NodeNotFound && e->NodeNotFound_0@ == message@,
    {
        GraphinaError::NodeNotFound(String::from_str(message))
    }

    /// Creates an edge not found error.
    pub fn edge_not_found(message: &str) -> (e: Self)
        ensures
            e is EdgeNotFound && e->EdgeNotFound_0@ == message@,
    {
        GraphinaError::EdgeNotFound(String::from_str(message))
    }

    /// Creates a no path error.
    pub fn no_path(message: &str) -> (e: Self)
        ensures
            e is NoPath && e->NoPath_0@ == message@,
    {
        GraphinaError::NoPath(String::from_str(message))
    }

    /// Creates an invalid graph error.
    pub fn invalid_graph(message: &str) -> (e: Self)
        ensures
            e is InvalidGraph && e->InvalidGraph_0@ == message@,
    {
        GraphinaError::InvalidGraph(String::from_str(message))
    }

    /// Creates an algorithm error.
    pub fn algorithm_error(message: &str) -> (e: Self)
        ensures
            e is AlgorithmError && e->AlgorithmError_0@ == message@,
    {
        GraphinaError::AlgorithmError(String::from_str(message))
    }

    /// Creates an invalid argument error.
    pub fn invalid_argument(message: &str) -> (e: Self)
        ensures
            e is InvalidArgument && e->InvalidArgument_0@ == message@,
    {
        GraphinaError::InvalidArgument(String::from_str(message))
    }

    /// Creates a convergence failed error.
    pub fn convergence_failed(iterations: usize, message: &str) -> (e: Self)
        ensures
            e matches GraphinaError::ConvergenceFailed { iterations: i, message: m }
                && i == iterations && m@ == message@,
    {
        GraphinaError::ConvergenceFailed { iterations, message: String::from_str(message) }
    }

    /// Renders the error as text.
    pub fn to_string(&self) -> (s: String)
        ensures
            s@ == error_text(*self),
    {
        match self {
            GraphinaError::Generic(m) => prefixed("Graphina error: ", m),
            GraphinaError::NodeNotFound(m) => prefixed("Node not found: ", m),
            GraphinaError::EdgeNotFound(m) => prefixed("Edge not found: ", m),
            GraphinaError::NoPath(m) => prefixed("No path exists: ", m),
            GraphinaError::NoCycle(m) => prefixed("No cycle exists: ", m),
            GraphinaError::HasCycle(m) => prefixed("Graph has a cycle: ", m),
            GraphinaError::InvalidGraph(m) => prefixed("Invalid graph: ", m),
            GraphinaError::AlgorithmError(m) => prefixed("Algorithm error: ", m),
            GraphinaError::Unfeasible(m) => prefixed("No feasible solution: ", m),
            GraphinaError::Unbounded(m) => prefixed("Unbounded solution: ", m),
            GraphinaError::NotImplemented(m) => prefixed("Not implemented: ", m),
            GraphinaError::AmbiguousSolution(m) => prefixed("Ambiguous solution: ", m),
            GraphinaError::ExceededMaxIterations { iterations, message } => {
                let s = String::from_str("Exceeded max iterations (");
                let n = usize_to_string(*iterations);
                let s = s.concat(n.as_str());
                let s = s.concat("): ");
                s.concat(message.as_str())
            },
            GraphinaError::ConvergenceFailed { iterations, message } => {
                let s = String::from_str("Convergence failed after ");
                let n = usize_to_string(*iterations);
                let s = s.concat(n.as_str());
                let s = s.concat(" iterations: ");
                s.concat(message.as_str())
            },
            GraphinaError::IoError(m) => prefixed("I/O error: ", m),
            GraphinaError::SerializationError(m) => prefixed("Serialization error: ", m),
            GraphinaError::InvalidArgument(m) => prefixed("Invalid argument: ", m),
        }
    }
}

impl From<GraphinaException> for GraphinaError {
    /// The exception's message as a generic error.
    fn from(e: GraphinaException) -> (r: Self) {
        GraphinaError::Generic(e.message)
    }
}

impl vstd::std_specs::convert::FromSpecImpl<GraphinaException> for GraphinaError {
    open spec fn obeys_from_spec() -> bool {
        true
    }

    open spec fn from_spec(e: GraphinaException) -> Self {
        GraphinaError::Generic(e.message)
    }
}

impl From<NodeNotFound> for GraphinaError {
    /// The exception's message as a node-not-found error.
    fn from(e: NodeNotFound) -> (r: Self) {
        GraphinaError::NodeNotFound(e.message)
    }
}

impl vstd::std_specs::convert::FromSpecImpl<NodeNotFound> for GraphinaError {
    open spec fn obeys_from_spec() -> bool {
        true
    }

    open spec fn from_spec(e: NodeNotFound) -> Self {
        GraphinaError::NodeNotFound(e.message)
    }
}

impl From<GraphinaNoPath> for GraphinaError {
    /// The exception's message as a no-path error.
    fn from(e: GraphinaNoPath) -> (r: Self) {
        GraphinaError::NoPath(e.message)
    }
}

impl vstd::std_specs::convert::FromSpecImpl<GraphinaNoPath> for GraphinaError {
    open spec fn obeys_from_spec() -> bool {
        true
    }

    open spec fn from_spec(e: GraphinaNoPath) -> Self {
        GraphinaError::NoPath(e.message)
    }
}

impl From<PowerIterationFailedConvergence> for GraphinaError {
    /// The iteration count and message as a convergence failure.
    fn from(e: PowerIterationFailedConvergence) -> (r: Self) {
        GraphinaError::ConvergenceFailed { iterations: e.num_iterations, message: e.message }
    }
}

impl vstd::std_specs::convert::FromSpecImpl<PowerIterationFailedConvergence> for GraphinaError {
    open spec fn obeys_from_spec() -> bool {
        true
    }

    open spec fn from_spec(e: PowerIterationFailedConvergence) -> Self {
        GraphinaError::ConvergenceFailed { iterations: e.num_iterations, message: e.message }
    }
}

} // verus!
