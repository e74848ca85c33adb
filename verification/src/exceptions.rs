//! Exception types, each carrying a message and rendered as `Name: message`.

use vstd::prelude::*;
use crate::text::{decimal, usize_to_string};

verus! {

/// Base exception for the library, used for non-specific error cases.
#[derive(Debug)]
pub struct GraphinaException {
    /// Detailed error message.
    pub message: String,
}

impl GraphinaException {
    /// Creates the exception with the given message.
    pub fn new(message: &str) -> (e: Self)
        ensures
            e.message@ == message@,
    {
        GraphinaException { message: String::from_str(message) }
    }

    /// Renders the exception as `GraphinaException: message`.
    pub fn to_string(&self) -> (s: String)
        ensures
            s@ == "GraphinaException: "@ + self.message@,
    {
        let s = String::from_str("GraphinaException: ");
        s.concat(self.message.as_str())
    }
}

/// Exception for serious errors that may require immediate attention.
#[derive(Debug)]
pub struct GraphinaError {
    /// Detailed error message.
    pub message: String,
}

impl GraphinaError {
    /// Creates the exception with the given message.
    pub fn new(message: &str) -> (e: Self)
        ensures
            e.message@ == message@,
    {
        GraphinaError { message: String::from_str(message) }
    }

    /// Renders the exception as `GraphinaError: message`.
    pub fn to_string(&self) -> (s: String)
        ensures
            s@ == "GraphinaError: "@ + self.message@,
    {
        let s = String::from_str("GraphinaError: ");
        s.concat(self.message.as_str())
    }
}

/// Raised when a null graph is provided to an algorithm that cannot use it.
#[derive(Debug)]
pub struct GraphinaPointlessConcept {
    /// Detailed error message.
    pub message: String,
}

impl GraphinaPointlessConcept {
    /// Creates the exception with the given message.
    pub fn new(message: &str) -> (e: Self)
        ensures
            e.message@ == message@,
    {
        GraphinaPointlessConcept { message: String::from_str(message) }
    }

    /// Renders the exception as `GraphinaPointlessConcept: message`.
    pub fn to_string(&self) -> (s: String)
        ensures
            s@ == "GraphinaPointlessConcept: "@ + self.message@,
    {
        let s = String::from_str("GraphinaPointlessConcept: ");
        s.concat(self.message.as_str())
    }
}

/// Raised when an algorithm terminates unexpectedly.
#[derive(Debug)]
pub struct GraphinaAlgorithmError {
    /// Detailed error message.
    pub message: String,
}

impl GraphinaAlgorithmError {
    /// Creates the exception with the given message.
    pub fn new(message: &str) -> (e: Self)
        ensures
            e.message@ == message@,
    {
        GraphinaAlgorithmError { message: String::from_str(message) }
    }

    /// Renders the exception as `GraphinaAlgorithmError: message`.
    pub fn to_string(&self) -> (s: String)
        ensures
            s@ == "GraphinaAlgorithmError: "@ + self.message@,
    {
        let s = String::from_str("GraphinaAlgorithmError: ");
        s.concat(self.message.as_str())
    }
}

/// Raised when no feasible solution exists for an optimization problem.
#[derive(Debug)]
pub struct GraphinaUnfeasible {
    /// Detailed error message.
    pub message: String,
}

impl GraphinaUnfeasible {
    /// Creates the exception with the given message.
    pub fn new(message: &str) -> (e: Self)
        ensures
            e.message@ == message@,
    {
        GraphinaUnfeasible { message: String::from_str(message) }
    }

    /// Renders the exception as `GraphinaUnfeasible: message`.
    pub fn to_string(&self) -> (s: String)
        ensures
            s@ == "GraphinaUnfeasible: "@ + self.message@,
    {
        let s = String::from_str("GraphinaUnfeasible: ");
        s.concat(self.message.as_str())
    }
}

/// Raised when no path exists between the requested nodes.
#[derive(Debug)]
pub struct GraphinaNoPath {
    /// Detailed error message.
    pub message: String,
}

impl GraphinaNoPath {
    /// Creates the exception with the given message.
    pub fn new(message: &str) -> (e: Self)
        ensures
            e.message@ == message@,
    {
        GraphinaNoPath { message: String::from_str(message) }
    }

    /// Renders the exception as `GraphinaNoPath: message`.
    pub fn to_string(&self) -> (s: String)
        ensures
            s@ == "GraphinaNoPath: "@ + self.message@,
    {
        let s = String::from_str("GraphinaNoPath: ");
        s.concat(self.message.as_str())
    }
}

/// Raised when a cycle is requested but none exists.
#[derive(Debug)]
pub struct GraphinaNoCycle {
    /// Detailed error message.
    pub message: String,
}

impl GraphinaNoCycle {
    /// Creates the exception with the given message.
    pub fn new(message: &str) -> (e: Self)
        ensures
            e.message@ == message@,
    {
        GraphinaNoCycle { message: String::from_str(message) }
    }

    /// Renders the exception as `GraphinaNoCycle: message`.
    pub fn to_string(&self) -> (s: String)
        ensures
            s@ == "GraphinaNoCycle: "@ + self.message@,
    {
        let s = String::from_str("GraphinaNoCycle: ");
        s.concat(self.message.as_str())
    }
}

/// Raised when a requested node is not in the graph.
#[derive(Debug)]
pub struct NodeNotFound {
    /// Detailed error message.
    pub message: String,
}

impl NodeNotFound {
    /// Creates the exception with the given message.
    pub fn new(message: &str) -> (e: Self)
        ensures
            e.message@ == message@,
    {
        NodeNotFound { message: String::from_str(message) }
    }

    /// Renders the exception as `NodeNotFound: message`.
    pub fn to_string(&self) -> (s: String)
        ensures
            s@ == "NodeNotFound: "@ + self.message@,
    {
        let s = String::from_str("NodeNotFound: ");
        s.concat(self.message.as_str())
    }
}

/// Raised when a graph has a cycle but an acyclic one was expected.
#[derive(Debug)]
pub struct HasACycle {
    /// Detailed error message.
    pub message: String,
}

impl HasACycle {
    /// Creates the exception with the given message.
    pub fn new(message: &str) -> (e: Self)
        ensures
            e.message@ == message@,
    {
        HasACycle { message: String::from_str(message) }
    }

    /// Renders the exception as `HasACycle: message`.
    pub fn to_string(&self) -> (s: String)
        ensures
            s@ == "HasACycle: "@ + self.message@,
    {
        let s = String::from_str("HasACycle: ");
        s.concat(self.message.as_str())
    }
}

/// Raised when an optimization problem is unbounded.
#[derive(Debug)]
pub struct GraphinaUnbounded {
    /// Detailed error message.
    pub message: String,
}

impl GraphinaUnbounded {
    /// Creates the exception with the given message.
    pub fn new(message: &str) -> (e: Self)
        ensures
            e.message@ == message@,
    {
        GraphinaUnbounded { message: String::from_str(message) }
    }

    /// Renders the exception as `GraphinaUnbounded: message`.
    pub fn to_string(&self) -> (s: String)
        ensures
            s@ == "GraphinaUnbounded: "@ + self.message@,
    {
        let s = String::from_str("GraphinaUnbounded: ");
        s.concat(self.message.as_str())
    }
}

/// Raised when a feature is not implemented for the given graph type.
#[derive(Debug)]
pub struct GraphinaNotImplemented {
    /// Detailed error message.
    pub message: String,
}

impl GraphinaNotImplemented {
    /// Creates the exception with the given message.
    pub fn new(message: &str) -> (e: Self)
        ensures
            e.message@ == message@,
    {
        GraphinaNotImplemented { message: String::from_str(message) }
    }

    /// Renders the exception as `GraphinaNotImplemented: message`.
    pub fn to_string(&self) -> (s: String)
        ensures
            s@ == "GraphinaNotImplemented: "@ + self.message@,
    {
        let s = String::from_str("GraphinaNotImplemented: ");
        s.concat(self.message.as_str())
    }
}

/// Raised when more than one solution exists.
#[derive(Debug)]
pub struct AmbiguousSolution {
    /// Detailed error message.
    pub message: String,
}

impl AmbiguousSolution {
    /// Creates the exception with the given message.
    pub fn new(message: &str) -> (e: Self)
        ensures
            e.message@ == message@,
    {
        AmbiguousSolution { message: String::from_str(message) }
    }

    /// Renders the exception as `AmbiguousSolution: message`.
    pub fn to_string(&self) -> (s: String)
        ensures
            s@ == "AmbiguousSolution: "@ + self.message@,
    {
        let s = String::from_str("AmbiguousSolution: ");
        s.concat(self.message.as_str())
    }
}

/// Raised when an algorithm exceeds its iteration limit.
#[derive(Debug)]
pub struct ExceededMaxIterations {
    /// Detailed error message.
    pub message: String,
}

impl ExceededMaxIterations {
    /// Creates the exception with the given message.
    pub fn new(message: &str) -> (e: Self)
        ensures
            e.message@ == message@,
    {
        ExceededMaxIterations { message: String::from_str(message) }
    }

    /// Renders the exception as `ExceededMaxIterations: message`.
    pub fn to_string(&self) -> (s: String)
        ensures
            s@ == "ExceededMaxIterations: "@ + self.message@,
    {
        let s = String::from_str("ExceededMaxIterations: ");
        s.concat(self.message.as_str())
    }
}

/// Raised when the power iteration method fails to converge within the iteration limit.
#[derive(Debug)]
pub struct PowerIterationFailedConvergence {
    /// The number of iterations performed.
    pub num_iterations: usize,
    /// Detailed error message.
    pub message: String,
}

impl PowerIterationFailedConvergence {
    /// Creates the exception with the iteration count and message.
    pub fn new(num_iterations: usize, message: &str) -> (e: Self)
        ensures
            e.num_iterations == num_iterations,
            e.message@ == message@,
    {
        PowerIterationFailedConvergence { num_iterations, message: String::from_str(message) }
    }

    /// Renders the exception as
    /// `PowerIterationFailedConvergence after N iterations: message`.
    pub fn to_string(&self) -> (s: String)
        ensures
            s@ == "PowerIterationFailedConvergence after "@ + decimal(self.num_iterations as nat)
                + " iterations: "@ + self.message@,
    {
        let s = String::from_str("PowerIterationFailedConvergence after ");
        let n = usize_to_string(self.num_iterations);
        let s = s.concat(n.as_str());
        let s = s.concat(" iterations: ");
        s.concat(self.message.as_str())
    }
}

} // verus!
