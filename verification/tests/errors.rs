use graphina::error::GraphinaError;
use graphina::exceptions::{
    AmbiguousSolution, ExceededMaxIterations, GraphinaAlgorithmError, GraphinaException,
    GraphinaNoCycle, GraphinaNoPath, GraphinaNotImplemented, GraphinaPointlessConcept,
    GraphinaUnbounded, GraphinaUnfeasible, HasACycle, NodeNotFound, PowerIterationFailedConvergence,
};

#[test]
fn test_error_display() {
    let err = GraphinaError::generic("test error");
    assert_eq!(err.to_string(), "Graphina error: test error");

    let err = GraphinaError::node_not_found("node 5");
    assert_eq!(err.to_string(), "Node not found: node 5");

    let err = GraphinaError::convergence_failed(100, "did not converge");
    assert_eq!(
        err.to_string(),
        "Convergence failed after 100 iterations: did not converge"
    );
}

#[test]
fn test_error_conversions() {
    let old_err = GraphinaException::new("test");
    let new_err: GraphinaError = old_err.into();
    assert!(matches!(new_err, GraphinaError::Generic(_)));
}

#[test]
fn error_conversions_keep_messages() {
    let e: GraphinaError = NodeNotFound::new("node 3").into();
    assert!(matches!(e, GraphinaError::NodeNotFound(ref m) if m == "node 3"));
    let e: GraphinaError = GraphinaNoPath::new("none").into();
    assert!(matches!(e, GraphinaError::NoPath(ref m) if m == "none"));
    let e: GraphinaError = PowerIterationFailedConvergence::new(7, "slow").into();
    assert_eq!(e.to_string(), "Convergence failed after 7 iterations: slow");
}

#[test]
fn error_display_every_variant() {
    assert_eq!(GraphinaError::edge_not_found("e").to_string(), "Edge not found: e");
    assert_eq!(GraphinaError::no_path("p").to_string(), "No path exists: p");
    assert_eq!(GraphinaError::invalid_graph("g").to_string(), "Invalid graph: g");
    assert_eq!(GraphinaError::algorithm_error("a").to_string(), "Algorithm error: a");
    assert_eq!(GraphinaError::invalid_argument("x").to_string(), "Invalid argument: x");
    assert_eq!(GraphinaError::NoCycle("c".to_string()).to_string(), "No cycle exists: c");
    assert_eq!(GraphinaError::HasCycle("c".to_string()).to_string(), "Graph has a cycle: c");
    assert_eq!(GraphinaError::Unfeasible("u".to_string()).to_string(), "No feasible solution: u");
    assert_eq!(GraphinaError::Unbounded("u".to_string()).to_string(), "Unbounded solution: u");
    assert_eq!(GraphinaError::NotImplemented("n".to_string()).to_string(), "Not implemented: n");
    assert_eq!(GraphinaError::AmbiguousSolution("s".to_string()).to_string(), "Ambiguous solution: s");
    assert_eq!(
        GraphinaError::ExceededMaxIterations { iterations: 12, message: "m".to_string() }.to_string(),
        "Exceeded max iterations (12): m"
    );
    assert_eq!(GraphinaError::IoError("io".to_string()).to_string(), "I/O error: io");
    assert_eq!(GraphinaError::SerializationError("s".to_string()).to_string(), "Serialization error: s");
    assert_eq!(
        GraphinaError::convergence_failed(0, "").to_string(),
        "Convergence failed after 0 iterations: "
    );
}

#[test]
fn test_graphina_exception_display() {
    let err = GraphinaException::new("Generic error");
    assert_eq!(err.to_string(), "GraphinaException: Generic error");
}

#[test]
fn test_graphina_error_display() {
    let err = graphina::exceptions::GraphinaError::new("Serious error");
    assert_eq!(err.to_string(), "GraphinaError: Serious error");
}

#[test]
fn test_pointless_concept_display() {
    let err = GraphinaPointlessConcept::new("Null graph provided");
    assert_eq!(err.to_string(), "GraphinaPointlessConcept: Null graph provided");
}

#[test]
fn test_algorithm_error_display() {
    let err = GraphinaAlgorithmError::new("Unexpected termination");
    assert_eq!(err.to_string(), "GraphinaAlgorithmError: Unexpected termination");
}

#[test]
fn test_unfeasible_display() {
    let err = GraphinaUnfeasible::new("No feasible solution");
    assert_eq!(err.to_string(), "GraphinaUnfeasible: No feasible solution");
}

#[test]
fn test_no_path_display() {
    let err = GraphinaNoPath::new("No path exists");
    assert_eq!(err.to_string(), "GraphinaNoPath: No path exists");
}

#[test]
fn test_no_cycle_display() {
    let err = GraphinaNoCycle::new("No cycle found");
    assert_eq!(err.to_string(), "GraphinaNoCycle: No cycle found");
}

#[test]
fn test_node_not_found_display() {
    let err = NodeNotFound::new("Node missing");
    assert_eq!(err.to_string(), "NodeNotFound: Node missing");
}

#[test]
fn test_has_a_cycle_display() {
    let err = HasACycle::new("Cycle detected");
    assert_eq!(err.to_string(), "HasACycle: Cycle detected");
}

#[test]
fn test_unbounded_display() {
    let err = GraphinaUnbounded::new("Optimization unbounded");
    assert_eq!(err.to_string(), "GraphinaUnbounded: Optimization unbounded");
}

#[test]
fn test_not_implemented_display() {
    let err = GraphinaNotImplemented::new("Feature not available");
    assert_eq!(err.to_string(), "GraphinaNotImplemented: Feature not available");
}

#[test]
fn test_ambiguous_solution_display() {
    let err = AmbiguousSolution::new("Multiple solutions exist");
    assert_eq!(err.to_string(), "AmbiguousSolution: Multiple solutions exist");
}

#[test]
fn test_exceeded_max_iterations_display() {
    let err = ExceededMaxIterations::new("Iteration limit exceeded");
    assert_eq!(err.to_string(), "ExceededMaxIterations: Iteration limit exceeded");
}

#[test]
fn test_power_iteration_failed_convergence_display() {
    let err = PowerIterationFailedConvergence::new(150, "Failed to converge");
    assert_eq!(
        err.to_string(),
        "PowerIterationFailedConvergence after 150 iterations: Failed to converge"
    );
}

#[test]
fn test_entropy_seed_varies_between_calls() {
    let a = graphina::rng::entropy_seed();
    let b = graphina::rng::entropy_seed();
    assert_ne!(a, b, "consecutive seeds should differ");
}
