use graphina::builders::{AdvancedGraphBuilder, TopologyBuilder};
use graphina::types::{BaseGraph, Directed, NodeId, Undirected};

#[test]
fn test_advanced_builder_basic() {
    let graph = AdvancedGraphBuilder::directed()
        .add_node(1)
        .add_node(2)
        .add_edge(0, 1, 1.0)
        .build()
        .unwrap();

    assert_eq!(graph.node_count(), 2);
    assert_eq!(graph.edge_count(), 1);
}

#[test]
fn test_builder_with_capacity() {
    let graph: BaseGraph<i32, f64, Undirected> = AdvancedGraphBuilder::undirected()
        .with_capacity(100, 200)
        .build()
        .unwrap();

    assert_eq!(graph.node_count(), 0);
    assert_eq!(graph.edge_count(), 0);
}

#[test]
fn test_self_loop_validation() {
    let result = AdvancedGraphBuilder::directed()
        .allow_self_loops(false)
        .add_node(1)
        .add_edge(0, 0, 1.0)
        .build();

    assert!(result.is_err());
    assert!(result.unwrap_err().to_string().contains("Self-loops"));
}

#[test]
fn test_parallel_edge_validation() {
    let result = AdvancedGraphBuilder::undirected()
        .allow_parallel_edges(false)
        .add_node(1)
        .add_node(2)
        .add_edge(0, 1, 1.0)
        .add_edge(0, 1, 2.0)
        .build();

    assert!(result.is_err());
    assert!(result.unwrap_err().to_string().contains("Parallel edges"));
}

#[test]
fn test_invalid_node_index() {
    let result = AdvancedGraphBuilder::directed()
        .add_node(1)
        .add_edge(0, 5, 1.0)
        .build();

    assert!(result.is_err());
}

#[test]
fn test_validate_no_nodes_with_edge() {
    let result = AdvancedGraphBuilder::<i32, f64, Directed>::directed()
        .add_edge(0, 0, 1.0)
        .build();
    assert!(result.is_err());
    let err = result.err().unwrap().to_string();
    assert!(err.contains("out of bounds"));
}

#[test]
fn builder_messages_are_exact() {
    let err = AdvancedGraphBuilder::<i32, f64, Directed>::directed()
        .add_node(1)
        .add_node(2)
        .add_edge(0, 7, 1.0)
        .validate()
        .unwrap_err();
    assert_eq!(err.to_string(), "Invalid argument: Edge target index 7 is out of bounds (max: 1)");
    let err = AdvancedGraphBuilder::<i32, f64, Directed>::directed()
        .add_edge(3, 0, 1.0)
        .build()
        .unwrap_err();
    assert_eq!(err.to_string(), "Invalid argument: Edge source index 3 is out of bounds (max: none)");
    let err = AdvancedGraphBuilder::<i32, f64, Directed>::directed()
        .allow_parallel_edges(false)
        .add_nodes(vec![1, 2, 3])
        .add_edges(vec![(2, 1, 1.0), (0, 1, 1.0), (2, 1, 5.0)])
        .build()
        .unwrap_err();
    assert_eq!(err.to_string(), "Invalid argument: Parallel edges are not allowed: edge (2, 1) already exists");
    // The reverse orientation is a different edge.
    let ok = AdvancedGraphBuilder::<i32, f64, Directed>::directed()
        .allow_parallel_edges(false)
        .add_nodes(vec![1, 2])
        .add_edges(vec![(0, 1, 1.0), (1, 0, 1.0)])
        .build();
    assert!(ok.is_ok());
}

#[test]
fn builder_keeps_order() {
    let g = AdvancedGraphBuilder::<&str, u32, Directed>::directed()
        .add_nodes(vec!["a", "b", "c"])
        .add_edges(vec![(2, 0, 7), (0, 1, 9)])
        .build()
        .unwrap();
    assert_eq!(g.node_attr(NodeId(2)), Some(&"c"));
    assert_eq!(g.edges(), vec![(NodeId(2), NodeId(0), &7), (NodeId(0), NodeId(1), &9)]);
}

#[test]
fn test_topology_complete_graph() {
    let graph = TopologyBuilder::complete(5, (), 1.0);
    assert_eq!(graph.node_count(), 5);
    assert_eq!(graph.edge_count(), 10); // 5 * 4 / 2
}

#[test]
fn test_topology_cycle_graph() {
    let graph = TopologyBuilder::cycle(6, (), 1.0);
    assert_eq!(graph.node_count(), 6);
    assert_eq!(graph.edge_count(), 6);
}

#[test]
fn test_topology_path_graph() {
    let graph = TopologyBuilder::path(5, (), 1.0);
    assert_eq!(graph.node_count(), 5);
    assert_eq!(graph.edge_count(), 4);
}

#[test]
fn test_topology_path_graph_zero_nodes() {
    let graph = TopologyBuilder::path::<(), f64>(0, (), 1.0);
    assert_eq!(graph.node_count(), 0);
    assert_eq!(graph.edge_count(), 0);
}

#[test]
fn test_topology_star_graph() {
    let graph = TopologyBuilder::star(6, (), 1.0);
    assert_eq!(graph.node_count(), 6);
    assert_eq!(graph.edge_count(), 5);
}

#[test]
fn test_topology_grid_graph() {
    let graph = TopologyBuilder::grid(3, 4, (), 1.0);
    assert_eq!(graph.node_count(), 12);
    // (3-1)*4 + 3*(4-1) = 8 + 9 = 17
    assert_eq!(graph.edge_count(), 17);
}

#[test]
fn topology_grid_edges_in_order() {
    let graph = TopologyBuilder::grid(2, 2, 'x', 1u8);
    let ends: Vec<(usize, usize)> = graph.edges().iter().map(|e| (e.0 .0, e.1 .0)).collect();
    assert_eq!(ends, vec![(0, 1), (0, 2), (1, 3), (2, 3)]);
    let empty = TopologyBuilder::grid(0, 0, 'x', 1u8);
    assert_eq!(empty.node_count(), 0);
}

#[test]
fn topology_cycle_small() {
    let one = TopologyBuilder::cycle(1, 0, 1u8);
    assert_eq!(one.edges(), vec![(NodeId(0), NodeId(0), &1u8)]);
    let empty = TopologyBuilder::cycle(0, 0, 1u8);
    assert_eq!(empty.edge_count(), 0);
}

#[test]
fn test_add_multiple_nodes() {
    let graph: BaseGraph<i32, f64, Directed> = AdvancedGraphBuilder::directed()
        .add_nodes(vec![1, 2, 3, 4, 5])
        .build()
        .unwrap();

    assert_eq!(graph.node_count(), 5);
}

#[test]
fn test_add_multiple_edges() {
    let graph = AdvancedGraphBuilder::directed()
        .add_nodes(vec![1, 2, 3])
        .add_edges(vec![(0, 1, 1.0), (1, 2, 2.0)])
        .build()
        .unwrap();

    assert_eq!(graph.edge_count(), 2);
}

#[test]
fn undirected_reversed_pair_is_a_parallel_edge() {
    let result = AdvancedGraphBuilder::<i32, f64, Undirected>::undirected()
        .allow_parallel_edges(false)
        .add_node(1)
        .add_node(2)
        .add_edge(0, 1, 1.0)
        .add_edge(1, 0, 2.0)
        .build();
    let err = result.unwrap_err();
    assert_eq!(err.to_string(), "Invalid argument: Parallel edges are not allowed: edge (1, 0) already exists");
    let ok = AdvancedGraphBuilder::<i32, f64, Directed>::directed()
        .allow_parallel_edges(false)
        .add_node(1)
        .add_node(2)
        .add_edge(0, 1, 1.0)
        .add_edge(1, 0, 2.0)
        .build()
        .unwrap();
    assert_eq!(ok.edge_count(), 2);
}
