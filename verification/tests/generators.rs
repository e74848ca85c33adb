use graphina::error::GraphinaError;
use graphina::generators::{
    barabasi_albert_graph, bipartite_from_coins, bipartite_graph, complete_graph, cycle_graph,
    erdos_renyi_from_coins, erdos_renyi_graph, star_graph, watts_strogatz_graph,
};
use rand::distr::Bernoulli;
use graphina::types::{Directed, NodeId, Undirected};

#[test]
fn test_erdos_renyi_directed() {
    let graph = erdos_renyi_graph::<Directed, f32>(3, Bernoulli::new(1.0).ok().as_ref(), 42, 1.0)
        .expect("Failed to generate directed Erdős–Rényi graph");
    assert_eq!(graph.node_count(), 3);
    assert_eq!(graph.edge_count(), 6);
}

#[test]
fn test_erdos_renyi_undirected() {
    let graph = erdos_renyi_graph::<Undirected, f32>(3, Bernoulli::new(1.0).ok().as_ref(), 42, 1.0)
        .expect("Failed to generate undirected Erdős–Rényi graph");
    assert_eq!(graph.node_count(), 3);
    assert_eq!(graph.edge_count(), 3);
}

#[test]
fn erdos_renyi_with_all_coins_true_is_complete() {
    let coins = vec![true; 3 * 2];
    let graph = erdos_renyi_from_coins::<Directed, f32>(3, &coins, 1.0).unwrap();
    assert_eq!(graph.edge_count(), 6);
    let graph = erdos_renyi_graph::<Undirected, f32>(5, Bernoulli::new(0.0).ok().as_ref(), 9, 1.0).unwrap();
    assert_eq!(graph.edge_count(), 0);
}

#[test]
fn erdos_renyi_coins_pick_pairs_in_order() {
    // Undirected pairs of 4 nodes in order: (0,1) (0,2) (0,3) (1,2) (1,3) (2,3).
    let coins = vec![false, true, false, false, true, true];
    let graph = erdos_renyi_from_coins::<Undirected, f32>(4, &coins, 2.0).unwrap();
    assert_eq!(graph.edge_count(), 3);
    assert!(graph.contains_edge(NodeId(0), NodeId(2)));
    assert!(graph.contains_edge(NodeId(1), NodeId(3)));
    assert!(graph.contains_edge(NodeId(2), NodeId(3)));
    assert!(!graph.contains_edge(NodeId(0), NodeId(1)));
    // Directed pairs of 3 nodes: (0,1) (0,2) (1,0) (1,2) (2,0) (2,1).
    let coins = vec![false, false, true, false, false, true];
    let graph = erdos_renyi_from_coins::<Directed, f32>(3, &coins, 2.0).unwrap();
    assert_eq!(graph.edge_count(), 2);
    assert!(graph.contains_edge(NodeId(1), NodeId(0)));
    assert!(graph.contains_edge(NodeId(2), NodeId(1)));
}

#[test]
fn test_complete_graph_directed() {
    let graph = complete_graph::<Directed, f32>(4, 1.0).expect("Failed to generate directed complete graph");
    assert_eq!(graph.node_count(), 4);
    assert_eq!(graph.edge_count(), 12);
}

#[test]
fn test_complete_graph_undirected() {
    let graph = complete_graph::<Undirected, f32>(4, 1.0).expect("Failed to generate undirected complete graph");
    assert_eq!(graph.node_count(), 4);
    assert_eq!(graph.edge_count(), 6);
}

#[test]
fn complete_graph_labels_nodes_by_index() {
    let graph = complete_graph::<Undirected, f32>(3, 1.0).unwrap();
    assert_eq!(graph.node_attr(NodeId(0)), Some(&0));
    assert_eq!(graph.node_attr(NodeId(2)), Some(&2));
    assert!(matches!(
        complete_graph::<Undirected, f32>(0, 1.0),
        Err(GraphinaError::InvalidArgument(ref m)) if m == "Number of nodes must be greater than zero."
    ));
}

#[test]
fn test_bipartite_graph() {
    let graph = bipartite_graph::<Undirected, f32>(3, 2, Bernoulli::new(1.0).ok().as_ref(), 42, 1.0)
        .expect("Failed to generate bipartite graph");
    assert_eq!(graph.node_count(), 5);
    assert_eq!(graph.edge_count(), 6);
}

#[test]
fn bipartite_rejects_empty_parts_before_probability() {
    assert!(matches!(
        bipartite_graph::<Undirected, f32>(0, 2, None, 1, 1.0),
        Err(GraphinaError::InvalidArgument(ref m)) if m == "Both partitions must have at least one node."
    ));
    assert!(matches!(
        bipartite_graph::<Undirected, f32>(2, 2, Bernoulli::new(2.0).ok().as_ref(), 1, 1.0),
        Err(GraphinaError::InvalidArgument(ref m)) if m == "Probability p must be in the range [0.0, 1.0]."
    ));
}

#[test]
fn bipartite_edges_cross_the_parts() {
    let coins = vec![true, false, false, true];
    let graph = bipartite_from_coins::<Undirected, f32>(2, 2, &coins, 1.0).unwrap();
    assert_eq!(graph.edge_count(), 2);
    assert!(graph.contains_edge(NodeId(0), NodeId(2)));
    assert!(graph.contains_edge(NodeId(1), NodeId(3)));
    assert!(bipartite_from_coins::<Undirected, f32>(0, 2, &vec![], 1.0).is_err());
}

#[test]
fn test_star_graph() {
    let graph = star_graph::<Undirected, f32>(5, 1.0).expect("Failed to generate star graph");
    assert_eq!(graph.node_count(), 5);
    assert_eq!(graph.edge_count(), 4);
}

#[test]
fn test_cycle_graph() {
    let graph = cycle_graph::<Undirected, f32>(5, 1.0).expect("Failed to generate cycle graph");
    assert_eq!(graph.node_count(), 5);
    assert_eq!(graph.edge_count(), 5);
    assert!(graph.contains_edge(NodeId(4), NodeId(0)));
}

#[test]
fn test_cycle_graph_invalid_n() {
    assert!(cycle_graph::<Undirected, f32>(0, 1.0).is_err());
    assert!(cycle_graph::<Undirected, f32>(1, 1.0).is_err());
    assert!(cycle_graph::<Undirected, f32>(2, 1.0).is_err());
}

#[test]
fn test_barabasi_albert_graph() {
    let n = 20;
    let m = 3;
    let seed = 42;
    let graph = barabasi_albert_graph::<Undirected, f32>(n, m, seed, 1.0)
        .expect("Failed to generate Barabási–Albert graph");
    assert_eq!(graph.node_count(), n);
    let expected_edges = (m * (m - 1) / 2) + (n - m) * m;
    assert_eq!(graph.edge_count(), expected_edges);
}

#[test]
fn barabasi_albert_attaches_to_distinct_earlier_nodes() {
    let graph = barabasi_albert_graph::<Undirected, f32>(30, 2, 7, 1.0).unwrap();
    let edges = graph.edges();
    assert_eq!(edges.len(), 1 + 28 * 2);
    for i in 2..30 {
        let a = edges[1 + (i - 2) * 2];
        let b = edges[2 + (i - 2) * 2];
        assert_eq!(a.0, NodeId(i));
        assert_eq!(b.0, NodeId(i));
        assert!(a.1 .0 < i && b.1 .0 < i);
        assert_ne!(a.1, b.1);
    }
}

#[test]
fn invalid_cycle_rejected() {
    assert!(matches!(
        cycle_graph::<Undirected, f32>(2, 1.0),
        Err(GraphinaError::InvalidArgument(_))
    ));
}

#[test]
fn invalid_star_rejected() {
    assert!(matches!(
        star_graph::<Directed, f32>(0, 1.0),
        Err(GraphinaError::InvalidArgument(_))
    ));
}

#[test]
fn invalid_ba_params_rejected() {
    assert!(matches!(
        barabasi_albert_graph::<Undirected, f32>(5, 0, 1, 1.0),
        Err(GraphinaError::InvalidArgument(_))
    ));
    assert!(matches!(
        barabasi_albert_graph::<Undirected, f32>(3, 4, 1, 1.0),
        Err(GraphinaError::InvalidArgument(_))
    ));
}

#[test]
fn test_watts_strogatz_graph() {
    let n = 10;
    let k = 4;
    let beta = 0.5;
    let seed = 42;
    let graph = watts_strogatz_graph::<Undirected, f32>(n, k, Bernoulli::new(beta).ok().as_ref(), seed, 1.0)
        .expect("Failed to generate Watts–Strogatz graph");
    assert_eq!(graph.node_count(), n);
    assert!(graph.edge_count() >= n * k / 2);
}

#[test]
fn invalid_erdos_params_rejected() {
    assert!(matches!(
        erdos_renyi_graph::<Undirected, f32>(0, Bernoulli::new(0.5).ok().as_ref(), 1, 1.0),
        Err(GraphinaError::InvalidArgument(_))
    ));
    assert!(matches!(
        erdos_renyi_graph::<Undirected, f32>(10, Bernoulli::new(1.5).ok().as_ref(), 1, 1.0),
        Err(GraphinaError::InvalidArgument(_))
    ));
}

#[test]
fn invalid_ws_params_rejected() {
    assert!(matches!(
        watts_strogatz_graph::<Undirected, f32>(0, 2, Bernoulli::new(0.1).ok().as_ref(), 1, 1.0),
        Err(GraphinaError::InvalidArgument(_))
    ));
    assert!(matches!(
        watts_strogatz_graph::<Undirected, f32>(10, 3, Bernoulli::new(0.1).ok().as_ref(), 1, 1.0),
        Err(GraphinaError::InvalidArgument(_))
    ));
    assert!(matches!(
        watts_strogatz_graph::<Undirected, f32>(10, 2, Bernoulli::new(1.5).ok().as_ref(), 1, 1.0),
        Err(GraphinaError::InvalidArgument(_))
    ));
}

#[test]
fn watts_strogatz_without_rewiring_is_the_ring_lattice() {
    let graph = watts_strogatz_graph::<Undirected, f32>(6, 2, Bernoulli::new(0.0).ok().as_ref(), 3, 1.0).unwrap();
    assert_eq!(graph.edge_count(), 6);
    for i in 0..6 {
        assert!(graph.contains_edge(NodeId(i), NodeId((i + 1) % 6)));
    }
}

#[test]
fn watts_strogatz_always_rewiring_keeps_the_edge_count_and_no_loops() {
    let graph = watts_strogatz_graph::<Undirected, f32>(12, 4, Bernoulli::new(1.0).ok().as_ref(), 5, 1.0).unwrap();
    assert_eq!(graph.edge_count(), 24);
    for (u, v, _) in graph.edges() {
        assert_ne!(u, v);
    }
}

#[test]
fn watts_strogatz_from_draws_rewires_to_the_first_free_target() {
    let coins = vec![true, false, false, false, false];
    let draws = vec![vec![1, 0, 3, 2], vec![], vec![], vec![], vec![]];
    let g = graphina::generators::watts_strogatz_from_draws::<graphina::types::Undirected, f32>(5, 2, &coins, &draws, 1.0)
        .unwrap();
    let edges: Vec<(usize, usize)> = g.edges().into_iter().map(|(s, t, _)| (s.0, t.0)).collect();
    assert_eq!(edges, vec![(1, 2), (2, 3), (3, 4), (4, 0), (0, 3)]);
}

#[test]
fn watts_strogatz_from_draws_restores_an_edge_without_free_target() {
    let coins = vec![false, true, false, false, false];
    let draws = vec![vec![], vec![1, 2, 0], vec![], vec![], vec![]];
    let g = graphina::generators::watts_strogatz_from_draws::<graphina::types::Undirected, f32>(5, 2, &coins, &draws, 1.0)
        .unwrap();
    let edges: Vec<(usize, usize)> = g.edges().into_iter().map(|(s, t, _)| (s.0, t.0)).collect();
    assert_eq!(edges, vec![(0, 1), (2, 3), (3, 4), (4, 0), (1, 2)]);
}

#[test]
fn attach_targets_follow_the_draws_then_index_order() {
    let degrees = vec![2, 1, 1];
    let t = graphina::generators::attach_targets(&degrees, &vec![0, 1, 3], 3, 2);
    assert_eq!(t, vec![0, 2]);
    let t = graphina::generators::attach_targets(&degrees, &vec![2], 3, 3);
    assert_eq!(t, vec![1, 0, 2]);
}

#[test]
fn watts_strogatz_never_joins_a_pair_twice() {
    for seed in 0..20u64 {
        let graph =
            watts_strogatz_graph::<Undirected, f32>(15, 6, Bernoulli::new(0.5).ok().as_ref(), seed, 1.0).unwrap();
        let mut pairs: Vec<(usize, usize)> = graph
            .edges()
            .into_iter()
            .map(|(s, t, _)| if s.0 < t.0 { (s.0, t.0) } else { (t.0, s.0) })
            .collect();
        let total = pairs.len();
        pairs.sort();
        pairs.dedup();
        assert_eq!(pairs.len(), total);
    }
}
