use graphina::links::{common_neighbors, default_ebunch};
use graphina::metrics::{diameter, radius, triangles};
use graphina::types::{Digraph, Graph, NodeId};

#[test]
fn test_diameter() {
    let mut g = Graph::<i32, f64>::new();
    let n1 = g.add_node(1);
    let n2 = g.add_node(2);
    let n3 = g.add_node(3);

    g.add_edge(n1, n2, 1.0);
    g.add_edge(n2, n3, 1.0);

    assert_eq!(diameter(&g), Some(2));
}

#[test]
fn test_diameter_disconnected() {
    let g = Graph::<i32, f64>::new();
    assert_eq!(diameter(&g), None);
}

#[test]
fn test_radius() {
    let mut g = Graph::<i32, f64>::new();
    let n1 = g.add_node(1);
    let n2 = g.add_node(2);
    let n3 = g.add_node(3);

    g.add_edge(n1, n2, 1.0);
    g.add_edge(n2, n3, 1.0);

    assert_eq!(radius(&g), Some(1));
}

#[test]
fn metrics_test_triangles() {
    let mut g = Graph::<i32, f64>::new();
    let n1 = g.add_node(1);
    let n2 = g.add_node(2);
    let n3 = g.add_node(3);
    let n4 = g.add_node(4);

    g.add_edge(n1, n2, 1.0);
    g.add_edge(n2, n3, 1.0);
    g.add_edge(n3, n1, 1.0);
    g.add_edge(n1, n4, 1.0);

    assert_eq!(triangles(&g, n1), 1);
    assert_eq!(triangles(&g, n2), 1);
    assert_eq!(triangles(&g, n3), 1);
    assert_eq!(triangles(&g, n4), 0);
}

#[test]
fn node_metrics_test_triangles() {
    let mut g = Graph::<i32, f64>::new();
    let n1 = g.add_node(1);
    let n2 = g.add_node(2);
    let n3 = g.add_node(3);
    let n4 = g.add_node(4);

    g.add_edge(n1, n2, 1.0);
    g.add_edge(n2, n3, 1.0);
    g.add_edge(n3, n1, 1.0);
    g.add_edge(n1, n4, 1.0);

    assert_eq!(triangles(&g, n1), 1);
    assert_eq!(triangles(&g, n2), 1);
    assert_eq!(triangles(&g, n3), 1);
    assert_eq!(triangles(&g, n4), 0);
}

#[test]
fn test_common_neighbors() {
    let mut graph = Graph::<i32, ()>::new();
    let n1 = graph.add_node(1);
    let n2 = graph.add_node(2);
    let n3 = graph.add_node(3);
    graph.add_edge(n1, n3, ());
    graph.add_edge(n2, n3, ());
    let count = common_neighbors(&graph, n1, n2);
    assert_eq!(count, 1);
}

#[test]
fn common_neighbors_ignores_parallel_edges() {
    let mut graph = Graph::<i32, ()>::new();
    let n1 = graph.add_node(1);
    let n2 = graph.add_node(2);
    let n3 = graph.add_node(3);
    let n4 = graph.add_node(4);
    graph.add_edge(n1, n3, ());
    graph.add_edge(n1, n3, ());
    graph.add_edge(n2, n3, ());
    graph.add_edge(n1, n4, ());
    graph.add_edge(n2, n4, ());
    assert_eq!(common_neighbors(&graph, n1, n2), 2);
    assert_eq!(common_neighbors(&graph, n3, n4), 2);
    assert_eq!(common_neighbors(&graph, n1, n1), 2);
}

#[test]
fn path_of_four_has_diameter_three_and_radius_two() {
    let mut g = Graph::<i32, ()>::new();
    let a = g.add_node(0);
    let b = g.add_node(1);
    let c = g.add_node(2);
    let d = g.add_node(3);
    g.add_edge(a, b, ());
    g.add_edge(b, c, ());
    g.add_edge(c, d, ());
    assert_eq!(diameter(&g), Some(3));
    assert_eq!(radius(&g), Some(2));
}

#[test]
fn disconnected_graph_has_no_diameter_or_radius() {
    let mut g = Graph::<i32, ()>::new();
    let a = g.add_node(0);
    let b = g.add_node(1);
    let _c = g.add_node(2);
    g.add_edge(a, b, ());
    assert_eq!(diameter(&g), None);
    assert_eq!(radius(&g), None);
}

#[test]
fn directed_cycle_diameter_follows_edge_direction() {
    let mut g = Digraph::<i32, ()>::new();
    let a = g.add_node(0);
    let b = g.add_node(1);
    let c = g.add_node(2);
    g.add_edge(a, b, ());
    g.add_edge(b, c, ());
    g.add_edge(c, a, ());
    assert_eq!(diameter(&g), Some(2));
    assert_eq!(radius(&g), Some(2));
}

#[test]
fn single_node_has_zero_diameter() {
    let mut g = Graph::<i32, ()>::new();
    g.add_node(0);
    assert_eq!(diameter(&g), Some(0));
    assert_eq!(radius(&g), Some(0));
}

#[test]
fn hop_distances_along_a_path() {
    let mut g = Graph::<i32, ()>::new();
    let a = g.add_node(0);
    let b = g.add_node(1);
    let c = g.add_node(2);
    g.add_edge(a, b, ());
    g.add_edge(b, c, ());
    assert_eq!(graphina::hops::hop_distances(&g, a), vec![(a, 0), (b, 1), (c, 2)]);
    assert_eq!(graphina::hops::hop_distances(&g, c), vec![(c, 0), (b, 1), (a, 2)]);
}

#[test]
fn hop_distances_take_the_shortest_route() {
    let mut g = Digraph::<i32, ()>::new();
    let n: Vec<NodeId> = (0..5).map(|i| g.add_node(i)).collect();
    g.add_edge(n[0], n[1], ());
    g.add_edge(n[1], n[2], ());
    g.add_edge(n[2], n[3], ());
    g.add_edge(n[0], n[3], ());
    g.add_edge(n[4], n[0], ());
    let d = graphina::hops::hop_distances(&g, n[0]);
    assert_eq!(d.len(), 4);
    assert!(d.contains(&(n[3], 1)));
    assert!(d.contains(&(n[2], 2)));
    assert!(!d.iter().any(|(x, _)| *x == n[4]));
}

#[test]
fn hop_distances_from_a_missing_node() {
    let g = Graph::<i32, ()>::new();
    assert_eq!(graphina::hops::hop_distances(&g, NodeId(3)), vec![(NodeId(3), 0)]);
}

#[test]
fn default_ebunch_lists_each_unordered_pair_once() {
    let mut g = Graph::<i32, f64>::new();
    let n: Vec<NodeId> = (0..4).map(|i| g.add_node(i)).collect();
    g.remove_node(n[1]);
    let pairs: Vec<(usize, usize)> = default_ebunch(&g).into_iter().map(|(a, b)| (a.0, b.0)).collect();
    assert_eq!(pairs, vec![(0, 2), (0, 3), (2, 3)]);
    let empty = Graph::<i32, f64>::new();
    assert!(default_ebunch(&empty).is_empty());
}

#[test]
fn triangles_count_undirected_edges_either_way() {
    let mut g = Graph::<i32, f64>::new();
    let n1 = g.add_node(1);
    let n2 = g.add_node(2);
    let n3 = g.add_node(3);
    g.add_edge(n1, n2, 1.0);
    g.add_edge(n1, n3, 1.0);
    g.add_edge(n2, n3, 1.0);
    assert_eq!(triangles(&g, n1), 1);
    assert_eq!(triangles(&g, n2), 1);
    assert_eq!(triangles(&g, n3), 1);
}
