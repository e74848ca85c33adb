use graphina::incident::GraphinaGraph;
use graphina::types::{Digraph, EdgeId, Graph, GraphBuilder, NodeId};

#[test]
fn add_then_read_back() {
    let mut g = Graph::<&str, u32>::new();
    let a = g.add_node("a");
    let b = g.add_node("b");
    let e = g.add_edge(a, b, 4);
    assert_eq!(g.node_attr(a), Some(&"a"));
    assert_eq!(g.edge_weight(e), Some(&4));
    assert_eq!(g.edge_endpoints(e), Some((a, b)));
    assert_eq!(g.node_count(), 2);
    assert_eq!(g.edge_count(), 1);
    assert!(g.contains_edge(a, b));
    assert!(!g.contains_edge(b, a));
    assert_eq!(g.find_edge(a, b), Some(e));
}

#[test]
fn removed_ids_are_not_reused() {
    let mut g = Digraph::<i32, i32>::new();
    let a = g.add_node(1);
    let b = g.add_node(2);
    let c = g.add_node(3);
    g.add_edge(a, b, 1);
    g.add_edge(b, c, 2);
    g.add_edge(c, a, 3);
    assert_eq!(g.remove_node(b), Some(2));
    assert_eq!(g.node_count(), 2);
    assert_eq!(g.edge_count(), 1);
    assert!(!g.contains_node(b));
    let d = g.add_node(4);
    assert_ne!(d, b);
    assert_eq!(d, NodeId(3));
    assert_eq!(g.remove_node(b), None);
    assert!(g.try_remove_node(b).is_err());
}

#[test]
fn update_and_remove_edges() {
    let mut g = Graph::<i32, i32>::new();
    let a = g.add_node(1);
    let b = g.add_node(2);
    assert!(g.update_node(a, 10));
    assert_eq!(g.node_attr(a), Some(&10));
    assert!(!g.update_node(NodeId(5), 3));
    assert!(g.try_update_node(NodeId(5), 3).is_err());
    let e = g.add_edge(a, b, 7);
    assert_eq!(g.remove_edge(e), Some(7));
    assert_eq!(g.remove_edge(e), None);
    assert_eq!(g.edge_count(), 0);
    let err = match g.try_remove_edge(EdgeId(9)) {
        Ok(_) => panic!("no such edge"),
        Err(e) => e,
    };
    assert!(!err.message.is_empty());
}

#[test]
fn degrees_and_neighbors() {
    let mut g = Digraph::<i32, ()>::new();
    let a = g.add_node(0);
    let b = g.add_node(1);
    let c = g.add_node(2);
    g.add_edge(a, b, ());
    g.add_edge(a, c, ());
    g.add_edge(c, a, ());
    assert_eq!(g.out_degree(a), Some(2));
    assert_eq!(g.in_degree(a), Some(1));
    assert_eq!(g.degree(a), Some(3));
    assert_eq!(g.degree(NodeId(9)), None);
    let mut n = g.neighbors(a);
    n.sort();
    assert_eq!(n, vec![b, c]);

    let mut u = Graph::<i32, ()>::new();
    let x = u.add_node(0);
    let y = u.add_node(1);
    u.add_edge(x, y, ());
    assert_eq!(u.neighbors(y), vec![x]);
    assert_eq!(u.degree(x), Some(1));
}

#[test]
fn graph_builder_counts_positions_from_one() {
    let graph = Graph::<i32, f64>::builder().add_node(1).add_node(2).add_edge(1, 2, 3.0).build();
    assert_eq!(graph.node_count(), 2);
    assert_eq!(graph.edge_count(), 1);
    assert_eq!(graph.edges(), vec![(NodeId(0), NodeId(1), &3.0)]);
}

#[test]
fn graph_builder_and_clear() {
    let g = GraphBuilder::<i32, u8, graphina::types::Directed>::new()
        .add_node(5)
        .add_node(6)
        .add_edge(2, 1, 9)
        .build();
    assert_eq!(g.edges(), vec![(NodeId(1), NodeId(0), &9)]);
    let mut h = g;
    h.clear();
    assert!(h.is_empty());
    assert_eq!(h.node_ids(), vec![]);
}

#[test]
fn retain_nodes_drops_rejected_nodes_and_their_edges() {
    let mut g = Digraph::<i32, i32>::new();
    let n: Vec<NodeId> = (0..5).map(|i| g.add_node(i * 10)).collect();
    let e01 = g.add_edge(n[0], n[1], 1);
    let e12 = g.add_edge(n[1], n[2], 2);
    let e23 = g.add_edge(n[2], n[3], 3);
    let e34 = g.add_edge(n[3], n[4], 4);
    let e40 = g.add_edge(n[4], n[0], 5);
    g.retain_nodes(|_, a| *a != 20 && *a != 40);
    assert_eq!(g.node_count(), 3);
    assert!(g.contains_node(n[0]) && g.contains_node(n[1]) && g.contains_node(n[3]));
    assert!(!g.contains_node(n[2]) && !g.contains_node(n[4]));
    assert_eq!(g.edge_count(), 1);
    assert_eq!(g.edge_weight(e01), Some(&1));
    for e in [e12, e23, e34, e40] {
        assert_eq!(g.edge_weight(e), None);
    }
}

#[test]
fn retain_nodes_keeping_everything_changes_nothing() {
    let mut g = Graph::<i32, i32>::new();
    let a = g.add_node(1);
    let b = g.add_node(2);
    g.add_edge(a, b, 7);
    g.retain_nodes(|_, _| true);
    assert_eq!((g.node_count(), g.edge_count()), (2, 1));
}

#[test]
fn retain_edges_drops_rejected_edges() {
    let mut g = Digraph::<i32, i32>::new();
    let a = g.add_node(1);
    let b = g.add_node(2);
    let c = g.add_node(3);
    let e0 = g.add_edge(a, b, 5);
    let e1 = g.add_edge(b, c, 15);
    let e2 = g.add_edge(c, a, 25);
    g.retain_edges(|_, _, w| *w > 10);
    assert_eq!(g.node_count(), 3);
    assert_eq!(g.edge_weight(e0), None);
    assert_eq!(g.edge_weight(e1), Some(&15));
    assert_eq!(g.edge_weight(e2), Some(&25));
}

#[test]
fn retain_edges_rejecting_a_parallel_edge_strikes_the_first_twin() {
    let mut g = Digraph::<i32, i32>::new();
    let a = g.add_node(1);
    let b = g.add_node(2);
    let first = g.add_edge(a, b, 100);
    let second = g.add_edge(a, b, 1);
    g.retain_edges(|_, _, w| *w > 10);
    assert_eq!(g.edge_weight(first), None);
    assert_eq!(g.edge_weight(second), Some(&1));
    assert_eq!(g.edge_count(), 1);
}

#[test]
fn outgoing_edges_of_a_directed_node_newest_first() {
    let mut g = Digraph::<i32, i32>::new();
    let a = g.add_node(0);
    let b = g.add_node(1);
    let c = g.add_node(2);
    g.add_edge(a, b, 1);
    g.add_edge(c, a, 2);
    g.add_edge(a, c, 3);
    let out: Vec<(NodeId, i32)> = g.outgoing_edges(a).into_iter().map(|(v, w)| (v, *w)).collect();
    assert_eq!(out, vec![(c, 3), (b, 1)]);
}

#[test]
fn outgoing_edges_of_an_undirected_node_include_entering_edges() {
    let mut g = Graph::<i32, i32>::new();
    let a = g.add_node(0);
    let b = g.add_node(1);
    let c = g.add_node(2);
    g.add_edge(a, b, 1);
    g.add_edge(c, a, 2);
    g.add_edge(a, a, 9);
    let out: Vec<(NodeId, i32)> = g.outgoing_edges(a).into_iter().map(|(v, w)| (v, *w)).collect();
    assert_eq!(out, vec![(a, 9), (b, 1), (c, 2)]);
    let nbrs: Vec<NodeId> = g.neighbors(a);
    assert_eq!(nbrs, vec![a, b, c]);
}

#[test]
fn adjacency_matrix_of_a_directed_graph() {
    let mut g = Digraph::<i32, i32>::new();
    let a = g.add_node(0);
    let b = g.add_node(1);
    let c = g.add_node(2);
    g.add_edge(a, b, 4);
    g.add_edge(b, c, 5);
    g.add_edge(a, b, 6);
    let m = g.to_adjacency_matrix();
    assert_eq!(
        m,
        vec![vec![None, Some(6), None], vec![None, None, Some(5)], vec![None, None, None]]
    );
}

#[test]
fn adjacency_matrix_of_an_undirected_graph_is_symmetric() {
    let mut g = Graph::<i32, i32>::new();
    let a = g.add_node(0);
    let b = g.add_node(1);
    let c = g.add_node(2);
    g.add_edge(a, c, 7);
    g.remove_node(b);
    let m = g.to_adjacency_matrix();
    assert_eq!(m, vec![vec![None, Some(7)], vec![Some(7), None]]);
}

#[test]
fn graph_from_an_adjacency_matrix() {
    let m = vec![vec![None, Some(1), Some(2)], vec![Some(3), None, None], vec![None, Some(4), Some(5)]];
    let d = Digraph::<i32, i32>::from_adjacency_matrix(&m);
    assert_eq!(d.node_count(), 3);
    assert_eq!(d.node_attr(NodeId(0)), Some(&0));
    let edges: Vec<(usize, usize, i32)> = d.edges().into_iter().map(|(s, t, w)| (s.0, t.0, *w)).collect();
    assert_eq!(edges, vec![(0, 1, 1), (0, 2, 2), (1, 0, 3), (2, 1, 4), (2, 2, 5)]);
    let u = Graph::<i32, i32>::from_adjacency_matrix(&m);
    let edges: Vec<(usize, usize, i32)> = u.edges().into_iter().map(|(s, t, w)| (s.0, t.0, *w)).collect();
    assert_eq!(edges, vec![(0, 1, 1), (0, 2, 2), (2, 2, 5)]);
}

#[test]
fn adjacency_matrix_round_trip() {
    let mut g = Digraph::<i32, i32>::new();
    let n: Vec<NodeId> = (0..4).map(|i| g.add_node(i)).collect();
    g.add_edge(n[0], n[3], 1);
    g.add_edge(n[2], n[1], 2);
    let h = Digraph::<i32, i32>::from_adjacency_matrix(&g.to_adjacency_matrix());
    assert_eq!(h.to_adjacency_matrix(), g.to_adjacency_matrix());
}

#[test]
fn attributes_and_weights_change_in_place() {
    let mut g = Digraph::<i32, i32>::new();
    let a = g.add_node(1);
    let b = g.add_node(2);
    let e = g.add_edge(a, b, 10);
    *g.node_attr_mut(a).unwrap() = 5;
    *g.edge_weight_mut(e).unwrap() += 1;
    assert_eq!(g.node_attr(a), Some(&5));
    assert_eq!(g.edge_weight(e), Some(&11));
    *g.edge_attr_mut(e).unwrap() = 3;
    assert_eq!(g.edge_attr(e), Some(&3));
    assert_eq!(g.edge_endpoints(e), Some((a, b)));
    assert!(g.node_attr_mut(NodeId(9)).is_none());
    assert!(g.edge_weight_mut(EdgeId(4)).is_none());
}

#[test]
fn flow_edges_double_undirected_edges() {
    let mut u = Graph::<i32, i32>::new();
    let a = u.add_node(0);
    let b = u.add_node(1);
    u.add_edge(a, b, 3);
    let flows: Vec<(usize, usize, i32)> = u.flow_edges().into_iter().map(|(s, t, w)| (s.0, t.0, *w)).collect();
    assert_eq!(flows, vec![(0, 1, 3), (1, 0, 3)]);

    let mut d = Digraph::<i32, i32>::new();
    let a = d.add_node(0);
    let b = d.add_node(1);
    d.add_edge(a, b, 3);
    let flows: Vec<(usize, usize, i32)> = d.flow_edges().into_iter().map(|(s, t, w)| (s.0, t.0, *w)).collect();
    assert_eq!(flows, vec![(0, 1, 3)]);
}
