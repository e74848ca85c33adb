use graphina::types::{Digraph, Graph, NodeId};

#[test]
fn test_subgraph() {
    let mut g = Graph::<i32, f64>::new();
    let n1 = g.add_node(1);
    let n2 = g.add_node(2);
    let n3 = g.add_node(3);
    let n4 = g.add_node(4);

    g.add_edge(n1, n2, 1.0);
    g.add_edge(n2, n3, 2.0);
    g.add_edge(n3, n4, 3.0);

    let sub = g.subgraph(&[n1, n2, n3]).unwrap();
    assert_eq!(sub.node_count(), 3);
    assert_eq!(sub.edge_count(), 2);
}

#[test]
fn subgraph_renames_and_rejects_missing_nodes() {
    let mut g = Digraph::<char, u32>::new();
    let a = g.add_node('a');
    let b = g.add_node('b');
    let c = g.add_node('c');
    g.add_edge(a, c, 5);
    g.add_edge(c, b, 6);
    let sub = g.subgraph(&[c, a]).unwrap();
    assert_eq!(sub.node_attr(NodeId(0)), Some(&'c'));
    assert_eq!(sub.node_attr(NodeId(1)), Some(&'a'));
    assert_eq!(sub.edges(), vec![(NodeId(1), NodeId(0), &5)]);
    let err = g.subgraph(&[a, NodeId(9), NodeId(8)]).unwrap_err();
    assert_eq!(err.message, "Node 9 not found in graph");
}

#[test]
fn test_ego_graph() {
    let mut g = Graph::<i32, f64>::new();
    let n1 = g.add_node(1);
    let n2 = g.add_node(2);
    let n3 = g.add_node(3);
    let n4 = g.add_node(4);

    g.add_edge(n1, n2, 1.0);
    g.add_edge(n2, n3, 1.0);
    g.add_edge(n3, n4, 1.0);

    let ego = g.ego_graph(n2, 1).unwrap();
    assert_eq!(ego.node_count(), 3); // n1, n2, n3
}

#[test]
fn ego_graph_of_missing_center_fails() {
    let g = Graph::<i32, f64>::new();
    let err = g.ego_graph(NodeId(4), 2).unwrap_err();
    assert_eq!(err.message, "Center node 4 not found");
}

#[test]
fn test_filter_nodes() {
    let mut g = Graph::<i32, f64>::new();
    let n1 = g.add_node(1);
    let n2 = g.add_node(2);
    let n3 = g.add_node(3);
    let n4 = g.add_node(4);

    g.add_edge(n1, n2, 1.0);
    g.add_edge(n2, n3, 1.0);
    g.add_edge(n3, n4, 1.0);

    let filtered = g.filter_nodes(|_id, attr| *attr % 2 == 0);
    assert_eq!(filtered.node_count(), 2); // 2 and 4
}

#[test]
fn test_filter_edges() {
    let mut g = Graph::<i32, f64>::new();
    let n1 = g.add_node(1);
    let n2 = g.add_node(2);
    let n3 = g.add_node(3);

    g.add_edge(n1, n2, 0.5);
    g.add_edge(n2, n3, 1.5);
    g.add_edge(n3, n1, 2.5);

    let filtered = g.filter_edges(|_src, _tgt, w| *w > 1.0);
    assert_eq!(filtered.node_count(), 3);
    assert_eq!(filtered.edge_count(), 2);
}

#[test]
fn test_k_hop_neighbors() {
    let mut g = Graph::<i32, f64>::new();
    let n1 = g.add_node(1);
    let n2 = g.add_node(2);
    let n3 = g.add_node(3);
    let n4 = g.add_node(4);

    g.add_edge(n1, n2, 1.0);
    g.add_edge(n2, n3, 1.0);
    g.add_edge(n3, n4, 1.0);

    let neighbors = g.k_hop_neighbors(n1, 2);
    assert_eq!(neighbors.len(), 3); // n1, n2, n3
}

#[test]
fn k_hop_grows_with_the_radius() {
    let mut g = Digraph::<i32, ()>::new();
    let ids: Vec<NodeId> = (0..5).map(|i| g.add_node(i)).collect();
    g.add_edge(ids[0], ids[1], ());
    g.add_edge(ids[1], ids[2], ());
    g.add_edge(ids[3], ids[0], ());
    for k in 0..4 {
        let small = g.k_hop_neighbors(ids[0], k);
        let big = g.k_hop_neighbors(ids[0], k + 1);
        assert!(small.iter().all(|x| big.contains(x)));
    }
    assert_eq!(g.k_hop_neighbors(ids[0], 0), vec![ids[0]]);
    assert_eq!(g.k_hop_neighbors(ids[0], 9), vec![ids[0], ids[1], ids[2]]);
    assert!(g.k_hop_neighbors(NodeId(7), 3).is_empty());
}

#[test]
fn test_connected_component() {
    let mut g = Graph::<i32, f64>::new();
    let n1 = g.add_node(1);
    let n2 = g.add_node(2);
    let n3 = g.add_node(3);
    let _n4 = g.add_node(4);

    g.add_edge(n1, n2, 1.0);
    g.add_edge(n2, n3, 1.0);
    // n4 isolated

    let component = g.connected_component(n1);
    assert_eq!(component.len(), 3); // n1, n2, n3
}

#[test]
fn connected_component_ignores_direction() {
    let mut g = Digraph::<i32, ()>::new();
    let ids: Vec<NodeId> = (0..4).map(|i| g.add_node(i)).collect();
    g.add_edge(ids[1], ids[0], ());
    g.add_edge(ids[1], ids[2], ());
    let mut comp = g.connected_component(ids[0]);
    assert_eq!(comp[0], ids[0]);
    comp.sort();
    assert_eq!(comp, vec![ids[0], ids[1], ids[2]]);
}

#[test]
fn test_component_subgraph() {
    let mut g = Graph::<i32, f64>::new();
    let n1 = g.add_node(1);
    let n2 = g.add_node(2);
    let _n3 = g.add_node(3);

    g.add_edge(n1, n2, 1.0);
    // n3 is isolated

    let sub = g.component_subgraph(n1).unwrap();
    assert_eq!(sub.node_count(), 2);
    assert_eq!(sub.edge_count(), 1);
}

#[test]
fn test_induced_subgraph() {
    let mut g = Graph::<i32, f64>::new();
    let n1 = g.add_node(1);
    let n2 = g.add_node(2);
    let n3 = g.add_node(3);

    g.add_edge(n1, n2, 1.0);
    g.add_edge(n2, n3, 2.0);

    let nodes = vec![n1, n2];
    let induced = g.induced_subgraph(&nodes).unwrap();
    assert_eq!(induced.node_count(), 2);
    assert_eq!(induced.edge_count(), 1);
}
