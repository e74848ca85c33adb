use graphina::error::GraphinaError;
use graphina::mst::{boruvka_mst, kruskal_mst};
use graphina::types::{EdgeId, Graph, NodeId};

fn by_weight(g: &Graph<i32, f64>) -> Vec<EdgeId> {
    let mut ids = g.edge_ids();
    ids.sort_by(|a, b| {
        let wa = g.edge_weight(*a).unwrap();
        let wb = g.edge_weight(*b).unwrap();
        wa.partial_cmp(wb).unwrap()
    });
    ids
}

#[test]
fn kruskal_picks_a_minimum_spanning_tree() {
    let mut g = Graph::<i32, f64>::new();
    let nodes: Vec<NodeId> = (0..6).map(|i| g.add_node(i)).collect();
    for (u, v, w) in [(0, 4, 5.0), (0, 5, 2.0), (1, 5, 1.0), (2, 4, 10.0), (3, 4, 1.0)] {
        g.add_edge(nodes[u], nodes[v], w);
    }
    let order = by_weight(&g);
    let edges = kruskal_mst(&g, &order).unwrap();
    assert_eq!(edges.len(), 5);
    let total: f64 = edges.iter().map(|e| e.weight).sum();
    assert_eq!(total, 19.0);
}

#[test]
fn kruskal_skips_edges_closing_a_cycle() {
    let mut g = Graph::<i32, f64>::new();
    let n: Vec<NodeId> = (0..4).map(|i| g.add_node(i)).collect();
    g.add_edge(n[0], n[1], 1.0);
    g.add_edge(n[1], n[2], 2.0);
    g.add_edge(n[0], n[2], 3.0);
    g.add_edge(n[2], n[2], 0.5);
    let order = by_weight(&g);
    let edges = kruskal_mst(&g, &order).unwrap();
    let picked: Vec<(usize, usize)> = edges.iter().map(|e| (e.u.0, e.v.0)).collect();
    assert_eq!(picked, vec![(0, 1), (1, 2)]);
}

#[test]
fn kruskal_on_a_forest_keeps_components_apart() {
    let mut g = Graph::<i32, f64>::new();
    let n: Vec<NodeId> = (0..4).map(|i| g.add_node(i)).collect();
    g.add_edge(n[0], n[1], 1.0);
    g.add_edge(n[2], n[3], 1.0);
    let order = by_weight(&g);
    let edges = kruskal_mst(&g, &order).unwrap();
    assert_eq!(edges.len(), 2);
}

#[test]
fn kruskal_on_an_empty_graph_fails() {
    let g = Graph::<i32, f64>::new();
    assert!(matches!(
        kruskal_mst(&g, &vec![]),
        Err(GraphinaError::InvalidGraph(ref m)) if m == "Graph is empty, cannot compute MST."
    ));
}

fn ranks(g: &Graph<i32, f64>) -> Vec<u64> {
    let mut weights: Vec<f64> = g.edge_ids().iter().map(|e| *g.edge_weight(*e).unwrap()).collect();
    weights.sort_by(|a, b| a.partial_cmp(b).unwrap());
    weights.dedup();
    (0..g.edge_bound())
        .map(|i| match g.edge_weight(EdgeId(i)) {
            Some(w) => weights.iter().position(|x| x == w).unwrap() as u64,
            None => 0,
        })
        .collect()
}

#[test]
fn boruvka_picks_a_minimum_spanning_tree() {
    let mut g = Graph::<i32, f64>::new();
    let nodes: Vec<NodeId> = (0..6).map(|i| g.add_node(i)).collect();
    for (u, v, w) in [(0, 4, 5.0), (0, 5, 2.0), (1, 5, 1.0), (2, 4, 10.0), (3, 4, 1.0)] {
        g.add_edge(nodes[u], nodes[v], w);
    }
    let edges = boruvka_mst(&g, &ranks(&g)).unwrap();
    assert_eq!(edges.len(), 5);
    let total: f64 = edges.iter().map(|e| e.weight).sum();
    assert_eq!(total, 19.0);
}

#[test]
fn boruvka_takes_the_lightest_edge_of_a_triangle_twice_over() {
    let mut g = Graph::<i32, f64>::new();
    let n: Vec<NodeId> = (0..3).map(|i| g.add_node(i)).collect();
    g.add_edge(n[0], n[1], 3.0);
    g.add_edge(n[1], n[2], 1.0);
    g.add_edge(n[0], n[2], 2.0);
    let edges = boruvka_mst(&g, &ranks(&g)).unwrap();
    let picked: Vec<(usize, usize)> = edges.iter().map(|e| (e.u.0, e.v.0)).collect();
    assert_eq!(picked, vec![(0, 2), (1, 2)]);
    let total: f64 = edges.iter().map(|e| e.weight).sum();
    assert_eq!(total, 3.0);
}

#[test]
fn boruvka_on_a_disconnected_graph_gives_a_forest() {
    let mut g = Graph::<i32, f64>::new();
    let n: Vec<NodeId> = (0..5).map(|i| g.add_node(i)).collect();
    g.add_edge(n[0], n[1], 1.0);
    g.add_edge(n[2], n[3], 4.0);
    g.add_edge(n[3], n[2], 2.0);
    let edges = boruvka_mst(&g, &ranks(&g)).unwrap();
    assert_eq!(edges.len(), 2);
    let total: f64 = edges.iter().map(|e| e.weight).sum();
    assert_eq!(total, 3.0);
}

#[test]
fn boruvka_with_equal_weights_still_closes_no_cycle() {
    let mut g = Graph::<i32, f64>::new();
    let n: Vec<NodeId> = (0..4).map(|i| g.add_node(i)).collect();
    g.add_edge(n[0], n[1], 1.0);
    g.add_edge(n[1], n[2], 1.0);
    g.add_edge(n[2], n[3], 1.0);
    g.add_edge(n[3], n[0], 1.0);
    let edges = boruvka_mst(&g, &ranks(&g)).unwrap();
    assert_eq!(edges.len(), 3);
}

#[test]
fn boruvka_on_an_empty_graph_fails() {
    let g = Graph::<i32, f64>::new();
    assert!(matches!(
        boruvka_mst(&g, &vec![]),
        Err(GraphinaError::InvalidGraph(ref m)) if m == "Graph is empty, cannot compute MST."
    ));
}
