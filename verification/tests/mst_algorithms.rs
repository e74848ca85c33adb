use std::ops::Add;

use graphina::mst::{boruvka_mst, kruskal_mst, MstEdge};
use graphina::prim::prim_mst;
use graphina::types::{EdgeId, Graph, NodeId};
use ordered_float::OrderedFloat;

/// The edges in order of weight, ties by id (a stable sort).
fn order_by_weight<W: Copy + PartialOrd>(g: &Graph<i32, W>) -> Vec<EdgeId> {
    let mut ids = g.edge_ids();
    ids.sort_by(|a, b| g.edge_weight(*a).unwrap().partial_cmp(g.edge_weight(*b).unwrap()).unwrap());
    ids
}

/// One rank per edge slot: the place of the edge's weight among the
/// distinct weights.
fn weight_ranks<W: Copy + PartialOrd>(g: &Graph<i32, W>) -> Vec<u64> {
    let mut weights: Vec<W> = g.edge_ids().iter().map(|e| *g.edge_weight(*e).unwrap()).collect();
    weights.sort_by(|a, b| a.partial_cmp(b).unwrap());
    weights.dedup_by(|a, b| a == b);
    (0..g.edge_bound())
        .map(|i| match g.edge_weight(EdgeId(i)) {
            Some(w) => weights.iter().position(|x| x == w).unwrap() as u64,
            None => 0,
        })
        .collect()
}

fn total<W: Copy + Add<Output = W> + Default>(edges: &[MstEdge<W>]) -> W {
    edges.iter().fold(W::default(), |acc, e| acc + e.weight)
}

fn kruskal<W: Copy + PartialOrd + Add<Output = W> + Default>(g: &Graph<i32, W>) -> (Vec<MstEdge<W>>, W) {
    let edges = kruskal_mst(g, &order_by_weight(g)).expect("MST should exist");
    let t = total(&edges);
    (edges, t)
}

fn prim<W: Copy + PartialOrd + Add<Output = W> + Default>(g: &Graph<i32, W>) -> (Vec<MstEdge<W>>, W) {
    let edges = prim_mst(g, &weight_ranks(g)).expect("MST should exist");
    let t = total(&edges);
    (edges, t)
}

fn boruvka<W: Copy + PartialOrd + Add<Output = W> + Default>(g: &Graph<i32, W>) -> (Vec<MstEdge<W>>, W) {
    let edges = boruvka_mst(g, &weight_ranks(g)).expect("MST should exist");
    let t = total(&edges);
    (edges, t)
}

#[test]
fn mst_test_kruskal_mst() {
    let mut graph = Graph::<i32, OrderedFloat<f64>>::new();
    let n1 = graph.add_node(1);
    let n2 = graph.add_node(2);
    let n3 = graph.add_node(3);
    let n4 = graph.add_node(4);
    graph.add_edge(n1, n2, OrderedFloat(1.0));
    graph.add_edge(n1, n3, OrderedFloat(3.0));
    graph.add_edge(n2, n3, OrderedFloat(2.0));
    graph.add_edge(n2, n4, OrderedFloat(4.0));
    graph.add_edge(n3, n4, OrderedFloat(5.0));
    let mst = kruskal(&graph);
    assert_eq!(mst.0.len(), 3);
    let total_weight: f64 = mst.0.iter().map(|e| e.weight.0).sum();
    assert!((total_weight - 7.0).abs() < 1e-6);
}

#[test]
fn algorithms_test_kruskal_mst() {
    let mut graph = Graph::<i32, OrderedFloat<f64>>::new();
    let n1 = graph.add_node(1);
    let n2 = graph.add_node(2);
    let n3 = graph.add_node(3);
    let n4 = graph.add_node(4);
    graph.add_edge(n1, n2, OrderedFloat(1.0));
    graph.add_edge(n1, n3, OrderedFloat(3.0));
    graph.add_edge(n2, n3, OrderedFloat(2.0));
    graph.add_edge(n2, n4, OrderedFloat(4.0));
    graph.add_edge(n3, n4, OrderedFloat(5.0));
    let mst = kruskal(&graph);
    assert_eq!(mst.0.len(), 3);
    let total_weight: f64 = mst.0.iter().map(|e| e.weight.0).sum();
    assert!((total_weight - 7.0).abs() < 1e-6);
}

#[test]
fn mst_test_prim_mst() {
    let mut graph = Graph::<i32, OrderedFloat<f64>>::new();
    let n1 = graph.add_node(1);
    let n2 = graph.add_node(2);
    let n3 = graph.add_node(3);
    graph.add_edge(n1, n2, OrderedFloat(1.0));
    graph.add_edge(n1, n3, OrderedFloat(3.0));
    graph.add_edge(n2, n3, OrderedFloat(2.0));
    let mst = prim(&graph);
    assert_eq!(mst.0.len(), 2);
}

#[test]
fn algorithms_test_prim_mst() {
    let mut graph = Graph::<i32, OrderedFloat<f64>>::new();
    let n1 = graph.add_node(1);
    let n2 = graph.add_node(2);
    let n3 = graph.add_node(3);
    graph.add_edge(n1, n2, OrderedFloat(1.0));
    graph.add_edge(n1, n3, OrderedFloat(3.0));
    graph.add_edge(n2, n3, OrderedFloat(2.0));
    let mst = prim(&graph);
    assert_eq!(mst.0.len(), 2);
}

#[test]
fn test_prim_mst_undirected_target_edges() {
    let mut g: Graph<i32, OrderedFloat<f64>> = Graph::new();
    let nodes: Vec<NodeId> = (0..6).map(|i| g.add_node(i)).collect();
    for (u, v, w) in [(0, 4, 5.0), (0, 5, 2.0), (1, 5, 1.0), (2, 4, 10.0), (3, 4, 1.0)] {
        g.add_edge(nodes[u], nodes[v], OrderedFloat(w));
    }

    let (prim_edges, prim_weight) = prim(&g);
    assert_eq!(prim_edges.len(), 5);
    assert_eq!(prim_weight, OrderedFloat(19.0));

    let (kruskal_edges, kruskal_weight) = kruskal(&g);
    assert_eq!(prim_edges.len(), kruskal_edges.len());
    assert_eq!(prim_weight, kruskal_weight);
}

#[test]
fn test_boruvka_mst_canonical_root_grouping() {
    let edges = [
        (0, 2, 4.0),
        (0, 3, 1.0),
        (0, 4, 4.0),
        (0, 5, 4.0),
        (0, 6, 3.0),
        (1, 2, 8.0),
        (1, 3, 6.0),
        (1, 4, 5.0),
        (1, 5, 4.0),
        (1, 6, 10.0),
        (1, 7, 1.0),
        (1, 8, 7.0),
        (2, 3, 7.0),
        (2, 4, 7.0),
        (2, 5, 9.0),
        (2, 8, 8.0),
        (2, 9, 1.0),
        (2, 10, 3.0),
        (3, 4, 9.0),
        (3, 5, 10.0),
        (3, 10, 5.0),
        (4, 6, 5.0),
        (4, 9, 7.0),
        (4, 10, 5.0),
        (5, 6, 7.0),
        (5, 7, 7.0),
        (5, 8, 5.0),
        (5, 9, 4.0),
        (5, 10, 5.0),
        (6, 7, 6.0),
        (6, 8, 2.0),
        (6, 9, 5.0),
        (6, 10, 4.0),
        (7, 9, 2.0),
        (7, 10, 9.0),
        (8, 10, 9.0),
        (9, 10, 10.0),
    ];

    let mut g: Graph<i32, OrderedFloat<f64>> = Graph::new();
    let nodes: Vec<NodeId> = (0..11).map(|i| g.add_node(i)).collect();
    for (u, v, w) in edges {
        g.add_edge(nodes[u], nodes[v], OrderedFloat(w));
    }

    let (boruvka_edges, boruvka_weight) = boruvka(&g);
    assert_eq!(boruvka_edges.len(), 10);
    assert_eq!(boruvka_weight, OrderedFloat(25.0));

    let (kruskal_edges, kruskal_weight) = kruskal(&g);
    assert_eq!(boruvka_edges.len(), kruskal_edges.len());
    assert_eq!(boruvka_weight, kruskal_weight);
}

#[test]
fn test_mst_disconnected_forest() {
    let mut g: Graph<i32, OrderedFloat<f64>> = Graph::new();
    let nodes: Vec<NodeId> = (0..5).map(|i| g.add_node(i)).collect();
    for (u, v, w) in [(0, 1, 1.0), (1, 2, 2.0), (0, 2, 5.0), (3, 4, 3.0)] {
        g.add_edge(nodes[u], nodes[v], OrderedFloat(w));
    }

    let (k_edges, k_weight) = kruskal(&g);
    let (p_edges, p_weight) = prim(&g);
    let (b_edges, b_weight) = boruvka(&g);

    assert_eq!(k_edges.len(), 3);
    assert_eq!(k_weight, OrderedFloat(6.0));
    assert_eq!(p_edges.len(), 3);
    assert_eq!(p_weight, k_weight);
    assert_eq!(b_edges.len(), 3);
    assert_eq!(b_weight, k_weight);
}

#[test]
fn test_mst_sparse_indices_after_removal() {
    let mut g: Graph<i32, OrderedFloat<f64>> = Graph::new();
    let nodes: Vec<NodeId> = (0..4).map(|i| g.add_node(i)).collect();
    g.remove_node(nodes[1]);
    g.add_edge(nodes[0], nodes[2], OrderedFloat(1.0));
    g.add_edge(nodes[2], nodes[3], OrderedFloat(2.0));

    let (k_edges, k_weight) = kruskal(&g);
    let (p_edges, p_weight) = prim(&g);
    let (b_edges, b_weight) = boruvka(&g);

    assert_eq!(k_edges.len(), 2);
    assert_eq!(k_weight, OrderedFloat(3.0));
    assert_eq!(p_edges.len(), 2);
    assert_eq!(p_weight, k_weight);
    assert_eq!(b_edges.len(), 2);
    assert_eq!(b_weight, k_weight);
}

#[test]
fn test_mst_accepts_plain_f64_weights() {
    let mut g = Graph::<i32, f64>::new();
    let a = g.add_node(0);
    let b = g.add_node(1);
    let c = g.add_node(2);
    g.add_edge(a, b, 1.5);
    g.add_edge(b, c, 2.5);
    g.add_edge(a, c, 10.0);
    let (k_edges, k_total) = kruskal(&g);
    let (p_edges, p_total) = prim(&g);
    let (b_edges, b_total) = boruvka(&g);
    assert_eq!((k_edges.len(), p_edges.len(), b_edges.len()), (2, 2, 2));
    assert_eq!(k_total, 4.0);
    assert_eq!(p_total, 4.0);
    assert_eq!(b_total, 4.0);
}

#[test]
fn prim_reports_each_edge_from_the_tree_to_the_new_node() {
    let mut g = Graph::<i32, i32>::new();
    let n: Vec<NodeId> = (0..4).map(|i| g.add_node(i)).collect();
    g.add_edge(n[1], n[0], 4);
    g.add_edge(n[2], n[1], 1);
    g.add_edge(n[0], n[2], 2);
    g.add_edge(n[3], n[3], 0);
    let edges = prim_mst(&g, &weight_ranks(&g)).unwrap();
    let got: Vec<(usize, usize, i32)> = edges.iter().map(|e| (e.u.0, e.v.0, e.weight)).collect();
    assert_eq!(got, vec![(0, 2, 2), (2, 1, 1)]);
}

#[test]
fn prim_on_an_empty_graph_fails() {
    let g = Graph::<i32, f64>::new();
    assert!(prim_mst(&g, &vec![]).is_err());
}
