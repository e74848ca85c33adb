use graphina::layout::{LayoutAlgorithm, LayoutEngine};
use graphina::records::LabelIndex;
use graphina::types::{Digraph, EdgeId, Graph, NodeId};

fn ids(layer: &Vec<NodeId>) -> Vec<usize> {
    layer.iter().map(|n| n.0).collect()
}

#[test]
fn layout_algorithm_defaults_to_force_directed() {
    assert_eq!(LayoutAlgorithm::default(), LayoutAlgorithm::ForceDirected);
}

#[test]
fn grid_cells_fill_rows_in_node_order() {
    let mut g = Graph::<i32, ()>::new();
    for i in 0..5 {
        g.add_node(i);
    }
    let (cols, rows, cells) = LayoutEngine::grid_cells(&g);
    assert_eq!(cols, 3);
    assert_eq!(rows, 2);
    let got: Vec<(usize, usize, usize)> = cells.iter().map(|(n, r, c)| (n.0, *r, *c)).collect();
    assert_eq!(got, vec![(0, 0, 0), (1, 0, 1), (2, 0, 2), (3, 1, 0), (4, 1, 1)]);
}

#[test]
fn grid_cells_of_a_perfect_square() {
    let mut g = Graph::<i32, ()>::new();
    for i in 0..9 {
        g.add_node(i);
    }
    let (cols, rows, cells) = LayoutEngine::grid_cells(&g);
    assert_eq!((cols, rows), (3, 3));
    assert_eq!(cells.len(), 9);
    assert_eq!((cells[8].1, cells[8].2), (2, 2));
}

#[test]
fn grid_cells_of_an_empty_graph() {
    let g = Graph::<i32, ()>::new();
    let (cols, rows, cells) = LayoutEngine::grid_cells(&g);
    assert_eq!((cols, rows), (0, 0));
    assert!(cells.is_empty());
}

#[test]
fn grid_cells_skip_removed_nodes() {
    let mut g = Graph::<i32, ()>::new();
    let a = g.add_node(0);
    let b = g.add_node(1);
    let c = g.add_node(2);
    g.remove_node(b);
    let (cols, rows, cells) = LayoutEngine::grid_cells(&g);
    assert_eq!((cols, rows), (2, 1));
    assert_eq!(cells[0].0, a);
    assert_eq!(cells[1].0, c);
    assert_eq!((cells[1].1, cells[1].2), (0, 1));
}

#[test]
fn hierarchy_layers_of_a_directed_chain() {
    let mut g = Digraph::<i32, ()>::new();
    let a = g.add_node(0);
    let b = g.add_node(1);
    let c = g.add_node(2);
    let _d = g.add_node(3);
    g.add_edge(a, b, ());
    g.add_edge(b, c, ());
    let layers = LayoutEngine::hierarchy_layers(&g);
    let got: Vec<Vec<usize>> = layers.iter().map(ids).collect();
    assert_eq!(got, vec![vec![0, 3], vec![1], vec![2]]);
}

#[test]
fn hierarchy_layers_of_a_directed_cycle_start_at_first_node() {
    let mut g = Digraph::<i32, ()>::new();
    let a = g.add_node(0);
    let b = g.add_node(1);
    let c = g.add_node(2);
    g.add_edge(a, b, ());
    g.add_edge(b, c, ());
    g.add_edge(c, a, ());
    let layers = LayoutEngine::hierarchy_layers(&g);
    let got: Vec<Vec<usize>> = layers.iter().map(ids).collect();
    assert_eq!(got, vec![vec![0], vec![1], vec![2]]);
}

#[test]
fn hierarchy_layers_give_unreached_nodes_a_layer_each() {
    let mut g = Graph::<i32, ()>::new();
    let a = g.add_node(0);
    let b = g.add_node(1);
    let c = g.add_node(2);
    let _lonely = g.add_node(3);
    g.add_edge(a, b, ());
    g.add_edge(b, c, ());
    g.add_edge(c, a, ());
    let layers = LayoutEngine::hierarchy_layers(&g);
    let got: Vec<Vec<usize>> = layers.iter().map(ids).collect();
    assert_eq!(got, vec![vec![3], vec![0], vec![1], vec![2]]);
}

#[test]
fn hierarchy_layers_of_a_branching_tree() {
    let mut g = Digraph::<i32, ()>::new();
    let n: Vec<NodeId> = (0..6).map(|i| g.add_node(i)).collect();
    g.add_edge(n[0], n[1], ());
    g.add_edge(n[0], n[2], ());
    g.add_edge(n[1], n[3], ());
    g.add_edge(n[2], n[4], ());
    g.add_edge(n[2], n[5], ());
    g.add_edge(n[1], n[4], ());
    let layers = LayoutEngine::hierarchy_layers(&g);
    let mut got: Vec<Vec<usize>> = layers.iter().map(ids).collect();
    for layer in got.iter_mut() {
        layer.sort();
    }
    assert_eq!(got, vec![vec![0], vec![1, 2], vec![3, 4, 5]]);
}

#[test]
fn hierarchy_layers_of_an_empty_graph() {
    let g = Digraph::<i32, ()>::new();
    assert!(LayoutEngine::hierarchy_layers(&g).is_empty());
}

#[test]
fn label_index_reuses_the_node_of_a_known_label() {
    let mut g = Graph::<i32, f64>::new();
    let mut index = LabelIndex::new();
    let a = index.node_for(&mut g, 7);
    let b = index.node_for(&mut g, 9);
    let again = index.node_for(&mut g, 7);
    assert_eq!(a, again);
    assert_ne!(a, b);
    assert_eq!(g.node_count(), 2);
    assert_eq!(g.node_attr(b), Some(&9));
}

#[test]
fn label_index_adds_edges_between_labelled_nodes() {
    let mut g = Digraph::<i32, f64>::new();
    let mut index = LabelIndex::new();
    let e0 = index.add_edge_record(&mut g, 1, 2, 0.5);
    let e1 = index.add_edge_record(&mut g, 2, 3, 1.5);
    let e2 = index.add_edge_record(&mut g, 3, 1, 2.5);
    assert_eq!((e0, e1, e2), (EdgeId(0), EdgeId(1), EdgeId(2)));
    assert_eq!(g.node_count(), 3);
    assert_eq!(g.edge_count(), 3);
    let (s, t) = g.edge_endpoints(e2).unwrap();
    assert_eq!(g.node_attr(s), Some(&3));
    assert_eq!(g.node_attr(t), Some(&1));
    assert_eq!(g.edge_weight(e1), Some(&1.5));
}
