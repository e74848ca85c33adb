use graphina::components::{connected_components_parallel, connected_components_parallel_list};
use graphina::types::{Digraph, Graph, NodeId};

#[test]
fn components_test_connected_components_parallel() {
    let mut g = Graph::<i32, f64>::new();
    let n1 = g.add_node(1);
    let n2 = g.add_node(2);
    let n3 = g.add_node(3);
    let n4 = g.add_node(4);

    g.add_edge(n1, n2, 1.0);
    g.add_edge(n3, n4, 1.0);

    let components = connected_components_parallel(&g);

    assert_eq!(components[n1.0], components[n2.0]);
    assert_eq!(components[n3.0], components[n4.0]);
    assert_ne!(components[n1.0], components[n3.0]);
}

#[test]
fn parallel_test_connected_components_parallel() {
    let mut g = Graph::<i32, f64>::new();
    let n1 = g.add_node(1);
    let n2 = g.add_node(2);
    let n3 = g.add_node(3);
    let n4 = g.add_node(4);

    g.add_edge(n1, n2, 1.0);
    g.add_edge(n3, n4, 1.0);

    let components = connected_components_parallel(&g);

    assert_eq!(components[n1.0], components[n2.0]);
    assert_eq!(components[n3.0], components[n4.0]);
    assert_ne!(components[n1.0], components[n3.0]);
}

#[test]
fn test_connected_components_parallel_list() {
    let mut g = Graph::<i32, f64>::new();
    let n1 = g.add_node(1);
    let n2 = g.add_node(2);
    let n3 = g.add_node(3);
    let n4 = g.add_node(4);
    g.add_edge(n1, n2, 1.0);
    g.add_edge(n3, n4, 1.0);
    let list = connected_components_parallel_list(&g);
    assert_eq!(list.len(), 2);
    assert!(list.iter().any(|c| c.contains(&n1) && c.contains(&n2)));
    assert!(list.iter().any(|c| c.contains(&n3) && c.contains(&n4)));
}

#[test]
fn labels_count_up_in_node_order() {
    let mut g = Graph::<i32, ()>::new();
    let n: Vec<NodeId> = (0..6).map(|i| g.add_node(i)).collect();
    g.add_edge(n[0], n[4], ());
    g.add_edge(n[1], n[3], ());
    g.add_edge(n[3], n[5], ());
    let labels = connected_components_parallel(&g);
    assert_eq!(labels, vec![Some(0), Some(1), Some(2), Some(1), Some(0), Some(1)]);
    let lists = connected_components_parallel_list(&g);
    assert_eq!(lists, vec![vec![n[0], n[4]], vec![n[1], n[3], n[5]], vec![n[2]]]);
}

#[test]
fn removed_nodes_carry_no_label() {
    let mut g = Graph::<i32, ()>::new();
    let a = g.add_node(0);
    let b = g.add_node(1);
    let c = g.add_node(2);
    g.add_edge(a, c, ());
    g.remove_node(b);
    let labels = connected_components_parallel(&g);
    assert_eq!(labels, vec![Some(0), None, Some(0)]);
}

#[test]
fn directed_labels_follow_edge_direction() {
    let mut g = Digraph::<i32, ()>::new();
    let a = g.add_node(0);
    let b = g.add_node(1);
    let c = g.add_node(2);
    g.add_edge(b, a, ());
    g.add_edge(b, c, ());
    let labels = connected_components_parallel(&g);
    // a reaches nothing; b is reached by no earlier node and spreads to c.
    assert_eq!(labels, vec![Some(0), Some(1), Some(1)]);
}

#[test]
fn empty_graph_has_no_components() {
    let g = Graph::<i32, ()>::new();
    assert!(connected_components_parallel(&g).is_empty());
    assert!(connected_components_parallel_list(&g).is_empty());
}
