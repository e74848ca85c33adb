use graphina::sparse::{adjacency_cells, kept_entries};
use graphina::types::{Digraph, EdgeId, Graph};

#[test]
fn adjacency_cells_follow_node_order() {
    let mut graph = Digraph::<i32, i64>::new();
    let a = graph.add_node(0);
    let x = graph.add_node(1);
    let b = graph.add_node(2);
    let c = graph.add_node(3);
    graph.remove_node(x);
    let e0 = graph.add_edge(a, b, 5);
    let e1 = graph.add_edge(b, c, 6);
    let e2 = graph.add_edge(c, c, 7);
    let cells = adjacency_cells(&graph);
    assert_eq!(cells, vec![(0, 1, e0), (1, 2, e1), (2, 2, e2)]);
}

#[test]
fn adjacency_cells_mirror_undirected_edges() {
    let mut graph = Graph::<i32, i64>::new();
    let a = graph.add_node(0);
    let b = graph.add_node(1);
    let e0 = graph.add_edge(a, b, 5);
    let e1 = graph.add_edge(a, a, 2);
    let cells = adjacency_cells(&graph);
    assert_eq!(cells, vec![(0, 1, e0), (1, 0, e0), (0, 0, e1)]);
    assert_eq!(e1, EdgeId(1));
}

#[test]
fn kept_entries_drop_the_lower_triangle_when_undirected() {
    let entries = vec![(0, 1), (1, 0), (1, 1), (2, 0)];
    assert_eq!(kept_entries(&entries, false), vec![0, 2]);
    assert_eq!(kept_entries(&entries, true), vec![0, 1, 2, 3]);
}
