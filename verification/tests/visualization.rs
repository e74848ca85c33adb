use graphina::types::{Digraph, Graph};

fn texts<T: ToString>(items: &[T]) -> Vec<String> {
    items.iter().map(|t| t.to_string()).collect()
}

#[test]
fn visualization_ascii_art_edge_format_is_correct() {
    let mut g = Graph::<&str, f64>::new();
    let a = g.add_node("A");
    let b = g.add_node("B");
    g.add_edge(a, b, 1.0);

    let ascii = g.to_ascii_art(&texts(&["A", "B"]), &texts(&[1.0f64]));
    assert!(ascii.contains(&format!("[{}] -- [{}]", a.index(), b.index())));
}

#[test]
fn d3_ascii_art_edge_format_is_correct() {
    let mut g = Graph::<&str, f64>::new();
    let a = g.add_node("A");
    let b = g.add_node("B");
    g.add_edge(a, b, 1.0);

    let ascii = g.to_ascii_art(&texts(&["A", "B"]), &texts(&[1.0f64]));
    assert!(ascii.contains(&format!("[{}] -- [{}]", a.index(), b.index())));
}

#[test]
fn ascii_art_lists_nodes_edges_and_matrix() {
    let mut g = Digraph::<i32, i32>::new();
    let a = g.add_node(7);
    let b = g.add_node(8);
    g.add_edge(a, b, 5);
    let ascii = g.to_ascii_art(&texts(&[7, 8]), &texts(&[5]));
    let expected = format!(
        "Graph Visualization (ASCII)\nNodes: 2, Edges: 1, Type: Directed\n{}\n\nNodes:\n  [0] 7 (degree: 1)\n  [1] 8 (degree: 1)\n\nEdges:\n  [0] -> [1] (weight: 5)\n\nAdjacency Matrix:\n      0   1 \n  0   .   X \n  1   .   . \n",
        "=".repeat(50)
    );
    assert_eq!(ascii, expected);
}

#[test]
fn ascii_art_leaves_out_the_matrix_above_twenty_nodes() {
    let mut g = Graph::<usize, i32>::new();
    let labels: Vec<usize> = (0..21).collect();
    for l in &labels {
        g.add_node(*l);
    }
    let ascii = g.to_ascii_art(&texts(&labels), &Vec::new());
    assert!(ascii.contains("Nodes: 21, Edges: 0, Type: Undirected"));
    assert!(!ascii.contains("Adjacency Matrix"));
}
