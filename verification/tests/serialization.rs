use graphina::error::GraphinaError;
use graphina::serialization::SerializableGraph;
use graphina::types::{Digraph, Graph, NodeId};

#[test]
fn test_to_serializable() {
    let mut g = Graph::<i32, f64>::new();
    let n1 = g.add_node(1);
    let n2 = g.add_node(2);
    let n3 = g.add_node(3);
    g.add_edge(n1, n2, 1.5);
    g.add_edge(n2, n3, 2.5);

    let serializable = g.to_serializable();
    assert_eq!(serializable.nodes.len(), 3);
    assert_eq!(serializable.edges.len(), 2);
    assert!(!serializable.directed);
}

#[test]
fn test_from_serializable() {
    let serializable = SerializableGraph {
        directed: false,
        nodes: vec![10, 20, 30],
        edges: vec![(0, 1, 1.0), (1, 2, 2.0), (2, 0, 3.0)],
    };

    let graph = Graph::<i32, f64>::from_serializable(&serializable);
    assert_eq!(graph.node_count(), 3);
    assert_eq!(graph.edge_count(), 3);
}

#[test]
fn test_directedness_mismatch_strict_load() {
    let serializable = SerializableGraph {
        directed: true,
        nodes: vec![1, 2],
        edges: vec![(0, 1, 1.0)],
    };
    type UGraph = Graph<i32, f64>;
    let err = match UGraph::try_from_serializable(&serializable) {
        Ok(_) => panic!("expected mismatch error"),
        Err(e) => e,
    };
    assert!(err.to_string().to_lowercase().contains("mismatch"));

    type DGraph = Digraph<i32, f64>;
    let g = match DGraph::try_from_serializable(&serializable) {
        Ok(g) => g,
        Err(_) => panic!("directed should load"),
    };
    assert_eq!(g.node_count(), 2);
    assert_eq!(g.edge_count(), 1);
}

#[test]
fn serialization_roundtrip_keeps_nodes_and_edges() {
    let data = SerializableGraph {
        directed: true,
        nodes: vec![7u32, 8, 9, 10],
        edges: vec![(3, 0, 1i64), (0, 0, 2), (2, 1, 3)],
    };
    let g = Digraph::<u32, i64>::from_serializable(&data);
    let back = g.to_serializable();
    assert!(back.directed);
    assert_eq!(back.nodes, data.nodes);
    assert_eq!(back.edges, data.edges);
}

#[test]
fn serialization_compacts_removed_nodes() {
    let mut g = Graph::<char, u8>::new();
    let a = g.add_node('a');
    let b = g.add_node('b');
    let c = g.add_node('c');
    g.add_edge(a, b, 1);
    g.add_edge(b, c, 2);
    g.remove_node(a);
    let data = g.to_serializable();
    assert_eq!(data.nodes, vec!['b', 'c']);
    assert_eq!(data.edges, vec![(0, 1, 2)]);
    let h = Graph::<char, u8>::from_serializable(&data);
    assert_eq!(h.node_attr(NodeId(0)), Some(&'b'));
    assert!(matches!(
        Digraph::<char, u8>::try_from_serializable(&data),
        Err(GraphinaError::InvalidGraph(ref m)) if m == "Directedness mismatch between SerializableGraph and target graph type"
    ));
}

#[test]
fn graphml_text_lists_nodes_and_edges() {
    let mut g = graphina::types::Digraph::<i32, f64>::new();
    let a = g.add_node(7);
    let b = g.add_node(8);
    g.add_edge(a, b, 2.5);
    let attrs: Vec<String> = vec!["7".to_string(), "8".to_string()];
    let weights: Vec<String> = vec!["2.5".to_string()];
    let doc = graphina::graphml::graphml_text(&g, &attrs, &weights);
    let expected = String::new()
        + "<?xml version=\"1.0\" encoding=\"UTF-8\"?>\n"
        + "<graphml xmlns=\"http://graphml.graphdrawing.org/xmlns\"\n"
        + "         xmlns:xsi=\"http://www.w3.org/2001/XMLSchema-instance\"\n"
        + "         xsi:schemaLocation=\"http://graphml.graphdrawing.org/xmlns\n"
        + "         http://graphml.graphdrawing.org/xmlns/1.0/graphml.xsd\">\n"
        + "  <key id=\"d0\" for=\"node\" attr.name=\"value\" attr.type=\"string\"/>\n"
        + "  <key id=\"d1\" for=\"edge\" attr.name=\"weight\" attr.type=\"double\"/>\n"
        + "  <graph id=\"G\" edgedefault=\"directed\">\n"
        + "    <node id=\"n0\">\n      <data key=\"d0\">7</data>\n    </node>\n"
        + "    <node id=\"n1\">\n      <data key=\"d0\">8</data>\n    </node>\n"
        + "    <edge id=\"e0\" source=\"n0\" target=\"n1\">\n      <data key=\"d1\">2.5</data>\n    </edge>\n"
        + "  </graph>\n</graphml>\n";
    assert_eq!(doc, expected);
}
