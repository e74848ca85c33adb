use graphina::types::{BaseGraph, Directed, Undirected};
use graphina::validation::{
    count_components, has_self_loops, is_bipartite, is_connected, is_dag, is_empty, require_connected,
    require_dag, require_no_self_loops, require_non_empty,
};

type Graph = BaseGraph<i32, f64, Undirected>;
type DiGraph = BaseGraph<i32, f64, Directed>;

#[test]
fn test_is_empty() {
    let empty_graph: Graph = Graph::new();
    assert!(is_empty(&empty_graph));

    let mut g = Graph::new();
    g.add_node(1);
    assert!(!is_empty(&g));
}

#[test]
fn test_is_connected() {
    let mut g = Graph::new();
    let n1 = g.add_node(1);
    let n2 = g.add_node(2);
    g.add_edge(n1, n2, 1.0);
    assert!(is_connected(&g));

    let mut disconnected = Graph::new();
    disconnected.add_node(1);
    disconnected.add_node(2);
    assert!(!is_connected(&disconnected));

    let empty: Graph = Graph::new();
    assert!(!is_connected(&empty));
}

#[test]
fn test_has_self_loops() {
    let mut g = Graph::new();
    let n1 = g.add_node(1);
    let n2 = g.add_node(2);
    g.add_edge(n1, n2, 1.0);
    assert!(!has_self_loops(&g));

    g.add_edge(n1, n1, 1.0);
    assert!(has_self_loops(&g));
}

#[test]
fn test_is_dag() {
    let mut dag = DiGraph::new();
    let n1 = dag.add_node(1);
    let n2 = dag.add_node(2);
    let n3 = dag.add_node(3);
    dag.add_edge(n1, n2, 1.0);
    dag.add_edge(n2, n3, 1.0);
    assert!(is_dag(&dag));

    // Add cycle
    dag.add_edge(n3, n1, 1.0);
    assert!(!is_dag(&dag));

    // Undirected graph with edges is not a DAG
    let mut undirected = Graph::new();
    let u1 = undirected.add_node(1);
    let u2 = undirected.add_node(2);
    undirected.add_edge(u1, u2, 1.0);
    assert!(!is_dag(&undirected));
}

#[test]
fn test_is_bipartite() {
    let mut g = Graph::new();
    let n1 = g.add_node(1);
    let n2 = g.add_node(2);
    let n3 = g.add_node(3);
    let n4 = g.add_node(4);

    // Create bipartite graph: (1,2) - (3,4)
    g.add_edge(n1, n3, 1.0);
    g.add_edge(n1, n4, 1.0);
    g.add_edge(n2, n3, 1.0);
    g.add_edge(n2, n4, 1.0);
    assert!(is_bipartite(&g));

    // Add edge within same partition
    g.add_edge(n1, n2, 1.0);
    assert!(!is_bipartite(&g));
}

#[test]
fn test_count_components() {
    let mut g = Graph::new();
    assert_eq!(count_components(&g), 0);

    let n1 = g.add_node(1);
    let n2 = g.add_node(2);
    let n3 = g.add_node(3);
    let n4 = g.add_node(4);

    // Two components: {1,2} and {3,4}
    g.add_edge(n1, n2, 1.0);
    g.add_edge(n3, n4, 1.0);
    assert_eq!(count_components(&g), 2);

    // Connect them
    g.add_edge(n2, n3, 1.0);
    assert_eq!(count_components(&g), 1);
}

#[test]
fn connected_exactly_with_one_component() {
    let mut g = DiGraph::new();
    assert_eq!(is_connected(&g), count_components(&g) == 1);
    let a = g.add_node(0);
    let b = g.add_node(1);
    let c = g.add_node(2);
    assert_eq!(is_connected(&g), count_components(&g) == 1);
    g.add_edge(a, b, 1.0);
    assert_eq!(is_connected(&g), count_components(&g) == 1);
    g.add_edge(c, b, 1.0);
    assert!(is_connected(&g));
    assert_eq!(count_components(&g), 1);
    g.remove_node(b);
    assert!(!is_connected(&g));
    assert_eq!(count_components(&g), 2);
}

#[test]
fn require_checks_report_the_algorithm() {
    let mut g = Graph::new();
    let n1 = g.add_node(1);
    let n2 = g.add_node(2);
    g.add_edge(n1, n2, 1.0);
    assert!(require_non_empty(&g, "test").is_ok());
    assert!(require_connected(&g, "test").is_ok());
    assert!(require_no_self_loops(&g, "test").is_ok());
    let empty: Graph = Graph::new();
    assert!(require_non_empty(&empty, "test").is_err());
    g.add_edge(n1, n1, 1.0);
    assert!(require_no_self_loops(&g, "algo").is_err());
    let mut d = DiGraph::new();
    let x = d.add_node(0);
    let y = d.add_node(1);
    d.add_edge(x, y, 1.0);
    assert!(require_dag(&d, "topo").is_ok());
    d.add_edge(y, x, 1.0);
    assert!(require_dag(&d, "topo").is_err());
}
