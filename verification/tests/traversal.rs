use graphina::traversal::{bfs, bidis, dfs, iddfs, try_bidirectional_search, try_iddfs};
use graphina::types::{Digraph, Graph, NodeId};

#[test]
fn test_bfs() {
    let mut graph = Graph::<i32, ()>::new();
    let n1 = graph.add_node(1);
    let n2 = graph.add_node(2);
    let n3 = graph.add_node(3);
    graph.add_edge(n1, n2, ());
    graph.add_edge(n2, n3, ());
    let visited = bfs(&graph, n1);
    assert_eq!(visited.len(), 3);
    assert!(visited.contains(&n1));
    assert!(visited.contains(&n2));
    assert!(visited.contains(&n3));
}

#[test]
fn test_dfs() {
    let mut graph = Graph::<i32, ()>::new();
    let n1 = graph.add_node(1);
    let n2 = graph.add_node(2);
    let n3 = graph.add_node(3);
    graph.add_edge(n1, n2, ());
    graph.add_edge(n2, n3, ());
    let visited = dfs(&graph, n1);
    assert_eq!(visited.len(), 3);
    assert!(visited.contains(&n1));
    assert!(visited.contains(&n2));
    assert!(visited.contains(&n3));
}

#[test]
fn test_bidis() {
    let mut graph = Graph::<i32, ()>::new();
    let n1 = graph.add_node(1);
    let n2 = graph.add_node(2);
    let n3 = graph.add_node(3);
    graph.add_edge(n1, n2, ());
    graph.add_edge(n2, n3, ());
    let path = bidis(&graph, n1, n3);
    assert!(path.is_some());
    let path = path.unwrap();
    assert_eq!(path[0], n1);
    assert_eq!(path[path.len() - 1], n3);
}

#[test]
fn traversals_follow_edge_direction() {
    let mut g = Digraph::<i32, ()>::new();
    let a = g.add_node(0);
    let b = g.add_node(1);
    let c = g.add_node(2);
    g.add_edge(a, b, ());
    g.add_edge(c, b, ());
    assert_eq!(bfs(&g, a), vec![a, b]);
    assert_eq!(dfs(&g, a), vec![a, b]);
    assert!(bidis(&g, a, c).is_none());
    assert!(bidis(&g, b, a).is_none());
    assert!(iddfs(&g, a, c, 5).is_none());
    let err = try_bidirectional_search(&g, a, c).unwrap_err();
    assert_eq!(err.message, "No path exists between the specified nodes");
    assert!(try_iddfs(&g, a, c, 3).is_err());
}

#[test]
fn bfs_and_dfs_visit_the_same_nodes() {
    let mut g = Graph::<i32, ()>::new();
    let ids: Vec<NodeId> = (0..6).map(|i| g.add_node(i)).collect();
    g.add_edge(ids[0], ids[1], ());
    g.add_edge(ids[1], ids[2], ());
    g.add_edge(ids[0], ids[3], ());
    g.add_edge(ids[4], ids[5], ());
    let mut a = bfs(&g, ids[0]);
    let mut b = dfs(&g, ids[0]);
    assert_eq!(a[0], ids[0]);
    assert_eq!(b[0], ids[0]);
    a.sort();
    b.sort();
    assert_eq!(a, b);
    assert_eq!(a, vec![ids[0], ids[1], ids[2], ids[3]]);
}

#[test]
fn iddfs_respects_the_depth_limit() {
    let mut g = Graph::<i32, ()>::new();
    let ids: Vec<NodeId> = (0..4).map(|i| g.add_node(i)).collect();
    g.add_edge(ids[0], ids[1], ());
    g.add_edge(ids[1], ids[2], ());
    g.add_edge(ids[2], ids[3], ());
    assert!(iddfs(&g, ids[0], ids[3], 2).is_none());
    let path = iddfs(&g, ids[0], ids[3], 3).unwrap();
    assert_eq!(path, ids);
    assert_eq!(iddfs(&g, ids[2], ids[2], 0).unwrap(), vec![ids[2]]);
}

#[test]
fn searches_agree_when_deep_enough() {
    let mut g = Digraph::<i32, ()>::new();
    let ids: Vec<NodeId> = (0..5).map(|i| g.add_node(i)).collect();
    g.add_edge(ids[0], ids[1], ());
    g.add_edge(ids[1], ids[2], ());
    g.add_edge(ids[3], ids[2], ());
    g.add_edge(ids[2], ids[4], ());
    for s in &ids {
        for t in &ids {
            let deep = iddfs(&g, *s, *t, 4).is_some();
            let both = bidis(&g, *s, *t).is_some();
            assert_eq!(deep, both);
        }
    }
}

#[test]
fn bidis_returns_a_shortest_simple_path() {
    let mut g = Digraph::<i32, ()>::new();
    let ids: Vec<NodeId> = (0..6).map(|i| g.add_node(i)).collect();
    // A long way round 0 -> 1 -> 2 -> 3 -> 4 -> 5 and a short cut 0 -> 5 via 3.
    for w in ids.windows(2) {
        g.add_edge(w[0], w[1], ());
    }
    g.add_edge(ids[0], ids[3], ());
    let path = bidis(&g, ids[0], ids[5]).unwrap();
    assert_eq!(path, vec![ids[0], ids[3], ids[4], ids[5]]);
    g.add_edge(ids[3], ids[5], ());
    let path = bidis(&g, ids[0], ids[5]).unwrap();
    assert_eq!(path, vec![ids[0], ids[3], ids[5]]);
}
