use graphina::shortest::{bellman_ford, dijkstra, johnson};
use graphina::types::{Digraph, Graph, NodeId};

fn sample() -> (Digraph<i32, i64>, Vec<NodeId>) {
    let mut graph = Digraph::<i32, i64>::new();
    let nodes: Vec<NodeId> = (0..4).map(|i| graph.add_node(i)).collect();
    graph.add_edge(nodes[0], nodes[1], 1);
    graph.add_edge(nodes[0], nodes[2], 4);
    graph.add_edge(nodes[1], nodes[2], 2);
    graph.add_edge(nodes[1], nodes[3], 6);
    graph.add_edge(nodes[2], nodes[3], 3);
    (graph, nodes)
}

#[test]
fn dijkstra_finds_the_lightest_walks() {
    let (graph, nodes) = sample();
    let dist = dijkstra(&graph, nodes[0]).unwrap();
    assert_eq!(dist, vec![Some(0), Some(1), Some(3), Some(6)]);
}

#[test]
fn dijkstra_leaves_unreachable_nodes_without_distance() {
    let (graph, nodes) = sample();
    let dist = dijkstra(&graph, nodes[2]).unwrap();
    assert_eq!(dist, vec![None, None, Some(0), Some(3)]);
}

#[test]
fn dijkstra_takes_undirected_edges_both_ways() {
    let mut graph = Graph::<i32, i64>::new();
    let a = graph.add_node(0);
    let b = graph.add_node(1);
    graph.add_edge(b, a, 5);
    assert_eq!(dijkstra(&graph, a).unwrap(), vec![Some(0), Some(5)]);
    assert_eq!(dijkstra(&graph, b).unwrap(), vec![Some(5), Some(0)]);
    let mut g = Graph::<i32, i64>::new();
    let x = g.add_node(0);
    let y = g.add_node(1);
    g.add_edge(x, y, 1);
    assert_eq!(dijkstra(&g, y).unwrap(), vec![Some(1), Some(0)]);
}

#[test]
fn undirected_negative_edge_is_a_negative_cycle() {
    let mut graph = Graph::<i32, i64>::new();
    let a = graph.add_node(0);
    let b = graph.add_node(1);
    let c = graph.add_node(2);
    graph.add_edge(a, b, 2);
    graph.add_edge(b, c, -1);
    assert_eq!(dijkstra(&graph, a), Err(-1));
    assert_eq!(bellman_ford(&graph, a), None);
    assert_eq!(johnson(&graph), None);
}

#[test]
fn undirected_shortest_paths_agree() {
    let mut graph = Graph::<i32, i64>::new();
    let n: Vec<NodeId> = (0..4).map(|i| graph.add_node(i)).collect();
    graph.add_edge(n[1], n[0], 3);
    graph.add_edge(n[1], n[2], 1);
    graph.add_edge(n[3], n[2], 1);
    graph.add_edge(n[0], n[3], 7);
    let all = johnson(&graph).unwrap();
    assert_eq!(all[0], vec![Some(0), Some(3), Some(4), Some(5)]);
    for (i, s) in n.iter().enumerate() {
        assert_eq!(all[i], dijkstra(&graph, *s).unwrap());
        assert_eq!(Some(all[i].clone()), bellman_ford(&graph, *s));
    }
}

#[test]
fn johnson_accepts_removed_nodes() {
    let mut graph = Digraph::<i32, i64>::new();
    let a = graph.add_node(0);
    let b = graph.add_node(1);
    let c = graph.add_node(2);
    graph.add_edge(a, b, 2);
    graph.add_edge(b, c, 2);
    graph.remove_node(c);
    let all = johnson(&graph).unwrap();
    assert_eq!(all[0], vec![Some(0), Some(2), None]);
    assert_eq!(all[2], vec![None, None, None]);
}

#[test]
fn dijkstra_rejects_a_reachable_negative_edge() {
    let (mut graph, nodes) = sample();
    graph.add_edge(nodes[3], nodes[0], -2);
    assert_eq!(dijkstra(&graph, nodes[0]), Err(-2));
    let mut other = Digraph::<i32, i64>::new();
    let x = other.add_node(0);
    let y = other.add_node(1);
    let z = other.add_node(2);
    other.add_edge(y, z, -7);
    other.add_edge(x, y, 1);
    assert_eq!(dijkstra(&other, x), Err(-7));
    assert_eq!(dijkstra(&other, z).unwrap(), vec![None, None, Some(0)]);
}

#[test]
fn dijkstra_from_a_missing_node_finds_nothing() {
    let (graph, _) = sample();
    assert_eq!(dijkstra(&graph, NodeId(9)).unwrap(), vec![None, None, None, None]);
}

#[test]
fn bellman_ford_matches_dijkstra_without_negative_edges() {
    let (graph, nodes) = sample();
    assert_eq!(bellman_ford(&graph, nodes[0]), Some(vec![Some(0), Some(1), Some(3), Some(6)]));
    assert_eq!(bellman_ford(&graph, nodes[2]), Some(vec![None, None, Some(0), Some(3)]));
}

#[test]
fn bellman_ford_handles_negative_edges() {
    let mut graph = Digraph::<i32, i64>::new();
    let a = graph.add_node(0);
    let b = graph.add_node(1);
    let c = graph.add_node(2);
    graph.add_edge(a, b, 4);
    graph.add_edge(a, c, 5);
    graph.add_edge(c, b, -3);
    assert_eq!(bellman_ford(&graph, a), Some(vec![Some(0), Some(2), Some(5)]));
}

#[test]
fn bellman_ford_reports_a_negative_cycle_in_reach() {
    let mut graph = Digraph::<i32, i64>::new();
    let a = graph.add_node(0);
    let b = graph.add_node(1);
    let c = graph.add_node(2);
    let d = graph.add_node(3);
    graph.add_edge(a, b, 1);
    graph.add_edge(b, c, -2);
    graph.add_edge(c, b, 1);
    assert_eq!(bellman_ford(&graph, a), None);
    // The cycle is out of reach from `d`.
    assert_eq!(bellman_ford(&graph, d), Some(vec![None, None, None, Some(0)]));
    assert_eq!(bellman_ford(&graph, NodeId(7)), Some(vec![None, None, None, None]));
}

#[test]
fn johnson_gives_all_pairs_distances() {
    let mut graph = Digraph::<i32, i64>::new();
    let a = graph.add_node(0);
    let b = graph.add_node(1);
    let c = graph.add_node(2);
    graph.add_edge(a, b, 4);
    graph.add_edge(a, c, 5);
    graph.add_edge(c, b, -3);
    let all = johnson(&graph).unwrap();
    assert_eq!(all[0], vec![Some(0), Some(2), Some(5)]);
    assert_eq!(all[1], vec![None, Some(0), None]);
    assert_eq!(all[2], vec![None, Some(-3), Some(0)]);
}

#[test]
fn johnson_matches_dijkstra_on_the_sample() {
    let (graph, nodes) = sample();
    let all = johnson(&graph).unwrap();
    for (i, n) in nodes.iter().enumerate() {
        assert_eq!(all[i], dijkstra(&graph, *n).unwrap());
    }
}

#[test]
fn johnson_reports_any_negative_cycle() {
    let mut graph = Digraph::<i32, i64>::new();
    let a = graph.add_node(0);
    let b = graph.add_node(1);
    let c = graph.add_node(2);
    graph.add_edge(b, c, -2);
    graph.add_edge(c, b, 1);
    graph.add_edge(a, a, 0);
    assert_eq!(johnson(&graph), None);
}

#[test]
fn large_weights_stay_exact() {
    let mut graph = Digraph::<i32, i64>::new();
    let a = graph.add_node(0);
    let b = graph.add_node(1);
    let c = graph.add_node(2);
    let big: i64 = 1_000_000_000_000_000;
    graph.add_edge(a, b, big);
    graph.add_edge(b, c, -big / 2);
    graph.add_edge(a, c, big);
    let bf = bellman_ford(&graph, a).unwrap();
    assert_eq!(bf, vec![Some(0), Some(big), Some(big / 2)]);
    let all = johnson(&graph).unwrap();
    assert_eq!(all[0], vec![Some(0), Some(big), Some(big / 2)]);
    assert_eq!(all[1], vec![None, Some(0), Some(-big / 2)]);
    assert_eq!(dijkstra(&graph, b), Err(-big / 2));
}
