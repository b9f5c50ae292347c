use social_graph::graph::Graph;
use social_graph::search::{are_nodes_within_degrees_of_separation, bfs};

fn path_graph() -> Graph {
    let mut graph = Graph::new();
    graph.add_edge(1, 2);
    graph.add_edge(2, 3);
    graph.add_edge(3, 4);
    graph.add_edge(4, 5);
    graph
}

#[test]
fn test_bfs_path_distances() {
    let graph = path_graph();
    let distances = bfs(&graph, 1);
    assert_eq!(distances.get(1), Some(0));
    assert_eq!(distances.get(2), Some(1));
    assert_eq!(distances.get(3), Some(2));
    assert_eq!(distances.get(4), Some(3));
    assert_eq!(distances.get(5), Some(4));
    assert_eq!(distances.get(6), None);
    assert_eq!(distances.len(), 5);
}

#[test]
fn test_bfs_respects_direction() {
    let graph = path_graph();
    let distances = bfs(&graph, 3);
    // only forward edges are followed
    assert_eq!(distances.get(3), Some(0));
    assert_eq!(distances.get(4), Some(1));
    assert_eq!(distances.get(5), Some(2));
    assert_eq!(distances.get(1), None);
    assert_eq!(distances.get(2), None);
}

#[test]
fn test_bfs_shortest_on_branching_cycle() {
    // distances checked against exhaustive path enumeration by hand
    let mut graph = Graph::new();
    graph.add_edge(1, 2);
    graph.add_edge(2, 3);
    graph.add_edge(1, 3);
    graph.add_edge(3, 1);
    graph.add_edge(3, 4);
    let distances = bfs(&graph, 1);
    assert_eq!(distances.get(1), Some(0));
    assert_eq!(distances.get(2), Some(1));
    assert_eq!(distances.get(3), Some(1));
    assert_eq!(distances.get(4), Some(2));
    assert_eq!(distances.len(), 4);
}

#[test]
fn test_bfs_missing_source() {
    let graph = Graph::new();
    let distances = bfs(&graph, 42);
    assert_eq!(distances.get(42), Some(0));
    assert_eq!(distances.get(0), None);
    assert_eq!(distances.len(), 1);
}

#[test]
fn test_bfs_idempotent() {
    let graph = path_graph();
    let first = bfs(&graph, 1);
    let second = bfs(&graph, 1);
    assert_eq!(first.len(), second.len());
    for node in 0..7 {
        assert_eq!(first.get(node), second.get(node));
    }
}

#[test]
fn test_within_degrees() {
    let graph = path_graph();
    assert!(are_nodes_within_degrees_of_separation(&graph, 1, 5, 4));
    assert!(!are_nodes_within_degrees_of_separation(&graph, 1, 5, 3));
}

#[test]
fn test_within_degrees_unreachable_and_negative() {
    let graph = path_graph();
    assert!(!are_nodes_within_degrees_of_separation(&graph, 5, 1, 100));
    assert!(!are_nodes_within_degrees_of_separation(&graph, 1, 1, -1));
    assert!(are_nodes_within_degrees_of_separation(&graph, 1, 1, 0));
}
