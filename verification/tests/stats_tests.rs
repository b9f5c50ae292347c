use social_graph::graph::Graph;
use social_graph::search::bfs;
use social_graph::stats::{
    calculate_average_distance_stats, calculate_six_degrees_stats, positive_distance_stats,
    sampled_distance_stats,
};

fn path_graph() -> Graph {
    let mut graph = Graph::new();
    graph.add_edge(1, 2);
    graph.add_edge(2, 3);
    graph.add_edge(3, 4);
    graph.add_edge(4, 5);
    graph
}

#[test]
fn test_average_distance() {
    let graph = path_graph();

    let expected_avg_distance = 2.0;

    // sampling all four source nodes makes the mean deterministic:
    // the positive pairwise distances sum to 20 over 10 reachable pairs
    let sample_size = 4;
    let (total, pairs) = calculate_average_distance_stats(&graph, sample_size).unwrap();
    assert_eq!(total, 20);
    assert_eq!(pairs, 10);
    let avg_distance = total as f64 / pairs as f64;

    assert!((avg_distance - expected_avg_distance).abs() < f64::EPSILON);
}

#[test]
fn test_average_distance_empty_graph() {
    let graph = Graph::new();
    assert_eq!(calculate_average_distance_stats(&graph, 100), None);
}

#[test]
fn test_average_distance_no_reachable_pairs() {
    // a single self-loop yields only the self-distance of zero
    let mut graph = Graph::new();
    graph.add_edge(1, 1);
    let (total, pairs) = calculate_average_distance_stats(&graph, 10).unwrap();
    assert_eq!(total, 0);
    assert_eq!(pairs, 0);
}

#[test]
fn test_average_distance_oversized_sample() {
    // the sample size is clamped to the number of source nodes
    let graph = path_graph();
    let (total, pairs) = calculate_average_distance_stats(&graph, 1000).unwrap();
    assert_eq!(total, 20);
    assert_eq!(pairs, 10);
}

#[test]
fn test_six_degrees_test_mode() {
    // every sampled pair is a self-pair at distance zero
    let graph = path_graph();
    let (total, pairs) = calculate_six_degrees_stats(&graph, 7, true);
    assert_eq!(total, 0);
    assert_eq!(pairs, 7);
    let mean = if pairs == 0 { 0.0 } else { total as f64 / pairs as f64 };
    assert_eq!(mean, 0.0);
}

#[test]
fn test_six_degrees_empty_graph() {
    let graph = Graph::new();
    assert_eq!(calculate_six_degrees_stats(&graph, 5, true), (0, 0));
    assert_eq!(calculate_six_degrees_stats(&graph, 5, false), (0, 0));
}

#[test]
fn test_six_degrees_single_node() {
    // with one source node both draws must return it, so every pair is
    // counted at distance zero
    let mut graph = Graph::new();
    graph.add_edge(1, 1);
    let (total, pairs) = calculate_six_degrees_stats(&graph, 9, false);
    assert_eq!(total, 0);
    assert_eq!(pairs, 9);
}

#[test]
fn test_positive_distance_stats() {
    let graph = path_graph();
    let distances = bfs(&graph, 1);
    // distances 1, 2, 3, 4 to the four downstream nodes; the self-distance
    // of zero is excluded
    assert_eq!(positive_distance_stats(&distances), (10, 4));
}

#[test]
fn test_sampled_distance_stats() {
    let graph = path_graph();
    let sources = vec![1, 2];
    // 1+2+3+4 from node 1 and 1+2+3 from node 2
    assert_eq!(sampled_distance_stats(&graph, &sources), (16, 7));
}

#[test]
fn test_six_degrees_zero_pairs() {
    let graph = path_graph();
    assert_eq!(calculate_six_degrees_stats(&graph, 0, false), (0, 0));
}
