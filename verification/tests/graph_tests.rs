use social_graph::graph::Graph;

fn path_graph() -> Graph {
    let mut graph = Graph::new();
    graph.add_edge(1, 2);
    graph.add_edge(2, 3);
    graph.add_edge(3, 4);
    graph.add_edge(4, 5);
    graph
}

#[test]
fn test_empty_graph_counts() {
    let graph = Graph::new();
    assert_eq!(graph.number_of_nodes(), 0);
    assert_eq!(graph.number_of_edges(), 0);
}

#[test]
fn test_node_and_edge_counts() {
    let graph = path_graph();
    assert_eq!(graph.number_of_nodes(), 5);
    assert_eq!(graph.number_of_edges(), 4);
}

#[test]
fn test_add_edge_implicit_nodes() {
    let mut graph = Graph::new();
    graph.add_edge(7, 9);
    assert_eq!(graph.number_of_nodes(), 2);
    assert_eq!(graph.number_of_edges(), 1);
    assert_eq!(graph.in_degree(9), 1);
    assert_eq!(graph.in_degree(7), 0);
}

#[test]
fn test_duplicate_edge_counts() {
    let mut graph = Graph::new();
    graph.add_edge(1, 2);
    assert_eq!(graph.number_of_edges(), 1);
    assert_eq!(graph.in_degree(2), 1);
    graph.add_edge(1, 2);
    // the adjacency set deduplicates, the raw in-degree counter does not
    assert_eq!(graph.number_of_edges(), 1);
    assert_eq!(graph.in_degree(2), 2);
    assert_eq!(graph.number_of_nodes(), 2);
}

#[test]
fn test_ensure_node_adds_key_only() {
    let mut graph = path_graph();
    graph.ensure_node(5);
    graph.ensure_node(100);
    assert_eq!(graph.number_of_edges(), 4);
    assert_eq!(graph.number_of_nodes(), 6);
    assert_eq!(graph.in_degree(100), 0);
}
