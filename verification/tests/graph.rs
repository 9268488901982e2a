use datastructs::graph::Graph;

#[test]
#[should_panic]
fn invalid_add_edge_test() {
    let mut graph = Graph::new(4);
    graph.add_edge(5, 1);
}

#[test]
fn valid_add_edge_test() {
    let mut graph = Graph::new(9);
    graph.add_edge(1, 2);
    graph.add_edge(1, 4);
    graph.add_edge(2, 1);
    graph.add_edge(2, 3);
    graph.add_edge(2, 5);
    graph.add_edge(9, 1);

    assert_eq!(graph.neighbors(1), [2, 4, 9]);
    assert_eq!(graph.neighbors(2), [1, 3, 5]);
}

#[test]
fn empty_edge_test() {
    let graph = Graph::new(4);

    assert_eq!(graph.neighbors(1), []);
    assert_eq!(graph.neighbors(4), []);
}

#[test]
fn remove_edge_test() {
    let mut graph = Graph::new(9);
    graph.add_edge(1, 2);
    graph.add_edge(1, 4);
    graph.add_edge(2, 1);
    graph.add_edge(2, 3);
    graph.add_edge(2, 5);
    graph.add_edge(9, 1);
    assert_eq!(graph.neighbors(1), [2, 4, 9]);
    assert_eq!(graph.neighbors(2), [1, 3, 5]);

    graph.remove_edge(1, 2);

    assert_eq!(graph.neighbors(1), [4, 9]);
    assert_eq!(graph.neighbors(2), [3, 5]);
}

#[test]
fn set_get_vertex_value_test() {
    let mut graph = Graph::new(9);
    graph.set_vertex_value(1, 5);
    graph.set_vertex_value(9, 3);

    assert_eq!(graph.get_vertex_value(1), 5);
    assert_eq!(graph.get_vertex_value(9), 3);
}

#[test]
fn adjacency_test() {
    let mut graph = Graph::new(9);
    graph.add_edge(1, 2);
    graph.add_edge(1, 4);
    graph.add_edge(2, 1);
    graph.add_edge(2, 3);
    graph.add_edge(2, 5);
    graph.add_edge(9, 1);

    assert!(graph.adjacent(1, 2));
    assert!(!graph.adjacent(1, 3));
}

#[test]
#[should_panic]
fn invalid_adjacency_test() {
    let mut graph = Graph::new(9);
    graph.add_edge(1, 2);
    graph.adjacent(10, 1);
}

#[test]
#[should_panic]
fn invalid_set_vertex_test() {
    let mut graph = Graph::new(9);
    graph.set_vertex_value(10, 0);
}

#[test]
fn default_vertex_values_are_zero() {
    let graph = Graph::new(3);
    assert_eq!(graph.get_vertex_value(1), 0);
    assert_eq!(graph.get_vertex_value(3), 0);
}

#[test]
fn self_loop_edges() {
    let mut graph = Graph::new(2);
    graph.add_edge(1, 1);
    assert_eq!(graph.neighbors(1), [1, 1]);
    assert!(graph.adjacent(1, 1));
    graph.remove_edge(1, 1);
    assert_eq!(graph.neighbors(1), []);
    assert!(!graph.adjacent(1, 1));
}

#[test]
fn remove_missing_edge_is_noop() {
    let mut graph = Graph::new(3);
    graph.add_edge(1, 2);
    graph.remove_edge(1, 3);
    assert_eq!(graph.neighbors(1), [2]);
    assert_eq!(graph.neighbors(2), [1]);
    assert_eq!(graph.neighbors(3), []);
}
