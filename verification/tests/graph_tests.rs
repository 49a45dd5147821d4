use hamgraph::graph::{ConfigError, Graph};

fn complete_graph(n: usize, target: usize) -> Graph {
    let mut g = Graph::new(n, target).unwrap();
    for i in 0..n {
        for j in (i + 1)..n {
            g.set_edge(i, j, true);
        }
    }
    g
}

#[test]
fn new_graph_is_empty() {
    let g = Graph::new(5, 6).unwrap();
    assert_eq!(g.node_count, 5);
    assert_eq!(g.target_edge_count, 6);
    assert_eq!(g.edge_count(), 0);
    for i in 0..5 {
        assert_eq!(g.degree(i), 0);
        for j in 0..5 {
            assert!(!g.has_edge(i, j));
        }
    }
}

#[test]
fn too_few_nodes_rejected() {
    assert_eq!(Graph::new(0, 0).unwrap_err(), ConfigError::TooFewNodes);
    assert_eq!(Graph::new(2, 1).unwrap_err(), ConfigError::TooFewNodes);
}

#[test]
fn too_few_edges_rejected() {
    assert_eq!(Graph::new(4, 3).unwrap_err(), ConfigError::TooFewEdges);
    assert_eq!(Graph::new(10, 9).unwrap_err(), ConfigError::TooFewEdges);
}

#[test]
fn too_many_edges_rejected() {
    // The complete graph on 4 nodes has 6 edges.
    assert_eq!(Graph::new(4, 7).unwrap_err(), ConfigError::TooManyEdges);
    // On 5 nodes, 10 edges.
    assert_eq!(Graph::new(5, 11).unwrap_err(), ConfigError::TooManyEdges);
}

#[test]
fn bounds_are_inclusive() {
    // The smallest valid configuration and the complete-graph bound.
    assert!(Graph::new(3, 3).is_ok());
    assert!(Graph::new(4, 4).is_ok());
    assert!(Graph::new(4, 6).is_ok());
    assert!(Graph::new(5, 10).is_ok());
}

#[test]
fn set_edge_writes_both_halves() {
    let mut g = Graph::new(4, 4).unwrap();
    g.set_edge(1, 3, true);
    assert!(g.has_edge(1, 3));
    assert!(g.has_edge(3, 1));
    g.set_edge(3, 1, false);
    assert!(!g.has_edge(1, 3));
    assert!(!g.has_edge(3, 1));
}

#[test]
fn symmetry_and_no_self_loops_hold() {
    let mut g = Graph::new(4, 5).unwrap();
    g.set_edge(0, 1, true);
    g.set_edge(1, 2, true);
    g.set_edge(2, 3, true);
    g.set_edge(3, 0, true);
    g.set_edge(0, 2, true);
    for i in 0..4 {
        assert!(!g.has_edge(i, i));
        for j in 0..4 {
            assert_eq!(g.has_edge(i, j), g.has_edge(j, i));
        }
    }
}

#[test]
fn degree_and_edge_count_are_exact() {
    let mut g = Graph::new(4, 5).unwrap();
    g.set_edge(0, 1, true);
    g.set_edge(0, 2, true);
    g.set_edge(0, 3, true);
    g.set_edge(1, 2, true);
    assert_eq!(g.degree(0), 3);
    assert_eq!(g.degree(1), 2);
    assert_eq!(g.degree(2), 2);
    assert_eq!(g.degree(3), 1);
    assert_eq!(g.edge_count(), 4);
    // Removing an edge is reflected exactly once.
    g.set_edge(2, 0, false);
    assert_eq!(g.degree(0), 2);
    assert_eq!(g.degree(2), 1);
    assert_eq!(g.edge_count(), 3);
}

#[test]
fn complete_graph_has_maximal_count() {
    let g = complete_graph(5, 10);
    assert_eq!(g.edge_count(), 10);
    for i in 0..5 {
        assert_eq!(g.degree(i), 4);
    }
}
