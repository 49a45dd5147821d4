use hamgraph::graph::Graph;

fn complete_graph(n: usize, target: usize) -> Graph {
    let mut g = Graph::new(n, target).unwrap();
    for i in 0..n {
        for j in (i + 1)..n {
            g.set_edge(i, j, true);
        }
    }
    g
}

/// One center connected to every other node, no other edges.
fn star_graph(n: usize, target: usize) -> Graph {
    let mut g = Graph::new(n, target).unwrap();
    for j in 1..n {
        g.set_edge(0, j, true);
    }
    g
}

fn assert_is_cycle_of(g: &Graph, cycle: &[usize]) {
    let n = g.node_count;
    assert_eq!(cycle.len(), n + 1);
    assert_eq!(cycle[0], 0);
    assert_eq!(cycle[n], 0);
    // Every node appears exactly once before the closing entry.
    let mut seen = vec![false; n];
    for &node in &cycle[..n] {
        assert!(node < n);
        assert!(!seen[node]);
        seen[node] = true;
    }
    assert!(seen.iter().all(|&s| s));
    // Every consecutive pair, the closing pair included, is an edge.
    for k in 0..n {
        assert!(g.has_edge(cycle[k], cycle[k + 1]));
    }
}

#[test]
fn complete_four_graph_is_hamiltonian() {
    let g = complete_graph(4, 6);
    assert!(g.is_hamiltonian());
    let cycle = g.get_cycle();
    assert_is_cycle_of(&g, &cycle);
}

#[test]
fn star_four_graph_is_not_hamiltonian() {
    let g = star_graph(4, 4);
    assert!(!g.is_hamiltonian());
    assert!(g.get_cycle().is_empty());
}

#[test]
fn plain_cycle_graph_is_hamiltonian() {
    let mut g = Graph::new(5, 5).unwrap();
    for i in 0..5 {
        g.set_edge(i, (i + 1) % 5, true);
    }
    assert!(g.is_hamiltonian());
    let cycle = g.get_cycle();
    assert_is_cycle_of(&g, &cycle);
}

#[test]
fn two_triangles_sharing_a_node_are_not_hamiltonian() {
    // Node 0 is a cut vertex of two triangles: minimum degree two,
    // six edges, but no Hamiltonian cycle.
    let mut g = Graph::new(5, 6).unwrap();
    g.set_edge(0, 1, true);
    g.set_edge(1, 2, true);
    g.set_edge(2, 0, true);
    g.set_edge(0, 3, true);
    g.set_edge(3, 4, true);
    g.set_edge(4, 0, true);
    assert_eq!(g.edge_count(), 6);
    assert!(!g.is_hamiltonian());
    assert!(g.get_cycle().is_empty());
}

#[test]
fn neighbor_order_gives_lowest_cycle_first() {
    // On the complete graph the search takes the numerically first
    // successor at every step.
    let g = complete_graph(4, 6);
    assert_eq!(g.get_cycle(), vec![0, 1, 2, 3, 0]);
}

#[test]
fn oracle_is_deterministic_on_the_same_graph() {
    let g = complete_graph(5, 10);
    let first = g.get_cycle();
    let second = g.get_cycle();
    assert_eq!(first, second);
    assert_eq!(g.is_hamiltonian(), g.is_hamiltonian());

    let s = star_graph(4, 4);
    assert_eq!(s.get_cycle(), s.get_cycle());
    assert_eq!(s.is_hamiltonian(), s.is_hamiltonian());
}
