use hamgraph::generator::{generate, generate_with_kind, GenerateError, GraphKind};
use hamgraph::graph::ConfigError;

const ATTEMPTS: usize = 100_000;

#[test]
fn generated_graph_meets_hard_constraints() {
    for _ in 0..20 {
        let g = generate(5, 6, ATTEMPTS).unwrap();
        assert_eq!(g.node_count, 5);
        assert_eq!(g.target_edge_count, 6);
        assert_eq!(g.edge_count(), 6);
        for i in 0..5 {
            assert!(g.degree(i) >= 2);
        }
    }
}

#[test]
fn generated_graph_is_simple_and_symmetric() {
    let g = generate(6, 9, ATTEMPTS).unwrap();
    for i in 0..6 {
        assert!(!g.has_edge(i, i));
        for j in 0..6 {
            assert_eq!(g.has_edge(i, j), g.has_edge(j, i));
        }
    }
}

#[test]
fn dense_target_is_reached_exactly() {
    // The complete graph on 5 nodes: repair must fill every pair.
    let g = generate(5, 10, ATTEMPTS).unwrap();
    assert_eq!(g.edge_count(), 10);
    for i in 0..5 {
        assert_eq!(g.degree(i), 4);
    }
}

#[test]
fn invalid_configs_are_rejected_before_generation() {
    assert_eq!(
        generate(2, 5, ATTEMPTS).unwrap_err(),
        GenerateError::Config(ConfigError::TooFewNodes)
    );
    assert_eq!(
        generate(5, 4, ATTEMPTS).unwrap_err(),
        GenerateError::Config(ConfigError::TooFewEdges)
    );
    assert_eq!(
        generate(5, 11, ATTEMPTS).unwrap_err(),
        GenerateError::Config(ConfigError::TooManyEdges)
    );
}

#[test]
fn zero_attempts_exhaust_the_budget() {
    assert_eq!(
        generate(5, 6, 0).unwrap_err(),
        GenerateError::AttemptsExhausted
    );
}

#[test]
fn one_attempt_suffices_when_seeding_cannot_overshoot() {
    // Seeding adds at most two edges per node, so a target of at
    // least twice the node count is reached on the first attempt.
    let g = generate(6, 12, 1).unwrap();
    assert_eq!(g.edge_count(), 12);
    for i in 0..6 {
        assert!(g.degree(i) >= 2);
    }
    // At the complete-graph bound no overshoot is possible either.
    let k = generate(5, 10, 1).unwrap();
    assert_eq!(k.edge_count(), 10);
}

#[test]
fn complete_bound_gives_hamiltonian_in_one_attempt() {
    let g = generate_with_kind(4, 6, GraphKind::Hamiltonian, 1).unwrap();
    assert!(g.is_hamiltonian());
    assert_eq!(g.edge_count(), 6);
}

#[test]
fn kinds_are_honored() {
    let h = generate_with_kind(5, 6, GraphKind::Hamiltonian, ATTEMPTS).unwrap();
    assert!(h.is_hamiltonian());
    assert_eq!(h.edge_count(), 6);

    let n = generate_with_kind(5, 6, GraphKind::NonHamiltonian, ATTEMPTS).unwrap();
    assert!(!n.is_hamiltonian());
    assert_eq!(n.edge_count(), 6);
    for i in 0..5 {
        assert!(n.degree(i) >= 2);
    }
}

#[test]
fn kind_generation_rejects_invalid_config() {
    assert_eq!(
        generate_with_kind(1, 1, GraphKind::Hamiltonian, ATTEMPTS).unwrap_err(),
        GenerateError::Config(ConfigError::TooFewNodes)
    );
}
