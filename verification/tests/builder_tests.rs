use hamgraph::builder::build_dataset;
use hamgraph::generator::GenerateError;
use hamgraph::graph::ConfigError;

#[test]
fn builds_both_classes_to_quota() {
    let d = build_dataset(5, 6, 10, 100_000).unwrap();
    assert_eq!(d.node_count, 5);
    assert_eq!(d.target_edge_count, 6);
    assert_eq!(d.graphs_per_class, 10);
    assert_eq!(d.hamiltonian.len(), 10);
    assert_eq!(d.non_hamiltonian.len(), 10);
    for g in &d.hamiltonian {
        assert_eq!(g.edge_count(), 6);
        for i in 0..5 {
            assert!(g.degree(i) >= 2);
        }
        assert!(g.is_hamiltonian());
    }
    for g in &d.non_hamiltonian {
        assert_eq!(g.edge_count(), 6);
        for i in 0..5 {
            assert!(g.degree(i) >= 2);
        }
        assert!(!g.is_hamiltonian());
    }
}

#[test]
fn zero_quota_builds_an_empty_dataset() {
    let d = build_dataset(5, 6, 0, 10).unwrap();
    assert!(d.hamiltonian.is_empty());
    assert!(d.non_hamiltonian.is_empty());
    // Even without any candidate budget: nothing needs generating.
    let e = build_dataset(5, 6, 0, 0).unwrap();
    assert!(e.hamiltonian.is_empty());
    assert!(e.non_hamiltonian.is_empty());
}

#[test]
fn builder_rejects_invalid_config() {
    assert_eq!(
        build_dataset(2, 2, 5, 100).unwrap_err(),
        GenerateError::Config(ConfigError::TooFewNodes)
    );
    assert_eq!(
        build_dataset(4, 7, 5, 100).unwrap_err(),
        GenerateError::Config(ConfigError::TooManyEdges)
    );
}

#[test]
fn builder_reports_an_exhausted_budget() {
    assert_eq!(
        build_dataset(5, 6, 3, 0).unwrap_err(),
        GenerateError::AttemptsExhausted
    );
}
