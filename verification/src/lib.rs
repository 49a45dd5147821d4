//! Synthesis of labeled datasets of small undirected graphs for
//! Hamiltonicity classification: a random graph generator with hard
//! structural constraints (exact edge count, minimum degree two), an
//! exact backtracking Hamiltonicity oracle, and a dataset builder that
//! buckets generated graphs into Hamiltonian and non-Hamiltonian
//! classes until a per-class quota is reached.

pub mod graph;
pub mod oracle;
pub mod rng;
pub mod generator;
pub mod builder;
