//! The dataset builder: drives the generator and the oracle in a loop,
//! buckets each candidate graph into the Hamiltonian or the
//! non-Hamiltonian class, and stops when both classes have reached the
//! per-class quota.

use vstd::prelude::*;

use crate::generator::{generate, meets_constraints, GenerateError};
use crate::graph::{config_error_for, valid_config, Graph};
use crate::oracle::has_ham_cycle;

verus! {

/// Every graph of the class has the dataset's dimensions, meets the
/// generator's hard constraints, and is Hamiltonian exactly when the
/// class is the Hamiltonian one.
pub open spec fn class_ok(gs: Seq<Graph>, node_count: int, target_edge_count: int, ham: bool) -> bool {
    forall|k: int|
        0 <= k < gs.len() ==> {
            &&& (#[trigger] gs[k]).node_count == node_count
            &&& gs[k].target_edge_count == target_edge_count
            &&& meets_constraints(gs[k])
            &&& has_ham_cycle(gs[k]) == ham
        }
}

/// A labeled dataset: the parameters it was built with, and the two
/// classes, each holding `graphs_per_class` graphs in discovery order.
#[derive(Debug)]
pub struct Dataset {
    pub node_count: usize,
    pub target_edge_count: usize,
    pub graphs_per_class: usize,
    pub hamiltonian: Vec<Graph>,
    pub non_hamiltonian: Vec<Graph>,
}

impl Dataset {
    /// Both classes are full and correctly labeled.
    pub open spec fn complete(self) -> bool {
        &&& self.hamiltonian@.len() == self.graphs_per_class
        &&& self.non_hamiltonian@.len() == self.graphs_per_class
        &&& class_ok(
            self.hamiltonian@,
            self.node_count as int,
            self.target_edge_count as int,
            true,
        )
        &&& class_ok(
            self.non_hamiltonian@,
            self.node_count as int,
            self.target_edge_count as int,
            false,
        )
    }
}

/// Builds a labeled dataset: generates up to `max_candidates`
/// candidate graphs, labels each with the oracle, and keeps it only if
/// its class is not yet full. Returns the dataset once both classes
/// hold exactly `graphs_per_class` graphs; a candidate whose class is
/// already full is discarded without counting toward either class.
/// The configuration is checked before any generation begins; with a
/// quota of zero the dataset is complete at once and the call always
/// succeeds.
pub fn build_dataset(
    node_count: usize,
    target_edge_count: usize,
    graphs_per_class: usize,
    max_candidates: usize,
) -> (r: Result<Dataset, GenerateError>)
    requires
        (node_count as int) * (node_count as int) <= usize::MAX as int,
    ensures
        match r {
            Ok(d) => {
                &&& valid_config(node_count as int, target_edge_count as int)
                &&& d.node_count == node_count
                &&& d.target_edge_count == target_edge_count
                &&& d.graphs_per_class == graphs_per_class
                &&& d.complete()
            },
            Err(GenerateError::Config(e)) => {
                &&& !valid_config(node_count as int, target_edge_count as int)
                &&& e == config_error_for(node_count as int, target_edge_count as int)
            },
            Err(GenerateError::AttemptsExhausted) => valid_config(
                node_count as int,
                target_edge_count as int,
            ),
        },
        valid_config(node_count as int, target_edge_count as int) && graphs_per_class == 0 ==> r
            is Ok,
{
    if let Err(e) = Graph::validate_config(node_count, target_edge_count) {
        return Err(GenerateError::Config(e));
    }
    let mut hamiltonian: Vec<Graph> = Vec::new();
    let mut non_hamiltonian: Vec<Graph> = Vec::new();
    for candidate in 0..max_candidates
        invariant
            (node_count as int) * (node_count as int) <= usize::MAX as int,
            valid_config(node_count as int, target_edge_count as int),
            hamiltonian@.len() <= graphs_per_class,
            non_hamiltonian@.len() <= graphs_per_class,
            class_ok(hamiltonian@, node_count as int, target_edge_count as int, true),
            class_ok(non_hamiltonian@, node_count as int, target_edge_count as int, false),
    {
        if hamiltonian.len() == graphs_per_class && non_hamiltonian.len() == graphs_per_class {
            return Ok(
                Dataset {
                    node_count,
                    target_edge_count,
                    graphs_per_class,
                    hamiltonian,
                    non_hamiltonian,
                },
            );
        }
        match generate(node_count, target_edge_count, max_candidates) {
            Err(e) => {
                return Err(e);
            },
            Ok(g) => {
                if g.is_hamiltonian() {
                    if hamiltonian.len() < graphs_per_class {
                        hamiltonian.push(g);
                    }
                } else {
                    if non_hamiltonian.len() < graphs_per_class {
                        non_hamiltonian.push(g);
                    }
                }
            },
        }
    }
    if hamiltonian.len() == graphs_per_class && non_hamiltonian.len() == graphs_per_class {
        Ok(Dataset { node_count, target_edge_count, graphs_per_class, hamiltonian, non_hamiltonian })
    } else {
        Err(GenerateError::AttemptsExhausted)
    }
}

} // verus!
