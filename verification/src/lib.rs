//! Swendsen-Wang cluster updates for the two-dimensional Ising model on a
//! periodic square lattice, with machine-checked contracts.
//!
//! The crate works in exact integer arithmetic: energies are reported in
//! units of the coupling constant and bond probabilities are integer ratios.

pub mod cluster_graph;
pub mod cluster_labels;
pub mod cluster_laws;
pub mod equivalence_class;
pub mod ising_array_2d;
pub mod parameter_reader;
pub mod random_source;
pub mod swendsen_wang_algorithm;

pub use cluster_graph::SiteBonds;
pub use cluster_labels::ClusterLabels;
pub use equivalence_class::EquivalenceClass;
pub use ising_array_2d::IsingArray2D;
pub use random_source::BondProbability;
pub use swendsen_wang_algorithm::SwendsenWangAlgorithm;
