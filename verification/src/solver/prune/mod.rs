//! Pruning techniques, each a struct with `precompute` (build static data
//! from pieces and board, once) and `try_prune` (check feasibility per node;
//! false means prune).

pub mod cell_interval;
pub mod coverage;
pub mod jaggedness;
pub mod line_family;
pub mod mc;
pub mod parity;
pub mod projected_jaggedness;
pub mod region_budget;
pub mod subset;
pub mod total_deficit;
pub mod weight_tuple;
