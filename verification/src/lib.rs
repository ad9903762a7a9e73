//! Building blocks for algorithmic problem solving: a range-aggregation tree,
//! monotonic-sequence searches, a prefix tree and number-theoretic helpers.
//! Every function carries a machine-checked contract.

pub mod binary_search;
pub mod data_structures;
pub mod number_theory;
pub mod scanner;
