//! # ult_algo
//!
//! Sequence algorithms with machine-checked contracts: exact matching and edit
//! distance, searching sorted sequences, permutation generators and selection
//! of order statistics.

pub mod sequence;
