//! # Sequence
//!
//! Algorithms over finite, indexable sequences.

pub mod match_;
pub mod order;
pub mod permutation;
pub mod search;
pub mod selection;
