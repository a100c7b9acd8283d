//! A small, fully verified machine-learning pipeline: load a labeled table,
//! split it into training and evaluation subsets, induce a CART-style decision
//! tree with the Gini-impurity criterion, predict, and score the predictions
//! with a confusion matrix.
//!
//! Feature values are fixed-point numbers: a decimal field is parsed into an
//! `i64` holding the value times `parse::SCALE`. All impurity comparisons are
//! carried out in exact integer arithmetic, so training is deterministic.

use vstd::prelude::*;

pub mod dataset;
pub mod evaluator;
pub mod laws;
pub mod loader;
pub mod parse;
pub mod pipeline;
pub mod trainer;
pub mod tree;

verus! {

/// Upper bound on the number of rows a dataset may hold. It keeps every
/// intermediate product of the integer Gini arithmetic inside `u128`.
pub const MAX_ROWS: usize = 16777216;

} // verus!
