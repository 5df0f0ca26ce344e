//! Constraint-based layout compiler core.
//!
//! Rectangle coordinates in a layout cell are unknowns related by linear
//! equality constraints; a solver resolves them to concrete values by
//! back-substitution and, for coupled systems, by exact elimination.
//! The evaluator walks a cell's statements, allocating geometry variables
//! and registering constraints, and the hierarchy module addresses scopes
//! and computes bounding boxes of solved cells.
use vstd::prelude::*;

pub mod eval;
pub mod naming;
pub mod hier;
pub mod linear;
pub mod solver;
pub mod rat;
pub mod workspace;

verus! {

} // verus!
