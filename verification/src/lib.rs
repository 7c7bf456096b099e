//! A generalized Lights Out puzzle solving library.
//!
//! An `R x C` grid of cells, each holding one of `S` discrete states, obeys
//! the rule that clicking a cell advances it and its edge-adjacent neighbors
//! by one state modulo `S`.  The library models the grid, generates solvable
//! scrambles, and searches for a sequence of clicks that drives every cell to
//! a target objective state, either by an internal row/column-reduction
//! search or by preparing input for (and reading answers from) an external
//! declarative constraint solver.

pub mod clingo;
pub mod data;
pub mod internal;
pub mod model;
pub mod settings;
pub mod solver_trait;
