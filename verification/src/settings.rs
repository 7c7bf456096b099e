//! The configuration surface the embedding application fills in: which
//! solving strategy to use and the default instance parameters.

use vstd::prelude::*;

verus! {

/// The selectable solving strategy: the external declarative solver (with
/// the path to its binary), the internal sequential reducer, or the
/// internal parallel reducer (0 threads means all available).
#[derive(Clone, Debug)]
pub enum Solver {
    Clingo { clingo_path: String },
    Internal,
    InternalPar { threads: usize },
}

/// The loaded application settings.
#[derive(Clone, Debug)]
pub struct Settings {
    pub solver: Solver,
    pub rows: usize,
    pub columns: usize,
    pub states: usize,
    pub objective: usize,
}

} // verus!
