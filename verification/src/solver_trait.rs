//! The one capability every solving strategy offers.

use vstd::prelude::*;

verus! {

use crate::data::{SolverState, SolvingError};
use crate::model::counts_solve;

/// A solving strategy.  `solve` searches for a per-cell click plan that
/// drives every puzzle cell to the objective state.
///
/// The puzzle grid is left as it was found; the solution grid is rewritten
/// by the attempt and its `error` flag reports failure.  Whatever the
/// strategy, a reported solution is sound: when `error` is cleared, the
/// recorded click counts really solve the puzzle.  Callers must treat
/// `error` as a gate before reading any solution cell.
pub trait Solver {
    fn solve(&self, data: &mut SolverState) -> (r: Result<(), SolvingError>)
        requires
            old(data).wf(),
        ensures
            final(data).wf(),
            final(data).params.rows == old(data).params.rows,
            final(data).params.columns == old(data).params.columns,
            final(data).params.states == old(data).params.states,
            final(data).params.objective == old(data).params.objective,
            final(data).params.play == old(data).params.play,
            final(data).params.puzzle.like(old(data).params.puzzle),
            !final(data).params.solution.error ==> counts_solve(
                final(data).params.puzzle.cells(),
                final(data).params.solution.cells(),
                final(data).params.rows as int,
                final(data).params.columns as int,
                final(data).params.states as int,
                final(data).params.objective as int,
            ),
    ;
}

} // verus!
