//! The grid data model: cells, coordinates, the grid with its toggle rule,
//! and the problem instance (`Params`) wrapped in the top-level
//! `SolverState`.

use vstd::prelude::*;

verus! {

use crate::model::{
    cells_in_range, click_cells, clicks_transform, flat_idx, is_adjacent,
    lemma_click_extends_transform, lemma_flat_idx, lemma_flat_idx_inverse,
    lemma_scramble_solvable, on_grid, solvable,
};

/// Raised when the external solver's answer line does not match the
/// `action(row, col, clicks)` shape or addresses a cell off the grid.
#[derive(Debug)]
pub struct ParsingError;

#[verifier::external_type_specification]
#[verifier::external_body]
pub struct ExIoError(std::io::Error);

#[verifier::external_type_specification]
#[verifier::external_body]
pub struct ExFromUtf8Error(std::string::FromUtf8Error);

/// What can go wrong while delegating a solve to the external declarative
/// solver: launching or reading the subprocess, decoding its output, or
/// parsing its answer.
#[derive(Debug)]
pub enum SolvingError {
    Io(std::io::Error),
    FromUtf8(std::string::FromUtf8Error),
    Parsing(ParsingError),
}

/// A single cell of the grid, holding one state in `[0, states)`.
#[derive(Clone, Copy, PartialEq, Eq, Structural, Debug)]
pub struct Cell {
    pub state: usize,
}

impl Cell {
    pub fn new() -> (c: Cell)
        ensures
            c.state == 0,
    {
        Cell { state: 0 }
    }
}

/// A coordinate on the grid: `0 <= row < rows`, `0 <= col < columns`.
#[derive(Clone, Copy, PartialEq, Eq, Structural, Debug)]
pub struct GridCoord {
    pub row: usize,
    pub col: usize,
}

/// A rectangular grid of `rows * columns` cells in row-major order, each
/// holding one of `states` discrete states.  `error` records that the last
/// solve attempt failed; `play` switches `click` between editing a single
/// cell and playing an actual puzzle click.
#[derive(Clone, Debug)]
pub struct Grid {
    pub rows: usize,
    pub columns: usize,
    pub states: usize,
    pub storage: Vec<Cell>,
    pub error: bool,
    pub play: bool,
}

impl Grid {
    /// All cell states, as mathematical integers, row-major.
    pub open spec fn cells(self) -> Seq<int> {
        self.storage@.map_values(|cell: Cell| cell.state as int)
    }

    /// The state of the cell at row `r`, column `c`.
    pub open spec fn cell(self, r: int, c: int) -> int {
        self.cells()[flat_idx(r, c, self.columns as int)]
    }

    pub open spec fn in_bounds(self, r: int, c: int) -> bool {
        on_grid(r, c, self.rows as int, self.columns as int)
    }

    /// Well-formed: at least one state, rectangular storage, every cell state
    /// in `[0, states)`.
    pub open spec fn wf(self) -> bool {
        &&& self.states >= 1
        &&& self.storage@.len() == self.rows * self.columns
        &&& cells_in_range(self.cells(), self.states as int)
    }

    /// Same dimensions and state count.
    pub open spec fn same_shape(self, other: Grid) -> bool {
        self.rows == other.rows && self.columns == other.columns && self.states == other.states
    }

    /// Same shape, cell states and flags: observably the same grid.
    pub open spec fn like(self, other: Grid) -> bool {
        &&& self.same_shape(other)
        &&& self.cells() == other.cells()
        &&& self.error == other.error
        &&& self.play == other.play
    }

    /// A fresh grid: every cell at state 0, both flags cleared.
    pub fn new(rows: usize, columns: usize, states: usize) -> (g: Grid)
        requires
            states >= 1,
            rows * columns <= usize::MAX,
        ensures
            g.rows == rows,
            g.columns == columns,
            g.states == states,
            !g.error,
            !g.play,
            g.wf(),
            forall|k: int| 0 <= k < g.cells().len() ==> g.cells()[k] == 0,
    {
        let mut storage: Vec<Cell> = Vec::new();
        let total = rows * columns;
        let mut k: usize = 0;
        while k < total
            invariant
                k <= total,
                storage@.len() == k,
                forall|i: int| 0 <= i < k ==> storage@[i].state == 0,
            decreases total - k,
        {
            storage.push(Cell::new());
            k = k + 1;
        }
        Grid { rows, columns, states, error: false, play: false, storage }
    }

    /// Read the state of the cell at `pos` (the indexed read access that the
    /// surrounding application uses to display the grid).
    pub fn cell_state(&self, pos: GridCoord) -> (s: usize)
        requires
            self.wf(),
            self.in_bounds(pos.row as int, pos.col as int),
        ensures
            s as int == self.cell(pos.row as int, pos.col as int),
            s < self.states,
    {
        proof {
            lemma_flat_idx(pos.row as int, pos.col as int, self.rows as int, self.columns as int);
        }
        let _len = self.storage.len();
        let idx = pos.row * self.columns + pos.col;
        proof {
            assert(self.cells()[idx as int] == self.storage@[idx as int].state as int);
        }
        self.storage[idx].state
    }

    /// Overwrite the state of the cell at `pos` (the indexed write access
    /// that the surrounding application uses for direct editing).
    pub fn set_cell_state(&mut self, pos: GridCoord, value: usize)
        requires
            old(self).wf(),
            old(self).in_bounds(pos.row as int, pos.col as int),
            value < old(self).states,
        ensures
            final(self).wf(),
            final(self).rows == old(self).rows,
            final(self).columns == old(self).columns,
            final(self).states == old(self).states,
            final(self).error == old(self).error,
            final(self).play == old(self).play,
            final(self).cells() == old(self).cells().update(
                flat_idx(pos.row as int, pos.col as int, old(self).columns as int),
                value as int,
            ),
    {
        proof {
            lemma_flat_idx(pos.row as int, pos.col as int, self.rows as int, self.columns as int);
        }
        let _len = self.storage.len();
        let idx = pos.row * self.columns + pos.col;
        self.storage.set(idx, Cell { state: value });
        proof {
            assert(self.cells() =~= old(self).cells().update(
                flat_idx(pos.row as int, pos.col as int, old(self).columns as int),
                value as int,
            ));
        }
    }

    /// An independent copy of the grid: the backup-before-trial operation
    /// the search loop relies on.
    pub fn snapshot(&self) -> (g: Grid)
        ensures
            g.like(*self),
            g.storage@ == self.storage@,
    {
        let storage = self.storage.clone();
        proof {
            assert forall|k: int| 0 <= k < self.storage@.len() implies storage@[k]
                == self.storage@[k] by {
                assert(cloned::<Cell>(self.storage@[k], storage@[k]));
            }
            assert(storage@ =~= self.storage@);
        }
        Grid {
            rows: self.rows,
            columns: self.columns,
            states: self.states,
            storage,
            error: self.error,
            play: self.play,
        }
    }

    /// The coordinates within Manhattan distance 1 of `coord` that lie on
    /// the grid, in the fixed order up, left, center, right, down.
    pub fn adjacent(&self, coord: GridCoord) -> (adj: Vec<GridCoord>)
        requires
            self.in_bounds(coord.row as int, coord.col as int),
        ensures
            forall|k: int|
                0 <= k < adj@.len() ==> self.in_bounds(
                    #[trigger] adj@[k].row as int,
                    adj@[k].col as int,
                ) && is_adjacent(
                    adj@[k].row as int,
                    adj@[k].col as int,
                    coord.row as int,
                    coord.col as int,
                ),
            forall|r: int, c: int|
                self.in_bounds(r, c) && is_adjacent(r, c, coord.row as int, coord.col as int)
                    ==> exists|k: int|
                    0 <= k < adj@.len() && #[trigger] adj@[k].row == r && adj@[k].col == c,
            forall|k1: int, k2: int| 0 <= k1 < k2 < adj@.len() ==> adj@[k1] != adj@[k2],
    {
        let mut adj: Vec<GridCoord> = Vec::new();
        if coord.row >= 1 {
            adj.push(GridCoord { row: coord.row - 1, col: coord.col });
        }
        if coord.col >= 1 {
            adj.push(GridCoord { row: coord.row, col: coord.col - 1 });
        }
        adj.push(coord);
        if coord.col + 1 < self.columns {
            adj.push(GridCoord { row: coord.row, col: coord.col + 1 });
        }
        if coord.row + 1 < self.rows {
            adj.push(GridCoord { row: coord.row + 1, col: coord.col });
        }
        proof {
            let r0 = coord.row as int;
            let c0 = coord.col as int;
            let up = r0 >= 1;
            let left = c0 >= 1;
            let right = c0 + 1 < self.columns as int;
            let down = r0 + 1 < self.rows as int;
            let iu: int = 0;
            let il: int = if up { 1int } else { 0int };
            let ic: int = il + if left { 1int } else { 0int };
            let ir: int = ic + 1;
            let idn: int = ir + if right { 1int } else { 0int };
            assert forall|r: int, c: int|
                self.in_bounds(r, c) && is_adjacent(r, c, r0, c0) implies exists|k: int|
                0 <= k < adj@.len() && #[trigger] adj@[k].row == r && adj@[k].col == c by {
                if r == r0 - 1 && c == c0 {
                    assert(adj@[iu].row == r && adj@[iu].col == c);
                } else if r == r0 && c == c0 - 1 {
                    assert(adj@[il].row == r && adj@[il].col == c);
                } else if r == r0 && c == c0 {
                    assert(adj@[ic].row == r && adj@[ic].col == c);
                } else if r == r0 && c == c0 + 1 {
                    assert(adj@[ir].row == r && adj@[ir].col == c);
                } else {
                    assert(r == r0 + 1 && c == c0);
                    assert(adj@[idn].row == r && adj@[idn].col == c);
                }
            }
        }
        adj
    }

    /// Apply `n` toggles to `coord` and to every cell of the grid adjacent
    /// to it: the physical rule of the puzzle, with no bounds check on
    /// `coord` (hence unchecked).
    pub fn click_adjacent_unchecked(&mut self, coord: GridCoord, n: usize)
        requires
            old(self).wf(),
            old(self).in_bounds(coord.row as int, coord.col as int),
            n + old(self).states <= usize::MAX,
        ensures
            final(self).wf(),
            final(self).rows == old(self).rows,
            final(self).columns == old(self).columns,
            final(self).states == old(self).states,
            final(self).error == old(self).error,
            final(self).play == old(self).play,
            final(self).cells() == click_cells(
                old(self).cells(),
                old(self).columns as int,
                old(self).states as int,
                coord.row as int,
                coord.col as int,
                n as int,
            ),
    {
        let ghost pre = *self;
        let adj = self.adjacent(coord);
        let mut k: usize = 0;
        while k < adj.len()
            invariant
                self.wf(),
                self.rows == pre.rows,
                self.columns == pre.columns,
                self.states == pre.states,
                self.error == pre.error,
                self.play == pre.play,
                pre.wf(),
                pre.in_bounds(coord.row as int, coord.col as int),
                n + pre.states <= usize::MAX,
                k <= adj@.len(),
                self.cells().len() == pre.cells().len(),
                forall|j: int|
                    0 <= j < adj@.len() ==> pre.in_bounds(
                        #[trigger] adj@[j].row as int,
                        adj@[j].col as int,
                    ) && is_adjacent(
                        adj@[j].row as int,
                        adj@[j].col as int,
                        coord.row as int,
                        coord.col as int,
                    ),
                forall|r: int, c: int|
                    pre.in_bounds(r, c) && is_adjacent(r, c, coord.row as int, coord.col as int)
                        ==> exists|j: int|
                        0 <= j < adj@.len() && #[trigger] adj@[j].row == r && adj@[j].col == c,
                forall|j1: int, j2: int| 0 <= j1 < j2 < adj@.len() ==> adj@[j1] != adj@[j2],
                forall|r: int, c: int|
                    pre.in_bounds(r, c) ==> #[trigger] self.cell(r, c) == if (exists|j: int|
                        0 <= j < k && #[trigger] adj@[j].row == r && adj@[j].col == c) {
                        (pre.cell(r, c) + n) % (pre.states as int)
                    } else {
                        pre.cell(r, c)
                    },
            decreases adj@.len() - k,
        {
            let ghost mid = *self;
            let p = adj[k];
            let cur = self.cell_state(p);
            proof {
                assert(exists|j: int|
                    0 <= j < k + 1 && #[trigger] adj@[j].row == p.row && adj@[j].col == p.col);
                assert(!(exists|j: int|
                    0 <= j < k && #[trigger] adj@[j].row == p.row && adj@[j].col == p.col));
            }
            let next = (cur + n) % self.states;
            self.set_cell_state(p, next);
            proof {
                lemma_flat_idx(p.row as int, p.col as int, pre.rows as int, pre.columns as int);
                assert forall|r: int, c: int| pre.in_bounds(r, c) implies #[trigger] self.cell(r, c)
                    == if (exists|j: int|
                    0 <= j < k + 1 && #[trigger] adj@[j].row == r && adj@[j].col == c) {
                    (pre.cell(r, c) + n) % (pre.states as int)
                } else {
                    pre.cell(r, c)
                } by {
                    lemma_flat_idx(r, c, pre.rows as int, pre.columns as int);
                    if r == p.row as int && c == p.col as int {
                        assert(self.cell(r, c) == (pre.cell(r, c) + n) % (pre.states as int));
                    } else {
                        assert(flat_idx(r, c, pre.columns as int) != flat_idx(
                            p.row as int,
                            p.col as int,
                            pre.columns as int,
                        ));
                        assert(self.cell(r, c) == mid.cell(r, c));
                    }
                }
            }
            k = k + 1;
        }
        proof {
            let columns = pre.columns as int;
            let states = pre.states as int;
            let target = click_cells(
                pre.cells(),
                columns,
                states,
                coord.row as int,
                coord.col as int,
                n as int,
            );
            assert forall|i: int| 0 <= i < self.cells().len() implies self.cells()[i]
                == target[i] by {
                lemma_flat_idx_inverse(i, pre.rows as int, columns);
                let r = i / columns;
                let c = i % columns;
                assert(self.cell(r, c) == self.cells()[i]);
                if is_adjacent(r, c, coord.row as int, coord.col as int) {
                    assert(exists|j: int|
                        0 <= j < adj@.len() && #[trigger] adj@[j].row == r && adj@[j].col == c);
                } else {
                    assert(!(exists|j: int|
                        0 <= j < adj@.len() && #[trigger] adj@[j].row == r && adj@[j].col == c));
                }
            }
            assert(self.cells() =~= target);
        }
    }

    /// Apply `n` clicks at `coord`, or do nothing when `coord` is absent
    /// (the pointer was outside the grid).  In `play` mode the click follows
    /// the puzzle rule and also toggles the adjacent cells; otherwise it
    /// edits the single cell alone.
    pub fn click(&mut self, coord: Option<GridCoord>, n: usize)
        requires
            old(self).wf(),
            match coord {
                Some(p) => old(self).in_bounds(p.row as int, p.col as int),
                None => true,
            },
            n + old(self).states <= usize::MAX,
        ensures
            final(self).wf(),
            final(self).rows == old(self).rows,
            final(self).columns == old(self).columns,
            final(self).states == old(self).states,
            final(self).error == old(self).error,
            final(self).play == old(self).play,
            match coord {
                None => *final(self) == *old(self),
                Some(p) => final(self).cells() == if old(self).play {
                    click_cells(
                        old(self).cells(),
                        old(self).columns as int,
                        old(self).states as int,
                        p.row as int,
                        p.col as int,
                        n as int,
                    )
                } else {
                    old(self).cells().update(
                        flat_idx(p.row as int, p.col as int, old(self).columns as int),
                        ((old(self).cell(p.row as int, p.col as int) + n) % (
                        old(self).states as int)),
                    )
                },
            },
    {
        if let Some(p) = coord {
            if self.play {
                self.click_adjacent_unchecked(p, n);
            } else {
                let cur = self.cell_state(p);
                let next = (cur + n) % self.states;
                self.set_cell_state(p, next);
            }
        }
    }

    /// Apply, at every coordinate in row-major order, an independently
    /// drawn uniform random click count in `[0, states)`.  The resulting
    /// grid is reachable from the starting grid by clicks alone, which the
    /// final history witness records.
    pub fn random_clicks(&mut self)
        requires
            old(self).wf(),
            2 * old(self).states <= usize::MAX,
        ensures
            final(self).wf(),
            final(self).rows == old(self).rows,
            final(self).columns == old(self).columns,
            final(self).states == old(self).states,
            final(self).error == old(self).error,
            final(self).play == old(self).play,
            exists|counts: Seq<int>|
                cells_in_range(counts, final(self).states as int) && clicks_transform(
                    old(self).cells(),
                    final(self).cells(),
                    counts,
                    final(self).rows as int,
                    final(self).columns as int,
                    final(self).states as int,
                ),
    {
        let ghost pre = *self;
        let ghost rows_i = pre.rows as int;
        let ghost columns_i = pre.columns as int;
        let ghost states_i = pre.states as int;
        let mut rng = fresh_rng();
        let ghost mut counts: Seq<int> = Seq::new((rows_i * columns_i) as nat, |k: int| 0int);
        proof {
            assert forall|r: int, c: int| on_grid(r, c, rows_i, columns_i) implies #[trigger] pre.cells()[flat_idx(
                r,
                c,
                columns_i,
            )] == (pre.cells()[flat_idx(r, c, columns_i)] + crate::model::adjacent_count_sum(
                counts,
                rows_i,
                columns_i,
                r,
                c,
            )) % states_i by {
                lemma_flat_idx(r, c, rows_i, columns_i);
                if on_grid(r - 1, c, rows_i, columns_i) {
                    lemma_flat_idx(r - 1, c, rows_i, columns_i);
                }
                if on_grid(r + 1, c, rows_i, columns_i) {
                    lemma_flat_idx(r + 1, c, rows_i, columns_i);
                }
                if on_grid(r, c - 1, rows_i, columns_i) {
                    lemma_flat_idx(r, c - 1, rows_i, columns_i);
                }
                if on_grid(r, c + 1, rows_i, columns_i) {
                    lemma_flat_idx(r, c + 1, rows_i, columns_i);
                }
                vstd::arithmetic::div_mod::lemma_small_mod(
                    pre.cells()[flat_idx(r, c, columns_i)] as nat,
                    states_i as nat,
                );
            }
            assert(clicks_transform(pre.cells(), pre.cells(), counts, rows_i, columns_i, states_i));
            assert forall|r: int, c: int| on_grid(r, c, rows_i, columns_i) implies #[trigger] counts[flat_idx(
                r,
                c,
                columns_i,
            )] == 0 by {
                lemma_flat_idx(r, c, rows_i, columns_i);
            }
        }
        let mut row: usize = 0;
        while row < self.rows
            invariant
                pre.wf(),
                2 * pre.states <= usize::MAX,
                self.wf(),
                self.rows == pre.rows,
                self.columns == pre.columns,
                self.states == pre.states,
                self.error == pre.error,
                self.play == pre.play,
                row <= pre.rows,
                counts.len() == rows_i * columns_i,
                rows_i == pre.rows as int,
                columns_i == pre.columns as int,
                states_i == pre.states as int,
                cells_in_range(counts, states_i),
                clicks_transform(pre.cells(), self.cells(), counts, rows_i, columns_i, states_i),
                forall|r: int, c: int|
                    on_grid(r, c, rows_i, columns_i) && r >= row ==> #[trigger] counts[flat_idx(
                        r,
                        c,
                        columns_i,
                    )] == 0,
            decreases pre.rows - row,
        {
            let mut col: usize = 0;
            while col < self.columns
                invariant
                    pre.wf(),
                    2 * pre.states <= usize::MAX,
                    self.wf(),
                    self.rows == pre.rows,
                    self.columns == pre.columns,
                    self.states == pre.states,
                    self.error == pre.error,
                    self.play == pre.play,
                    row < pre.rows,
                    col <= pre.columns,
                    counts.len() == rows_i * columns_i,
                    rows_i == pre.rows as int,
                    columns_i == pre.columns as int,
                    states_i == pre.states as int,
                    cells_in_range(counts, states_i),
                    clicks_transform(
                        pre.cells(),
                        self.cells(),
                        counts,
                        rows_i,
                        columns_i,
                        states_i,
                    ),
                    forall|r: int, c: int|
                        on_grid(r, c, rows_i, columns_i) && (r > row || (r == row && c >= col))
                            ==> #[trigger] counts[flat_idx(r, c, columns_i)] == 0,
                decreases pre.columns - col,
            {
                let n = random_below(&mut rng, self.states);
                let coord = GridCoord { row, col };
                proof {
                    lemma_flat_idx(row as int, col as int, rows_i, columns_i);
                    lemma_click_extends_transform(
                        pre.cells(),
                        self.cells(),
                        counts,
                        rows_i,
                        columns_i,
                        states_i,
                        row as int,
                        col as int,
                        n as int,
                    );
                }
                self.click_adjacent_unchecked(coord, n);
                proof {
                    let idx0 = flat_idx(row as int, col as int, columns_i);
                    counts = counts.update(idx0, n as int);
                    assert forall|r: int, c: int|
                        on_grid(r, c, rows_i, columns_i) && (r > row || (r == row && c >= col
                            + 1)) implies #[trigger] counts[flat_idx(r, c, columns_i)] == 0 by {
                        lemma_flat_idx(r, c, rows_i, columns_i);
                    }
                }
                col = col + 1;
            }
            row = row + 1;
        }
    }
}

/// Relies on rand::thread_rng: a handle to the calling thread's random
/// number generator.
#[verifier::external_body]
fn fresh_rng() -> rand::rngs::ThreadRng {
    rand::thread_rng()
}

#[verifier::external_type_specification]
#[verifier::external_body]
pub struct ExThreadRng(rand::rngs::ThreadRng);

/// Relies on rand::Rng::gen_range over the half-open range `0..bound`: it
/// returns a uniformly distributed value of that range and panics only
/// when the range is empty.  Nothing is assumed about which value comes
/// back.
#[verifier::external_body]
fn random_below(rng: &mut rand::rngs::ThreadRng, bound: usize) -> (n: usize)
    requires
        bound >= 1,
    ensures
        n < bound,
{
    rand::Rng::gen_range(rng, 0..bound)
}

/// A freshly allocated grid for the given dimensions: all cells at state
/// 0, both flags cleared.
pub open spec fn fresh_grid(g: Grid, rows: int, columns: int, states: int) -> bool {
    &&& g.rows == rows
    &&& g.columns == columns
    &&& g.states == states
    &&& !g.error
    &&& !g.play
    &&& g.cells().len() == rows * columns
    &&& forall|k: int| 0 <= k < g.cells().len() ==> g.cells()[k] == 0
}

/// What `Params::reset_grids` leaves behind: the scalar parameters kept,
/// both grids freshly allocated for the current dimensions.
pub open spec fn reset_result(pre: Params, post: Params) -> bool {
    &&& post.rows == pre.rows
    &&& post.columns == pre.columns
    &&& post.states == pre.states
    &&& post.objective == pre.objective
    &&& post.play == pre.play
    &&& post.solve_time == pre.solve_time
    &&& fresh_grid(post.puzzle, pre.rows as int, pre.columns as int, pre.states as int)
    &&& fresh_grid(post.solution, pre.rows as int, pre.columns as int, pre.states as int)
}

/// Resetting the grids is idempotent: a second `reset_grids` leaves the
/// same all-default grids as the first.
pub proof fn lemma_reset_idempotent(a: Params, b: Params, c: Params)
    requires
        reset_result(a, b),
        reset_result(b, c),
    ensures
        b.puzzle.like(c.puzzle),
        b.solution.like(c.solution),
        c.rows == b.rows,
        c.columns == b.columns,
        c.states == b.states,
        c.objective == b.objective,
        c.play == b.play,
        c.solve_time == b.solve_time,
{
    assert(b.puzzle.cells() =~= c.puzzle.cells());
    assert(b.solution.cells() =~= c.solution.cells());
}

/// A problem instance: the dimensions and objective, the clickable
/// `puzzle` grid, the `solution` grid that a solve attempt fills with per-
/// cell click counts, the play-mode toggle and the last solve's elapsed
/// time as text.
#[derive(Clone, Debug)]
pub struct Params {
    pub rows: usize,
    pub columns: usize,
    pub states: usize,
    pub objective: usize,
    pub puzzle: Grid,
    pub solution: Grid,
    pub play: bool,
    pub solve_time: String,
}

impl Params {
    /// Both grids sized to the scalar parameters, every cell state in
    /// range, the objective reachable, and room for the toggle arithmetic.
    pub open spec fn wf(self) -> bool {
        &&& self.puzzle.wf()
        &&& self.solution.wf()
        &&& self.puzzle.rows == self.rows
        &&& self.puzzle.columns == self.columns
        &&& self.puzzle.states == self.states
        &&& self.solution.rows == self.rows
        &&& self.solution.columns == self.columns
        &&& self.solution.states == self.states
        &&& self.objective < self.states
        &&& 2 * self.states <= usize::MAX
    }

    pub fn new(rows: usize, columns: usize, states: usize, objective: usize) -> (p: Params)
        requires
            states >= 1,
            objective < states,
            rows * columns <= usize::MAX,
            2 * states <= usize::MAX,
        ensures
            p.wf(),
            p.rows == rows,
            p.columns == columns,
            p.states == states,
            p.objective == objective,
            !p.play,
            p.solve_time@ == Seq::<char>::empty(),
            fresh_grid(p.puzzle, rows as int, columns as int, states as int),
            fresh_grid(p.solution, rows as int, columns as int, states as int),
    {
        Params {
            rows,
            columns,
            states,
            objective,
            play: false,
            puzzle: Grid::new(rows, columns, states),
            solution: Grid::new(rows, columns, states),
            solve_time: String::new(),
        }
    }

    /// Replace both grids wholesale with fresh ones for the current
    /// dimensions (invoked whenever rows, columns or states change).
    pub fn reset_grids(&mut self)
        requires
            old(self).states >= 1,
            old(self).rows * old(self).columns <= usize::MAX,
        ensures
            reset_result(*old(self), *final(self)),
            old(self).objective < old(self).states && 2 * old(self).states <= usize::MAX
                ==> final(self).wf(),
    {
        self.puzzle = Grid::new(self.rows, self.columns, self.states);
        self.solution = Grid::new(self.rows, self.columns, self.states);
    }
}

/// The top-level state: a problem instance to scramble and solve.
#[derive(Clone, Debug)]
pub struct SolverState {
    pub params: Params,
}

impl SolverState {
    pub open spec fn wf(self) -> bool {
        self.params.wf()
    }

    pub fn new(rows: usize, columns: usize, states: usize, objective: usize) -> (s: SolverState)
        requires
            states >= 1,
            objective < states,
            rows * columns <= usize::MAX,
            2 * states <= usize::MAX,
        ensures
            s.wf(),
            s.params.rows == rows,
            s.params.columns == columns,
            s.params.states == states,
            s.params.objective == objective,
            fresh_grid(s.params.puzzle, rows as int, columns as int, states as int),
            fresh_grid(s.params.solution, rows as int, columns as int, states as int),
    {
        SolverState { params: Params::new(rows, columns, states, objective) }
    }

    /// Set every puzzle cell to the objective state, then scramble with
    /// uniformly random clicks: the result is guaranteed solvable, because
    /// only reachable toggles were applied.
    pub fn randomize(&mut self)
        requires
            old(self).wf(),
        ensures
            final(self).wf(),
            final(self).params.rows == old(self).params.rows,
            final(self).params.columns == old(self).params.columns,
            final(self).params.states == old(self).params.states,
            final(self).params.objective == old(self).params.objective,
            final(self).params.play == old(self).params.play,
            final(self).params.solution == old(self).params.solution,
            final(self).params.puzzle.error == old(self).params.puzzle.error,
            final(self).params.puzzle.play == old(self).params.puzzle.play,
            final(self).params.solve_time@ == Seq::<char>::empty(),
            solvable(
                final(self).params.puzzle.cells(),
                final(self).params.rows as int,
                final(self).params.columns as int,
                final(self).params.states as int,
                final(self).params.objective as int,
            ),
    {
        let ghost rows_i = self.params.rows as int;
        let ghost columns_i = self.params.columns as int;
        let ghost states_i = self.params.states as int;
        let ghost objective_i = self.params.objective as int;
        self.params.solve_time = String::new();
        let objective = self.params.objective;
        let total = self.params.puzzle.storage.len();
        let mut filled: Vec<Cell> = Vec::new();
        let mut k: usize = 0;
        while k < total
            invariant
                k <= total,
                filled@.len() == k,
                forall|i: int| 0 <= i < k ==> filled@[i].state == objective,
            decreases total - k,
        {
            filled.push(Cell { state: objective });
            k = k + 1;
        }
        self.params.puzzle.storage = filled;
        proof {
            assert(self.params.puzzle.cells() =~= Seq::new(
                (rows_i * columns_i) as nat,
                |i: int| objective_i,
            ));
        }
        self.params.puzzle.random_clicks();
        proof {
            let base = Seq::new((rows_i * columns_i) as nat, |i: int| objective_i);
            let counts = choose|counts: Seq<int>|
                cells_in_range(counts, states_i) && clicks_transform(
                    base,
                    self.params.puzzle.cells(),
                    counts,
                    rows_i,
                    columns_i,
                    states_i,
                );
            lemma_scramble_solvable(
                self.params.puzzle.cells(),
                counts,
                rows_i,
                columns_i,
                states_i,
                objective_i,
            );
        }
    }
}

} // verus!
