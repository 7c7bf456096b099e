//! The internal brute-force reducers.
//!
//! Once the click counts for the first row (or first column, whichever
//! side is shorter) are fixed, every later row's (column's) required
//! click counts are forced: the only count that finishes driving the
//! just-passed neighbor to the objective.  So the search enumerates the
//! `states ^ min(rows, columns)` candidate first-slice vectors and
//! propagates each one across the grid.
//!
//! Each trial records its click counts into the solution grid while
//! applying them to the puzzle grid, so a trial that ends with every cell
//! at the objective has, by construction, a click plan that solves the
//! original puzzle.  Two things are proved here: that soundness, and that
//! the search reports a solution exactly when some candidate's forced
//! propagation succeeds (`some_candidate_succeeds`), with the round-robin
//! partitions of the parallel variant covering exactly the same candidate
//! space.  That the first-slice candidate space reaches every solvable
//! configuration — the classical reduction property — is asserted by the
//! algorithm and cross-checked by the accompanying tests on small grids.

use vstd::prelude::*;

verus! {

use crate::data::{Grid, GridCoord, SolverState, SolvingError};
use crate::model::{
    adjacent_count_sum, cells_in_range, click_cells, clicks_transform, counts_solve, flat_idx,
    lemma_click_extends_transform, lemma_flat_idx, lemma_flat_idx_inverse, on_grid,
};
use crate::solver_trait::Solver;
use vstd::arithmetic::power::pow;

/// The enumeration index of a candidate vector: its value as a base-
/// `states` numeral, most significant position first.
pub open spec fn candidate_value(s: Seq<usize>, states: int) -> int
    decreases s.len(),
{
    if s.len() == 0 {
        0
    } else {
        candidate_value(s.drop_last(), states) * states + s.last()
    }
}

/// A candidate vector's enumeration index lies below `states ^ len`.
proof fn lemma_candidate_value_bounds(s: Seq<usize>, states: int)
    requires
        states >= 1,
        forall|i: int| 0 <= i < s.len() ==> #[trigger] s[i] < states,
    ensures
        0 <= candidate_value(s, states) < pow(states, s.len()),
    decreases s.len(),
{
    reveal(vstd::arithmetic::power::pow);
    vstd::arithmetic::power::lemma_pow_positive(states, s.len());
    if s.len() > 0 {
        let d = s.drop_last();
        lemma_candidate_value_bounds(d, states);
        let vd = candidate_value(d, states);
        let p = pow(states, d.len());
        assert(pow(states, s.len()) == states * p);
        assert(0 <= vd * states + s.last() < p * states) by (nonlinear_arith)
            requires
                0 <= vd < p,
                0 <= s.last() < states,
        ;
        assert(p * states == states * p) by (nonlinear_arith);
    }
}

/// Stepping to the lexicographic successor advances the enumeration index
/// by exactly one.
proof fn lemma_candidate_successor(prev: Seq<usize>, next: Seq<usize>, states: int, p: int)
    requires
        states >= 1,
        prev.len() == next.len(),
        0 <= p < prev.len(),
        next[p] == prev[p] + 1,
        forall|i: int| 0 <= i < p ==> #[trigger] next[i] == prev[i],
        forall|i: int| p < i < prev.len() ==> #[trigger] prev[i] == states - 1,
        forall|i: int| p < i < prev.len() ==> #[trigger] next[i] == 0,
    ensures
        candidate_value(next, states) == candidate_value(prev, states) + 1,
    decreases prev.len(),
{
    if p == prev.len() - 1 {
        assert(prev.drop_last() =~= next.drop_last());
    } else {
        let pd = prev.drop_last();
        let nd = next.drop_last();
        assert(nd[p] == pd[p] + 1);
        assert forall|i: int| 0 <= i < p implies #[trigger] nd[i] == pd[i] by {
            assert(next[i] == prev[i]);
        }
        assert forall|i: int| p < i < pd.len() implies #[trigger] pd[i] == states - 1 by {
            assert(prev[i] == states - 1);
        }
        assert forall|i: int| p < i < pd.len() implies #[trigger] nd[i] == 0 by {
            assert(next[i] == 0);
        }
        lemma_candidate_successor(pd, nd, states, p);
        assert(prev.last() == states - 1);
        assert(next.last() == 0);
        let vd = candidate_value(pd, states);
        assert((vd + 1) * states == vd * states + states) by (nonlinear_arith);
    }
}

/// The all-zero vector is the first candidate.
proof fn lemma_candidate_value_zero(s: Seq<usize>, states: int)
    requires
        forall|i: int| 0 <= i < s.len() ==> #[trigger] s[i] == 0,
    ensures
        candidate_value(s, states) == 0,
    decreases s.len(),
{
    if s.len() > 0 {
        let d = s.drop_last();
        assert forall|i: int| 0 <= i < d.len() implies #[trigger] d[i] == 0 by {
            assert(s[i] == 0);
        }
        lemma_candidate_value_zero(d, states);
        assert(s.last() == 0);
    }
}

/// The all-max vector is the last candidate.
proof fn lemma_candidate_value_max(s: Seq<usize>, states: int)
    requires
        states >= 1,
        forall|i: int| 0 <= i < s.len() ==> #[trigger] s[i] == states - 1,
    ensures
        candidate_value(s, states) == pow(states, s.len()) - 1,
    decreases s.len(),
{
    reveal(vstd::arithmetic::power::pow);
    if s.len() > 0 {
        let d = s.drop_last();
        assert forall|i: int| 0 <= i < d.len() implies #[trigger] d[i] == states - 1 by {
            assert(s[i] == states - 1);
        }
        lemma_candidate_value_max(d, states);
        assert(s.last() == states - 1);
        assert((pow(states, d.len()) - 1) * states == pow(states, d.len()) * states - states)
            by (nonlinear_arith);
        assert(pow(states, s.len()) == states * pow(states, d.len()));
        assert(states * pow(states, d.len()) == pow(states, d.len()) * states) by (nonlinear_arith);
    }
}

/// Distinct candidate vectors have distinct enumeration indices.
proof fn lemma_candidate_value_injective(a: Seq<usize>, b: Seq<usize>, states: int)
    requires
        states >= 1,
        a.len() == b.len(),
        forall|i: int| 0 <= i < a.len() ==> #[trigger] a[i] < states,
        forall|i: int| 0 <= i < b.len() ==> #[trigger] b[i] < states,
        candidate_value(a, states) == candidate_value(b, states),
    ensures
        a == b,
    decreases a.len(),
{
    if a.len() == 0 {
        assert(a =~= b);
    } else {
        let ad = a.drop_last();
        let bd = b.drop_last();
        assert forall|i: int| 0 <= i < ad.len() implies #[trigger] ad[i] < states by {
            assert(a[i] < states);
        }
        assert forall|i: int| 0 <= i < bd.len() implies #[trigger] bd[i] < states by {
            assert(b[i] < states);
        }
        let va = candidate_value(ad, states);
        let vb = candidate_value(bd, states);
        assert(candidate_value(a, states) == va * states + a.last());
        assert(candidate_value(b, states) == vb * states + b.last());
        lemma_candidate_value_bounds(ad, states);
        lemma_candidate_value_bounds(bd, states);
        vstd::arithmetic::div_mod::lemma_fundamental_div_mod_converse(
            va * states + a.last(),
            states,
            va,
            a.last() as int,
        );
        vstd::arithmetic::div_mod::lemma_fundamental_div_mod_converse(
            vb * states + b.last(),
            states,
            vb,
            b.last() as int,
        );
        lemma_candidate_value_injective(ad, bd, states);
        assert(a.last() as int == b.last() as int);
        assert forall|i: int| 0 <= i < a.len() implies a[i] == b[i] by {
            if i < a.len() - 1 {
                assert(a[i] == ad[i]);
                assert(b[i] == bd[i]);
            } else {
                assert(a[i] == a.last());
                assert(b[i] == b.last());
            }
        }
        assert(a =~= b);
    }
}

/// Two enumeration indices in the same residue class lie at least one
/// stride apart.
proof fn lemma_stride_gap(x: int, y: int, stride: int)
    requires
        stride >= 1,
        x % stride == 0,
        y % stride == 0,
        x < y,
    ensures
        y >= x + stride,
{
    vstd::arithmetic::div_mod::lemma_fundamental_div_mod(x, stride);
    vstd::arithmetic::div_mod::lemma_fundamental_div_mod(y, stride);
    assert(y - x >= stride) by (nonlinear_arith)
        requires
            x == stride * (x / stride),
            y == stride * (y / stride),
            x < y,
            stride >= 1,
    ;
}

/// Step `clicks` to the next candidate vector in the fixed enumeration
/// order (each position ranges over `[0, states)`, rightmost varies
/// fastest).  Returns false when the enumeration has wrapped back to the
/// all-zero vector: every candidate has been visited.
pub fn next_candidate(clicks: &mut Vec<usize>, states: usize) -> (more: bool)
    requires
        states >= 1,
        forall|i: int| 0 <= i < old(clicks)@.len() ==> #[trigger] old(clicks)@[i] < states,
    ensures
        final(clicks)@.len() == old(clicks)@.len(),
        forall|i: int| 0 <= i < final(clicks)@.len() ==> #[trigger] final(clicks)@[i] < states,
        more ==> candidate_value(final(clicks)@, states as int) == candidate_value(
            old(clicks)@,
            states as int,
        ) + 1,
        !more ==> (forall|i: int|
            0 <= i < final(clicks)@.len() ==> #[trigger] old(clicks)@[i] == states - 1),
        !more ==> (forall|i: int|
            0 <= i < final(clicks)@.len() ==> #[trigger] final(clicks)@[i] == 0),
{
    let ghost orig = clicks@;
    let ghost states_i = states as int;
    let mut pos = clicks.len();
    let mut more = false;
    while pos > 0 && !more
        invariant
            pos <= clicks@.len(),
            clicks@.len() == orig.len(),
            states >= 1,
            states_i == states as int,
            forall|i: int| 0 <= i < orig.len() ==> #[trigger] orig[i] < states,
            forall|i: int| 0 <= i < clicks@.len() ==> #[trigger] clicks@[i] < states,
            !more ==> forall|i: int|
                pos <= i < clicks@.len() ==> #[trigger] orig[i] == states - 1,
            !more ==> forall|i: int| pos <= i < clicks@.len() ==> #[trigger] clicks@[i] == 0,
            !more ==> forall|i: int| 0 <= i < pos ==> #[trigger] clicks@[i] == orig[i],
            more ==> candidate_value(clicks@, states_i) == candidate_value(orig, states_i) + 1,
        decreases pos + (if more { 0int } else { 1int }),
    {
        let p = pos - 1;
        let v = clicks[p];
        if v + 1 < states {
            let ghost prevv = clicks@;
            clicks.set(p, v + 1);
            proof {
                assert(clicks@ == prevv.update(p as int, (v + 1) as usize));
                assert(clicks@[p as int] == orig[p as int] + 1);
                assert forall|i: int| 0 <= i < p implies #[trigger] clicks@[i] == orig[i] by {
                    assert(prevv[i] == orig[i]);
                }
                assert forall|i: int| p < i < clicks@.len() implies #[trigger] orig[i] == states
                    - 1 by {}
                assert forall|i: int| p < i < clicks@.len() implies #[trigger] clicks@[i] == 0 by {
                    assert(prevv[i] == 0);
                }
                lemma_candidate_successor(orig, clicks@, states_i, p as int);
            }
            more = true;
        } else {
            let ghost prevv = clicks@;
            clicks.set(p, 0);
            proof {
                assert(prevv[p as int] == orig[p as int]);
                assert(orig[p as int] == states - 1);
                assert forall|i: int| p <= i < clicks@.len() implies #[trigger] orig[i] == states
                    - 1 by {}
                assert forall|i: int| p <= i < clicks@.len() implies #[trigger] clicks@[i] == 0 by {
                    if i > p {
                        assert(prevv[i] == 0);
                    }
                }
                assert forall|i: int| 0 <= i < p implies #[trigger] clicks@[i] == orig[i] by {
                    assert(prevv[i] == orig[i]);
                }
            }
            pos = p;
        }
    }
    more
}

/// Try one candidate vector of first-row click counts: the mirror of
/// `solve_internal_by_col`, propagating row by row, used when the grid has
/// no more rows than columns.
#[verifier::loop_isolation(false)]
#[verifier::rlimit(100)]
pub fn solve_internal_by_row(
    data: &mut SolverState,
    puzzle_backup: &Grid,
    first_row_clicks: &Vec<usize>,
) -> (found: bool)
    requires
        old(data).wf(),
        puzzle_backup.like(old(data).params.puzzle),
        first_row_clicks@.len() == old(data).params.columns,
        forall|i: int|
            0 <= i < first_row_clicks@.len() ==> #[trigger] first_row_clicks@[i] < old(
                data,
            ).params.states,
    ensures
        final(data).wf(),
        trial_frame(*old(data), *final(data)),
        final(data).params.puzzle.like(old(data).params.puzzle),
        found ==> !final(data).params.solution.error,
        !found ==> final(data).params.solution.error == old(data).params.solution.error,
        found ==> counts_solve(
            final(data).params.puzzle.cells(),
            final(data).params.solution.cells(),
            final(data).params.rows as int,
            final(data).params.columns as int,
            final(data).params.states as int,
            final(data).params.objective as int,
        ),
        found == by_row_succeeds(
            old(data).params.puzzle.cells(),
            old(data).params.rows as int,
            old(data).params.columns as int,
            old(data).params.states as int,
            old(data).params.objective as int,
            counts_view(first_row_clicks@),
        ),
{
    let ghost pre = *data;
    let rows = data.params.rows;
    let columns = data.params.columns;
    let states = data.params.states;
    let objective = data.params.objective;
    let ghost rows_i = rows as int;
    let ghost columns_i = columns as int;
    let ghost states_i = states as int;
    let ghost objective_i = objective as int;
    let ghost mut counts: Seq<int> = Seq::new((rows_i * columns_i) as nat, |k: int| 0int);
    proof {
        assert forall|r2: int, c2: int| on_grid(r2, c2, rows_i, columns_i) implies (
        #[trigger] counts[flat_idx(r2, c2, columns_i)] == 0 && data.params.puzzle.cells()[flat_idx(
            r2,
            c2,
            columns_i,
        )] == (pre.params.puzzle.cells()[flat_idx(r2, c2, columns_i)] + adjacent_count_sum(
            counts,
            rows_i,
            columns_i,
            r2,
            c2,
        )) % states_i) by {
            lemma_flat_idx(r2, c2, rows_i, columns_i);
            if on_grid(r2 - 1, c2, rows_i, columns_i) {
                lemma_flat_idx(r2 - 1, c2, rows_i, columns_i);
            }
            if on_grid(r2 + 1, c2, rows_i, columns_i) {
                lemma_flat_idx(r2 + 1, c2, rows_i, columns_i);
            }
            if on_grid(r2, c2 - 1, rows_i, columns_i) {
                lemma_flat_idx(r2, c2 - 1, rows_i, columns_i);
            }
            if on_grid(r2, c2 + 1, rows_i, columns_i) {
                lemma_flat_idx(r2, c2 + 1, rows_i, columns_i);
            }
            vstd::arithmetic::div_mod::lemma_small_mod(
                pre.params.puzzle.cells()[flat_idx(r2, c2, columns_i)] as nat,
                states_i as nat,
            );
        }
        assert(clicks_transform(
            pre.params.puzzle.cells(),
            data.params.puzzle.cells(),
            counts,
            rows_i,
            columns_i,
            states_i,
        ));
    }
    let mut curr_row_clicks: Vec<usize> = Vec::new();
    let mut i: usize = 0;
    while i < first_row_clicks.len()
        invariant
            i <= first_row_clicks@.len(),
            curr_row_clicks@.len() == i,
            forall|j: int|
                0 <= j < first_row_clicks@.len() ==> #[trigger] first_row_clicks@[j] < states,
            forall|j: int| 0 <= j < i ==> #[trigger] curr_row_clicks@[j] == first_row_clicks@[j],
            forall|j: int| 0 <= j < i ==> #[trigger] curr_row_clicks@[j] < states,
        decreases first_row_clicks@.len() - i,
    {
        curr_row_clicks.push(first_row_clicks[i]);
        i = i + 1;
    }
    proof {
        assert(curr_row_clicks@ =~= first_row_clicks@);
    }
    let mut row: usize = 0;
    while row < rows
        invariant
            data.wf(),
            trial_frame(pre, *data),
            row <= rows,
            data.params.puzzle.error == pre.params.puzzle.error,
            data.params.puzzle.play == pre.params.puzzle.play,
            data.params.solution.error == pre.params.solution.error,
            counts.len() == rows_i * columns_i,
            cells_in_range(counts, states_i),
            clicks_transform(
                pre.params.puzzle.cells(),
                data.params.puzzle.cells(),
                counts,
                rows_i,
                columns_i,
                states_i,
            ),
            forall|r2: int, c2: int|
                on_grid(r2, c2, rows_i, columns_i) && r2 >= row ==> #[trigger] counts[flat_idx(
                    r2,
                    c2,
                    columns_i,
                )] == 0,
            forall|r2: int, c2: int|
                on_grid(r2, c2, rows_i, columns_i) && r2 < row
                    ==> #[trigger] data.params.solution.cells()[flat_idx(r2, c2, columns_i)]
                    == counts[flat_idx(r2, c2, columns_i)],
            curr_row_clicks@.len() == columns,
            forall|j: int| 0 <= j < columns ==> #[trigger] curr_row_clicks@[j] < states,
            propagate_rows(
                data.params.puzzle.cells(),
                rows_i,
                columns_i,
                states_i,
                objective_i,
                counts_view(curr_row_clicks@),
                row as int,
            ) == propagate_rows(
                pre.params.puzzle.cells(),
                rows_i,
                columns_i,
                states_i,
                objective_i,
                counts_view(first_row_clicks@),
                0,
            ),
        decreases rows - row,
    {
        let ghost row_start_cells = data.params.puzzle.cells();
        let ghost curr_view_start = counts_view(curr_row_clicks@);
        let mut col: usize = 0;
        while col < columns
            invariant
                data.wf(),
                trial_frame(pre, *data),
                row < rows,
                col <= columns,
                data.params.puzzle.error == pre.params.puzzle.error,
                data.params.puzzle.play == pre.params.puzzle.play,
                data.params.solution.error == pre.params.solution.error,
                counts.len() == rows_i * columns_i,
                cells_in_range(counts, states_i),
                clicks_transform(
                    pre.params.puzzle.cells(),
                    data.params.puzzle.cells(),
                    counts,
                    rows_i,
                    columns_i,
                    states_i,
                ),
                forall|r2: int, c2: int|
                    on_grid(r2, c2, rows_i, columns_i) && (r2 > row || (r2 == row && c2 >= col))
                        ==> #[trigger] counts[flat_idx(r2, c2, columns_i)] == 0,
                forall|r2: int, c2: int|
                    on_grid(r2, c2, rows_i, columns_i) && (r2 < row || (r2 == row && c2 < col))
                        ==> #[trigger] data.params.solution.cells()[flat_idx(r2, c2, columns_i)]
                        == counts[flat_idx(r2, c2, columns_i)],
                curr_row_clicks@.len() == columns,
                forall|j: int| 0 <= j < columns ==> #[trigger] curr_row_clicks@[j] < states,
                curr_view_start == counts_view(curr_row_clicks@),
                click_row(
                    data.params.puzzle.cells(),
                    rows_i,
                    columns_i,
                    states_i,
                    curr_view_start,
                    row as int,
                    col as int,
                ) == click_row(
                    row_start_cells,
                    rows_i,
                    columns_i,
                    states_i,
                    curr_view_start,
                    row as int,
                    0,
                ),
            decreases columns - col,
        {
            let n = curr_row_clicks[col];
            let coord = GridCoord { row, col };
            let ghost cells_before_click = data.params.puzzle.cells();
            data.params.solution.set_cell_state(coord, n);
            proof {
                lemma_flat_idx(row as int, col as int, rows_i, columns_i);
                lemma_click_extends_transform(
                    pre.params.puzzle.cells(),
                    data.params.puzzle.cells(),
                    counts,
                    rows_i,
                    columns_i,
                    states_i,
                    row as int,
                    col as int,
                    n as int,
                );
            }
            data.params.puzzle.click_adjacent_unchecked(coord, n);
            proof {
                let idx0 = flat_idx(row as int, col as int, columns_i);
                counts = counts.update(idx0, n as int);
                assert forall|r2: int, c2: int|
                    on_grid(r2, c2, rows_i, columns_i) && (r2 > row || (r2 == row && c2 >= col
                        + 1)) implies #[trigger] counts[flat_idx(r2, c2, columns_i)] == 0 by {
                    lemma_flat_idx(r2, c2, rows_i, columns_i);
                }
                assert forall|r2: int, c2: int|
                    on_grid(r2, c2, rows_i, columns_i) && (r2 < row || (r2 == row && c2 < col
                        + 1)) implies #[trigger] data.params.solution.cells()[flat_idx(
                    r2,
                    c2,
                    columns_i,
                )] == counts[flat_idx(r2, c2, columns_i)] by {
                    lemma_flat_idx(r2, c2, rows_i, columns_i);
                }
                assert(curr_view_start[col as int] == n as int);
                assert(data.params.puzzle.cells() == click_cells(
                    cells_before_click,
                    columns_i,
                    states_i,
                    row as int,
                    col as int,
                    n as int,
                ));
                assert(click_row(
                    cells_before_click,
                    rows_i,
                    columns_i,
                    states_i,
                    curr_view_start,
                    row as int,
                    col as int,
                ) == click_row(
                    data.params.puzzle.cells(),
                    rows_i,
                    columns_i,
                    states_i,
                    curr_view_start,
                    row as int,
                    col as int + 1,
                ));
            }
            col = col + 1;
        }
        proof {
            assert(click_row(
                data.params.puzzle.cells(),
                rows_i,
                columns_i,
                states_i,
                curr_view_start,
                row as int,
                columns_i,
            ) == data.params.puzzle.cells());
            assert(data.params.puzzle.cells() == click_row(
                row_start_cells,
                rows_i,
                columns_i,
                states_i,
                curr_view_start,
                row as int,
                0,
            ));
        }
        let mut next_clicks: Vec<usize> = Vec::new();
        let mut c: usize = 0;
        while c < columns
            invariant
                data.wf(),
                row < rows,
                c <= columns,
                rows == data.params.rows,
                columns == data.params.columns,
                states == data.params.states,
                objective < states,
                next_clicks@.len() == c,
                forall|j: int| 0 <= j < c ==> #[trigger] next_clicks@[j] < states,
                forall|j: int|
                    0 <= j < c ==> #[trigger] next_clicks@[j] as int == (objective_i
                        - data.params.puzzle.cells()[flat_idx(row as int, j, columns_i)])
                        % states_i,
            decreases columns - c,
        {
            let s_cur = data.params.puzzle.cell_state(GridCoord { row, col: c });
            let d = if objective >= s_cur {
                objective - s_cur
            } else {
                states - (s_cur - objective)
            };
            proof {
                lemma_flat_idx(row as int, c as int, rows_i, columns_i);
                lemma_sub_mod(objective_i, s_cur as int, states_i);
            }
            next_clicks.push(d);
            c = c + 1;
        }
        proof {
            assert(counts_view(next_clicks@) =~= forced_clicks_row(
                data.params.puzzle.cells(),
                rows_i,
                columns_i,
                states_i,
                objective_i,
                row as int,
            ));
            assert(propagate_rows(
                row_start_cells,
                rows_i,
                columns_i,
                states_i,
                objective_i,
                curr_view_start,
                row as int,
            ) == propagate_rows(
                data.params.puzzle.cells(),
                rows_i,
                columns_i,
                states_i,
                objective_i,
                counts_view(next_clicks@),
                row as int + 1,
            ));
        }
        curr_row_clicks = next_clicks;
        row = row + 1;
    }
    let total = data.params.puzzle.storage.len();
    let mut all_obj = true;
    let mut k: usize = 0;
    while k < total
        invariant
            data.wf(),
            total == data.params.puzzle.storage.len(),
            k <= total,
            all_obj <==> (forall|j: int|
                0 <= j < k ==> #[trigger] data.params.puzzle.cells()[j] == objective_i),
        decreases total - k,
    {
        let state = data.params.puzzle.storage[k].state;
        proof {
            assert(data.params.puzzle.cells()[k as int] == state as int);
        }
        if state != objective {
            all_obj = false;
        }
        k = k + 1;
    }
    proof {
        assert(propagate_rows(
            data.params.puzzle.cells(),
            rows_i,
            columns_i,
            states_i,
            objective_i,
            counts_view(curr_row_clicks@),
            rows_i,
        ) == data.params.puzzle.cells());
        assert(data.params.puzzle.cells() == propagate_rows(
            pre.params.puzzle.cells(),
            rows_i,
            columns_i,
            states_i,
            objective_i,
            counts_view(first_row_clicks@),
            0,
        ));
        assert(data.params.puzzle.cells().len() == total);
        assert(all_obj == all_at_objective(data.params.puzzle.cells(), objective_i));
    }
    proof {
        if all_obj {
            assert forall|j: int| 0 <= j < counts.len() implies counts[j]
                == data.params.solution.cells()[j] by {
                assert(columns_i > 0) by (nonlinear_arith)
                    requires
                        0 <= j < rows_i * columns_i,
                        0 <= columns_i,
                        0 <= rows_i,
                ;
                lemma_flat_idx_inverse(j, rows_i, columns_i);
            }
            assert(counts =~= data.params.solution.cells());
            assert forall|r2: int, c2: int| on_grid(r2, c2, rows_i, columns_i) implies (
            #[trigger] pre.params.puzzle.cells()[flat_idx(r2, c2, columns_i)]
                + adjacent_count_sum(
                data.params.solution.cells(),
                rows_i,
                columns_i,
                r2,
                c2,
            )) % states_i == objective_i by {
                lemma_flat_idx(r2, c2, rows_i, columns_i);
                assert(data.params.puzzle.cells()[flat_idx(r2, c2, columns_i)] == objective_i);
            }
            assert(counts_solve(
                pre.params.puzzle.cells(),
                data.params.solution.cells(),
                rows_i,
                columns_i,
                states_i,
                objective_i,
            ));
        }
    }
    data.params.puzzle = puzzle_backup.snapshot();
    if all_obj {
        data.params.solution.error = false;
        true
    } else {
        false
    }
}

/// The integer view of a vector of click counts.
pub open spec fn counts_view(s: Seq<usize>) -> Seq<int> {
    s.map_values(|x: usize| x as int)
}

/// `cells` after applying `clicks[r]` toggles at `(r, col)` for every row
/// from `row` to the bottom of column `col`.
pub open spec fn click_column(
    cells: Seq<int>,
    rows: int,
    columns: int,
    states: int,
    clicks: Seq<int>,
    col: int,
    row: int,
) -> Seq<int>
    decreases rows - row,
{
    if row < 0 || row >= rows {
        cells
    } else {
        click_column(
            click_cells(cells, columns, states, row, col, clicks[row]),
            rows,
            columns,
            states,
            clicks,
            col,
            row + 1,
        )
    }
}

/// The forced click counts for the column after `col`: for each row, the
/// unique count that finishes driving the just-fixed neighbor at
/// `(r, col)` to the objective.
pub open spec fn forced_clicks_col(
    cells: Seq<int>,
    rows: int,
    columns: int,
    states: int,
    objective: int,
    col: int,
) -> Seq<int> {
    Seq::new(rows as nat, |r: int| (objective - cells[flat_idx(r, col, columns)]) % states)
}

/// The puzzle cells after the by-column propagation trial has processed
/// columns `col` onward, seeded with the click counts `clicks`.
pub open spec fn propagate_cols(
    cells: Seq<int>,
    rows: int,
    columns: int,
    states: int,
    objective: int,
    clicks: Seq<int>,
    col: int,
) -> Seq<int>
    decreases columns - col,
{
    if col < 0 || col >= columns {
        cells
    } else {
        let after = click_column(cells, rows, columns, states, clicks, col, 0);
        propagate_cols(
            after,
            rows,
            columns,
            states,
            objective,
            forced_clicks_col(after, rows, columns, states, objective, col),
            col + 1,
        )
    }
}

/// `cells` after applying `clicks[c]` toggles at `(row, c)` for every
/// column from `col` to the end of row `row`.
pub open spec fn click_row(
    cells: Seq<int>,
    rows: int,
    columns: int,
    states: int,
    clicks: Seq<int>,
    row: int,
    col: int,
) -> Seq<int>
    decreases columns - col,
{
    if col < 0 || col >= columns {
        cells
    } else {
        click_row(
            click_cells(cells, columns, states, row, col, clicks[col]),
            rows,
            columns,
            states,
            clicks,
            row,
            col + 1,
        )
    }
}

/// The forced click counts for the row after `row`, mirroring
/// `forced_clicks_col`.
pub open spec fn forced_clicks_row(
    cells: Seq<int>,
    rows: int,
    columns: int,
    states: int,
    objective: int,
    row: int,
) -> Seq<int> {
    Seq::new(columns as nat, |c: int| (objective - cells[flat_idx(row, c, columns)]) % states)
}

/// The puzzle cells after the by-row propagation trial has processed rows
/// `row` onward, seeded with the click counts `clicks`.
pub open spec fn propagate_rows(
    cells: Seq<int>,
    rows: int,
    columns: int,
    states: int,
    objective: int,
    clicks: Seq<int>,
    row: int,
) -> Seq<int>
    decreases rows - row,
{
    if row < 0 || row >= rows {
        cells
    } else {
        let after = click_row(cells, rows, columns, states, clicks, row, 0);
        propagate_rows(
            after,
            rows,
            columns,
            states,
            objective,
            forced_clicks_row(after, rows, columns, states, objective, row),
            row + 1,
        )
    }
}

pub open spec fn all_at_objective(cells: Seq<int>, objective: int) -> bool {
    forall|k: int| 0 <= k < cells.len() ==> #[trigger] cells[k] == objective
}

/// The by-column trial seeded with `first` leaves every cell of `cells`
/// at the objective.
pub open spec fn by_col_succeeds(
    cells: Seq<int>,
    rows: int,
    columns: int,
    states: int,
    objective: int,
    first: Seq<int>,
) -> bool {
    all_at_objective(propagate_cols(cells, rows, columns, states, objective, first, 0), objective)
}

/// The by-row trial seeded with `first` leaves every cell of `cells` at
/// the objective.
pub open spec fn by_row_succeeds(
    cells: Seq<int>,
    rows: int,
    columns: int,
    states: int,
    objective: int,
    first: Seq<int>,
) -> bool {
    all_at_objective(propagate_rows(cells, rows, columns, states, objective, first, 0), objective)
}

/// The difference of two remainders, as the wrap-around branch computes it.
proof fn lemma_sub_mod(a: int, b: int, s: int)
    requires
        0 <= a < s,
        0 <= b < s,
    ensures
        (a - b) % s == if a >= b {
            a - b
        } else {
            a - b + s
        },
{
    if a >= b {
        vstd::arithmetic::div_mod::lemma_small_mod((a - b) as nat, s as nat);
    } else {
        vstd::arithmetic::div_mod::lemma_fundamental_div_mod_converse(a - b, s, -1, a - b + s);
    }
}

/// The parts of the state a reducer trial never changes.
pub open spec fn trial_frame(pre: SolverState, post: SolverState) -> bool {
    &&& post.params.rows == pre.params.rows
    &&& post.params.columns == pre.params.columns
    &&& post.params.states == pre.params.states
    &&& post.params.objective == pre.params.objective
    &&& post.params.play == pre.params.play
    &&& post.params.solve_time == pre.params.solve_time
    &&& post.params.solution.rows == pre.params.solution.rows
    &&& post.params.solution.columns == pre.params.solution.columns
    &&& post.params.solution.states == pre.params.solution.states
    &&& post.params.solution.play == pre.params.solution.play
}

/// Try one candidate vector of first-column click counts: record and apply
/// it column by column, deriving each later column's forced counts.  On
/// success the solution grid holds a sound click plan, its `error` flag is
/// cleared and the puzzle grid is restored from the backup; on failure the
/// puzzle grid is restored and the `error` flag is left alone.
#[verifier::loop_isolation(false)]
#[verifier::rlimit(60)]
pub fn solve_internal_by_col(
    data: &mut SolverState,
    puzzle_backup: &Grid,
    first_col_clicks: &Vec<usize>,
) -> (found: bool)
    requires
        old(data).wf(),
        puzzle_backup.like(old(data).params.puzzle),
        first_col_clicks@.len() == old(data).params.rows,
        forall|i: int|
            0 <= i < first_col_clicks@.len() ==> #[trigger] first_col_clicks@[i] < old(
                data,
            ).params.states,
    ensures
        final(data).wf(),
        trial_frame(*old(data), *final(data)),
        final(data).params.puzzle.like(old(data).params.puzzle),
        found ==> !final(data).params.solution.error,
        !found ==> final(data).params.solution.error == old(data).params.solution.error,
        found ==> counts_solve(
            final(data).params.puzzle.cells(),
            final(data).params.solution.cells(),
            final(data).params.rows as int,
            final(data).params.columns as int,
            final(data).params.states as int,
            final(data).params.objective as int,
        ),
        found == by_col_succeeds(
            old(data).params.puzzle.cells(),
            old(data).params.rows as int,
            old(data).params.columns as int,
            old(data).params.states as int,
            old(data).params.objective as int,
            counts_view(first_col_clicks@),
        ),
{
    let ghost pre = *data;
    let rows = data.params.rows;
    let columns = data.params.columns;
    let states = data.params.states;
    let objective = data.params.objective;
    let ghost rows_i = rows as int;
    let ghost columns_i = columns as int;
    let ghost states_i = states as int;
    let ghost objective_i = objective as int;
    let ghost mut counts: Seq<int> = Seq::new((rows_i * columns_i) as nat, |k: int| 0int);
    proof {
        assert forall|r2: int, c2: int| on_grid(r2, c2, rows_i, columns_i) implies (
        #[trigger] counts[flat_idx(r2, c2, columns_i)] == 0 && data.params.puzzle.cells()[flat_idx(
            r2,
            c2,
            columns_i,
        )] == (pre.params.puzzle.cells()[flat_idx(r2, c2, columns_i)] + adjacent_count_sum(
            counts,
            rows_i,
            columns_i,
            r2,
            c2,
        )) % states_i) by {
            lemma_flat_idx(r2, c2, rows_i, columns_i);
            if on_grid(r2 - 1, c2, rows_i, columns_i) {
                lemma_flat_idx(r2 - 1, c2, rows_i, columns_i);
            }
            if on_grid(r2 + 1, c2, rows_i, columns_i) {
                lemma_flat_idx(r2 + 1, c2, rows_i, columns_i);
            }
            if on_grid(r2, c2 - 1, rows_i, columns_i) {
                lemma_flat_idx(r2, c2 - 1, rows_i, columns_i);
            }
            if on_grid(r2, c2 + 1, rows_i, columns_i) {
                lemma_flat_idx(r2, c2 + 1, rows_i, columns_i);
            }
            vstd::arithmetic::div_mod::lemma_small_mod(
                pre.params.puzzle.cells()[flat_idx(r2, c2, columns_i)] as nat,
                states_i as nat,
            );
        }
        assert(clicks_transform(
            pre.params.puzzle.cells(),
            data.params.puzzle.cells(),
            counts,
            rows_i,
            columns_i,
            states_i,
        ));
    }
    let mut curr_col_clicks: Vec<usize> = Vec::new();
    let mut i: usize = 0;
    while i < first_col_clicks.len()
        invariant
            i <= first_col_clicks@.len(),
            curr_col_clicks@.len() == i,
            forall|j: int|
                0 <= j < first_col_clicks@.len() ==> #[trigger] first_col_clicks@[j] < states,
            forall|j: int| 0 <= j < i ==> #[trigger] curr_col_clicks@[j] == first_col_clicks@[j],
            forall|j: int| 0 <= j < i ==> #[trigger] curr_col_clicks@[j] < states,
        decreases first_col_clicks@.len() - i,
    {
        curr_col_clicks.push(first_col_clicks[i]);
        i = i + 1;
    }
    proof {
        assert(curr_col_clicks@ =~= first_col_clicks@);
    }
    let mut col: usize = 0;
    while col < columns
        invariant
            data.wf(),
            trial_frame(pre, *data),
            pre.wf(),
            col <= columns,
            rows_i == rows as int,
            columns_i == columns as int,
            states_i == states as int,
            objective_i == objective as int,
            rows == pre.params.rows,
            columns == pre.params.columns,
            states == pre.params.states,
            objective == pre.params.objective,
            data.params.puzzle.error == pre.params.puzzle.error,
            data.params.puzzle.play == pre.params.puzzle.play,
            data.params.solution.error == pre.params.solution.error,
            counts.len() == rows_i * columns_i,
            cells_in_range(counts, states_i),
            clicks_transform(
                pre.params.puzzle.cells(),
                data.params.puzzle.cells(),
                counts,
                rows_i,
                columns_i,
                states_i,
            ),
            forall|r2: int, c2: int|
                on_grid(r2, c2, rows_i, columns_i) && c2 >= col ==> #[trigger] counts[flat_idx(
                    r2,
                    c2,
                    columns_i,
                )] == 0,
            forall|r2: int, c2: int|
                on_grid(r2, c2, rows_i, columns_i) && c2 < col
                    ==> #[trigger] data.params.solution.cells()[flat_idx(r2, c2, columns_i)]
                    == counts[flat_idx(r2, c2, columns_i)],
            curr_col_clicks@.len() == rows,
            forall|j: int| 0 <= j < rows ==> #[trigger] curr_col_clicks@[j] < states,
            propagate_cols(
                data.params.puzzle.cells(),
                rows_i,
                columns_i,
                states_i,
                objective_i,
                counts_view(curr_col_clicks@),
                col as int,
            ) == propagate_cols(
                pre.params.puzzle.cells(),
                rows_i,
                columns_i,
                states_i,
                objective_i,
                counts_view(first_col_clicks@),
                0,
            ),
        decreases columns - col,
    {
        let ghost col_start_cells = data.params.puzzle.cells();
        let ghost curr_view_start = counts_view(curr_col_clicks@);
        let mut row: usize = 0;
        while row < rows
            invariant
                data.wf(),
                trial_frame(pre, *data),
                pre.wf(),
                col < columns,
                row <= rows,
                rows_i == rows as int,
                columns_i == columns as int,
                states_i == states as int,
                objective_i == objective as int,
                rows == pre.params.rows,
                columns == pre.params.columns,
                states == pre.params.states,
                objective == pre.params.objective,
                data.params.puzzle.error == pre.params.puzzle.error,
                data.params.puzzle.play == pre.params.puzzle.play,
                data.params.solution.error == pre.params.solution.error,
                counts.len() == rows_i * columns_i,
                cells_in_range(counts, states_i),
                clicks_transform(
                    pre.params.puzzle.cells(),
                    data.params.puzzle.cells(),
                    counts,
                    rows_i,
                    columns_i,
                    states_i,
                ),
                forall|r2: int, c2: int|
                    on_grid(r2, c2, rows_i, columns_i) && (c2 > col || (c2 == col && r2 >= row))
                        ==> #[trigger] counts[flat_idx(r2, c2, columns_i)] == 0,
                forall|r2: int, c2: int|
                    on_grid(r2, c2, rows_i, columns_i) && (c2 < col || (c2 == col && r2 < row))
                        ==> #[trigger] data.params.solution.cells()[flat_idx(r2, c2, columns_i)]
                        == counts[flat_idx(r2, c2, columns_i)],
                curr_col_clicks@.len() == rows,
                forall|j: int| 0 <= j < rows ==> #[trigger] curr_col_clicks@[j] < states,
                curr_view_start == counts_view(curr_col_clicks@),
                click_column(
                    data.params.puzzle.cells(),
                    rows_i,
                    columns_i,
                    states_i,
                    curr_view_start,
                    col as int,
                    row as int,
                ) == click_column(
                    col_start_cells,
                    rows_i,
                    columns_i,
                    states_i,
                    curr_view_start,
                    col as int,
                    0,
                ),
            decreases rows - row,
        {
            let n = curr_col_clicks[row];
            let coord = GridCoord { row, col };
            let ghost cells_before_click = data.params.puzzle.cells();
            data.params.solution.set_cell_state(coord, n);
            proof {
                lemma_flat_idx(row as int, col as int, rows_i, columns_i);
                lemma_click_extends_transform(
                    pre.params.puzzle.cells(),
                    data.params.puzzle.cells(),
                    counts,
                    rows_i,
                    columns_i,
                    states_i,
                    row as int,
                    col as int,
                    n as int,
                );
            }
            data.params.puzzle.click_adjacent_unchecked(coord, n);
            proof {
                let idx0 = flat_idx(row as int, col as int, columns_i);
                counts = counts.update(idx0, n as int);
                assert forall|r2: int, c2: int|
                    on_grid(r2, c2, rows_i, columns_i) && (c2 > col || (c2 == col && r2 >= row
                        + 1)) implies #[trigger] counts[flat_idx(r2, c2, columns_i)] == 0 by {
                    lemma_flat_idx(r2, c2, rows_i, columns_i);
                }
                assert forall|r2: int, c2: int|
                    on_grid(r2, c2, rows_i, columns_i) && (c2 < col || (c2 == col && r2 < row
                        + 1)) implies #[trigger] data.params.solution.cells()[flat_idx(
                    r2,
                    c2,
                    columns_i,
                )] == counts[flat_idx(r2, c2, columns_i)] by {
                    lemma_flat_idx(r2, c2, rows_i, columns_i);
                }
                assert(curr_view_start[row as int] == n as int);
                assert(data.params.puzzle.cells() == click_cells(
                    cells_before_click,
                    columns_i,
                    states_i,
                    row as int,
                    col as int,
                    n as int,
                ));
                assert(click_column(
                    cells_before_click,
                    rows_i,
                    columns_i,
                    states_i,
                    curr_view_start,
                    col as int,
                    row as int,
                ) == click_column(
                    data.params.puzzle.cells(),
                    rows_i,
                    columns_i,
                    states_i,
                    curr_view_start,
                    col as int,
                    row as int + 1,
                ));
            }
            row = row + 1;
        }
        proof {
            assert(click_column(
                data.params.puzzle.cells(),
                rows_i,
                columns_i,
                states_i,
                curr_view_start,
                col as int,
                rows_i,
            ) == data.params.puzzle.cells());
            assert(data.params.puzzle.cells() == click_column(
                col_start_cells,
                rows_i,
                columns_i,
                states_i,
                curr_view_start,
                col as int,
                0,
            ));
        }
        let mut next_clicks: Vec<usize> = Vec::new();
        let mut r: usize = 0;
        while r < rows
            invariant
                data.wf(),
                col < columns,
                r <= rows,
                rows == data.params.rows,
                columns == data.params.columns,
                states == data.params.states,
                objective < states,
                next_clicks@.len() == r,
                forall|j: int| 0 <= j < r ==> #[trigger] next_clicks@[j] < states,
                forall|j: int|
                    0 <= j < r ==> #[trigger] next_clicks@[j] as int == (objective_i
                        - data.params.puzzle.cells()[flat_idx(j, col as int, columns_i)])
                        % states_i,
            decreases rows - r,
        {
            let s_cur = data.params.puzzle.cell_state(GridCoord { row: r, col });
            let d = if objective >= s_cur {
                objective - s_cur
            } else {
                states - (s_cur - objective)
            };
            proof {
                lemma_flat_idx(r as int, col as int, rows_i, columns_i);
                lemma_sub_mod(objective_i, s_cur as int, states_i);
            }
            next_clicks.push(d);
            r = r + 1;
        }
        proof {
            assert(counts_view(next_clicks@) =~= forced_clicks_col(
                data.params.puzzle.cells(),
                rows_i,
                columns_i,
                states_i,
                objective_i,
                col as int,
            ));
            assert(propagate_cols(
                col_start_cells,
                rows_i,
                columns_i,
                states_i,
                objective_i,
                curr_view_start,
                col as int,
            ) == propagate_cols(
                data.params.puzzle.cells(),
                rows_i,
                columns_i,
                states_i,
                objective_i,
                counts_view(next_clicks@),
                col as int + 1,
            ));
        }
        curr_col_clicks = next_clicks;
        col = col + 1;
    }
    let total = data.params.puzzle.storage.len();
    let mut all_obj = true;
    let mut k: usize = 0;
    while k < total
        invariant
            data.wf(),
            total == data.params.puzzle.storage.len(),
            k <= total,
            objective_i == objective as int,
            all_obj <==> (forall|j: int|
                0 <= j < k ==> #[trigger] data.params.puzzle.cells()[j] == objective_i),
        decreases total - k,
    {
        let state = data.params.puzzle.storage[k].state;
        proof {
            assert(data.params.puzzle.cells()[k as int] == state as int);
        }
        if state != objective {
            all_obj = false;
        }
        k = k + 1;
    }
    proof {
        assert(propagate_cols(
            data.params.puzzle.cells(),
            rows_i,
            columns_i,
            states_i,
            objective_i,
            counts_view(curr_col_clicks@),
            columns_i,
        ) == data.params.puzzle.cells());
        assert(data.params.puzzle.cells() == propagate_cols(
            pre.params.puzzle.cells(),
            rows_i,
            columns_i,
            states_i,
            objective_i,
            counts_view(first_col_clicks@),
            0,
        ));
        assert(data.params.puzzle.cells().len() == total);
        assert(all_obj == all_at_objective(data.params.puzzle.cells(), objective_i));
    }
    proof {
        if all_obj {
            assert forall|j: int| 0 <= j < counts.len() implies counts[j]
                == data.params.solution.cells()[j] by {
                assert(columns_i > 0) by (nonlinear_arith)
                    requires
                        0 <= j < rows_i * columns_i,
                        0 <= columns_i,
                        0 <= rows_i,
                ;
                lemma_flat_idx_inverse(j, rows_i, columns_i);
            }
            assert(counts =~= data.params.solution.cells());
            assert forall|r2: int, c2: int| on_grid(r2, c2, rows_i, columns_i) implies (
            #[trigger] pre.params.puzzle.cells()[flat_idx(r2, c2, columns_i)]
                + adjacent_count_sum(
                data.params.solution.cells(),
                rows_i,
                columns_i,
                r2,
                c2,
            )) % states_i == objective_i by {
                lemma_flat_idx(r2, c2, rows_i, columns_i);
                assert(counts =~= data.params.solution.cells());
                assert(data.params.puzzle.cells()[flat_idx(r2, c2, columns_i)] == objective_i);
            }
            assert(counts_solve(
                pre.params.puzzle.cells(),
                data.params.solution.cells(),
                rows_i,
                columns_i,
                states_i,
                objective_i,
            ));
        }
    }
    data.params.puzzle = puzzle_backup.snapshot();
    if all_obj {
        data.params.solution.error = false;
        true
    } else {
        false
    }
}

/// The length of the enumerated first slice: the shorter dimension.
pub open spec fn min_dim(rows: int, columns: int) -> int {
    if rows < columns {
        rows
    } else {
        columns
    }
}

/// `first` is a candidate vector of the given length with every count in
/// range whose enumeration index falls in the partition that starts at
/// `offset` and steps by `stride`.
pub open spec fn partition_candidate(
    first: Seq<usize>,
    len: int,
    states: int,
    offset: int,
    stride: int,
) -> bool {
    &&& first.len() == len
    &&& (forall|i: int| 0 <= i < first.len() ==> #[trigger] first[i] < states)
    &&& candidate_value(first, states) >= offset
    &&& (candidate_value(first, states) - offset) % stride == 0
}

/// The propagation trial the reducer runs for this grid shape: by column
/// when the grid has fewer rows than columns, else by row.
pub open spec fn trial_succeeds(
    cells: Seq<int>,
    rows: int,
    columns: int,
    states: int,
    objective: int,
    first: Seq<int>,
) -> bool {
    if rows < columns {
        by_col_succeeds(cells, rows, columns, states, objective, first)
    } else {
        by_row_succeeds(cells, rows, columns, states, objective, first)
    }
}

/// Some first-slice candidate makes the propagation trial succeed: the
/// exact condition under which the reducers report a solution.
pub open spec fn some_candidate_succeeds(
    cells: Seq<int>,
    rows: int,
    columns: int,
    states: int,
    objective: int,
) -> bool {
    exists|first: Seq<usize>|
        partition_candidate(first, min_dim(rows, columns), states, 0, 1) && trial_succeeds(
            cells,
            rows,
            columns,
            states,
            objective,
            counts_view(first),
        )
}

/// Run the candidate trials whose enumeration indices are `offset`,
/// `offset + stride`, `offset + 2 * stride`, and so on: the partition a
/// single worker of the parallel reducer owns.  Offset 0 with stride 1 is
/// the full sequential search.  A solution is found exactly when some
/// candidate of the partition makes the propagation trial succeed; the
/// winning click plan is left in the solution grid with `error` cleared.
#[verifier::loop_isolation(false)]
#[verifier::rlimit(60)]
pub fn solve_partition(
    data: &mut SolverState,
    puzzle_backup: &Grid,
    offset: usize,
    stride: usize,
) -> (found: bool)
    requires
        old(data).wf(),
        puzzle_backup.like(old(data).params.puzzle),
        stride >= 1,
    ensures
        final(data).wf(),
        trial_frame(*old(data), *final(data)),
        final(data).params.puzzle.like(old(data).params.puzzle),
        found ==> !final(data).params.solution.error,
        !found ==> final(data).params.solution.error == old(data).params.solution.error,
        found ==> counts_solve(
            final(data).params.puzzle.cells(),
            final(data).params.solution.cells(),
            final(data).params.rows as int,
            final(data).params.columns as int,
            final(data).params.states as int,
            final(data).params.objective as int,
        ),
        found == (exists|first: Seq<usize>|
            partition_candidate(
                first,
                min_dim(old(data).params.rows as int, old(data).params.columns as int),
                old(data).params.states as int,
                offset as int,
                stride as int,
            ) && trial_succeeds(
                old(data).params.puzzle.cells(),
                old(data).params.rows as int,
                old(data).params.columns as int,
                old(data).params.states as int,
                old(data).params.objective as int,
                counts_view(first),
            )),
{
    let ghost pre = *data;
    let rows = data.params.rows;
    let columns = data.params.columns;
    let states = data.params.states;
    let ghost rows_i = rows as int;
    let ghost columns_i = columns as int;
    let ghost states_i = states as int;
    let ghost objective_i = data.params.objective as int;
    let ghost offset_i = offset as int;
    let ghost stride_i = stride as int;
    let by_col = rows < columns;
    let len = if by_col {
        rows
    } else {
        columns
    };
    let ghost len_i = len as int;
    let mut clicks: Vec<usize> = Vec::new();
    let mut z: usize = 0;
    while z < len
        invariant
            z <= len,
            clicks@.len() == z,
            forall|j2: int| 0 <= j2 < z ==> #[trigger] clicks@[j2] == 0,
        decreases len - z,
    {
        clicks.push(0);
        z = z + 1;
    }
    proof {
        lemma_candidate_value_zero(clicks@, states_i);
    }
    let mut alive = true;
    let mut k: usize = 0;
    while k < offset && alive
        invariant
            k <= offset,
            clicks@.len() == len,
            forall|j2: int| 0 <= j2 < len ==> #[trigger] clicks@[j2] < states,
            alive ==> candidate_value(clicks@, states_i) == k,
            !alive ==> pow(states_i, len as nat) == k,
        decreases offset - k,
    {
        let ghost prev = clicks@;
        alive = next_candidate(&mut clicks, states);
        proof {
            if !alive {
                lemma_candidate_value_max(prev, states_i);
            }
        }
        k = k + 1;
    }
    proof {
        if alive {
            vstd::arithmetic::div_mod::lemma_small_mod(0nat, stride_i as nat);
        } else {
            assert forall|first: Seq<usize>| #[trigger] partition_candidate(
                first,
                len_i,
                states_i,
                offset_i,
                stride_i,
            ) implies !trial_succeeds(
                pre.params.puzzle.cells(),
                rows_i,
                columns_i,
                states_i,
                objective_i,
                counts_view(first),
            ) by {
                lemma_candidate_value_bounds(first, states_i);
            }
        }
    }
    while alive
        invariant
            data.wf(),
            trial_frame(pre, *data),
            data.params.puzzle.like(pre.params.puzzle),
            data.params.solution.error == pre.params.solution.error,
            clicks@.len() == len,
            forall|j2: int| 0 <= j2 < len ==> #[trigger] clicks@[j2] < states,
            alive ==> candidate_value(clicks@, states_i) >= offset_i,
            alive ==> (candidate_value(clicks@, states_i) - offset_i) % stride_i == 0,
            alive ==> forall|first: Seq<usize>| #[trigger] partition_candidate(
                first,
                len_i,
                states_i,
                offset_i,
                stride_i,
            ) && candidate_value(first, states_i) < candidate_value(clicks@, states_i)
                ==> !trial_succeeds(
                pre.params.puzzle.cells(),
                rows_i,
                columns_i,
                states_i,
                objective_i,
                counts_view(first),
            ),
            !alive ==> forall|first: Seq<usize>| #[trigger] partition_candidate(
                first,
                len_i,
                states_i,
                offset_i,
                stride_i,
            ) ==> !trial_succeeds(
                pre.params.puzzle.cells(),
                rows_i,
                columns_i,
                states_i,
                objective_i,
                counts_view(first),
            ),
        decreases
                (if alive {
                    1int
                } else {
                    0int
                }),
                pow(states_i, len as nat) - candidate_value(clicks@, states_i),
    {
        let ghost cur_view = clicks@;
        let ghost cells_at_call = data.params.puzzle.cells();
        let found = if by_col {
            solve_internal_by_col(data, puzzle_backup, &clicks)
        } else {
            solve_internal_by_row(data, puzzle_backup, &clicks)
        };
        proof {
            assert(cells_at_call == pre.params.puzzle.cells());
            assert(found == trial_succeeds(
                pre.params.puzzle.cells(),
                rows_i,
                columns_i,
                states_i,
                objective_i,
                counts_view(cur_view),
            ));
        }
        if found {
            proof {
                assert(partition_candidate(clicks@, len_i, states_i, offset_i, stride_i));
                assert(partition_candidate(
                    clicks@,
                    min_dim(rows_i, columns_i),
                    states_i,
                    offset_i,
                    stride_i,
                ));
            }
            return true;
        }
        let ghost val_start = candidate_value(clicks@, states_i);
        let mut j: usize = 0;
        while j < stride && alive
            invariant
                j <= stride,
                clicks@.len() == len,
                forall|j2: int| 0 <= j2 < len ==> #[trigger] clicks@[j2] < states,
                alive ==> candidate_value(clicks@, states_i) == val_start + j,
                !alive ==> pow(states_i, len as nat) == val_start + j,
            decreases stride - j,
        {
            let ghost prev = clicks@;
            alive = next_candidate(&mut clicks, states);
            proof {
                if !alive {
                    lemma_candidate_value_max(prev, states_i);
                }
            }
            j = j + 1;
        }
        proof {
            let bound: int = if alive {
                candidate_value(clicks@, states_i)
            } else {
                pow(states_i, len as nat)
            };
            assert forall|first: Seq<usize>| #[trigger] partition_candidate(
                first,
                len_i,
                states_i,
                offset_i,
                stride_i,
            ) && candidate_value(first, states_i) < bound implies !trial_succeeds(
                pre.params.puzzle.cells(),
                rows_i,
                columns_i,
                states_i,
                objective_i,
                counts_view(first),
            ) by {
                let vf = candidate_value(first, states_i);
                if vf == val_start {
                    lemma_candidate_value_injective(first, cur_view, states_i);
                } else if vf > val_start {
                    lemma_stride_gap(val_start - offset_i, vf - offset_i, stride_i);
                    assert(vf >= val_start + stride_i);
                    assert(bound <= val_start + stride_i);
                    assert(false);
                }
            }
            if alive {
                lemma_candidate_value_bounds(clicks@, states_i);
                vstd::arithmetic::div_mod::lemma_mod_multiples_vanish(
                    1,
                    val_start - offset_i,
                    stride_i,
                );
            } else {
                assert forall|first: Seq<usize>| #[trigger] partition_candidate(
                    first,
                    len_i,
                    states_i,
                    offset_i,
                    stride_i,
                ) implies !trial_succeeds(
                    pre.params.puzzle.cells(),
                    rows_i,
                    columns_i,
                    states_i,
                    objective_i,
                    counts_view(first),
                ) by {
                    lemma_candidate_value_bounds(first, states_i);
                }
            }
        }
    }
    proof {
        assert forall|first: Seq<usize>| #[trigger] partition_candidate(
            first,
            min_dim(rows_i, columns_i),
            states_i,
            offset_i,
            stride_i,
        ) implies !trial_succeeds(
            pre.params.puzzle.cells(),
            rows_i,
            columns_i,
            states_i,
            objective_i,
            counts_view(first),
        ) by {
            assert(partition_candidate(first, len_i, states_i, offset_i, stride_i));
        }
    }
    false
}

/// The workers of the parallel reducer jointly cover exactly the full
/// candidate space: some worker's round-robin partition holds a
/// succeeding candidate exactly when some candidate succeeds at all.
/// With `solve_partition`'s contract this makes the parallel and the
/// sequential reducer agree on solvability — on the `error` flag — for
/// every instance, whichever worker wins.
pub proof fn lemma_partitions_cover(
    cells: Seq<int>,
    rows: int,
    columns: int,
    states: int,
    objective: int,
    threads: int,
)
    requires
        threads >= 1,
    ensures
        (exists|i: int, first: Seq<usize>|
            #![trigger partition_candidate(first, min_dim(rows, columns), states, i, threads)]
            0 <= i < threads && partition_candidate(
                first,
                min_dim(rows, columns),
                states,
                i,
                threads,
            ) && trial_succeeds(cells, rows, columns, states, objective, counts_view(first)))
            <==> some_candidate_succeeds(cells, rows, columns, states, objective),
{
    let len = min_dim(rows, columns);
    if exists|i: int, first: Seq<usize>|
        #![trigger partition_candidate(first, min_dim(rows, columns), states, i, threads)]
        0 <= i < threads && partition_candidate(first, len, states, i, threads) && trial_succeeds(
            cells,
            rows,
            columns,
            states,
            objective,
            counts_view(first),
        ) {
        let (i, first) = choose|i: int, first: Seq<usize>|
            #![trigger partition_candidate(first, min_dim(rows, columns), states, i, threads)]
            0 <= i < threads && partition_candidate(first, len, states, i, threads)
                && trial_succeeds(cells, rows, columns, states, objective, counts_view(first));
        let v = candidate_value(first, states);
        vstd::arithmetic::div_mod::lemma_fundamental_div_mod_converse(v, 1, v, 0);
        assert(partition_candidate(first, len, states, 0, 1));
    }
    if some_candidate_succeeds(cells, rows, columns, states, objective) {
        let first = choose|first: Seq<usize>|
            partition_candidate(first, len, states, 0, 1) && trial_succeeds(
                cells,
                rows,
                columns,
                states,
                objective,
                counts_view(first),
            );
        let v = candidate_value(first, states);
        vstd::arithmetic::div_mod::lemma_fundamental_div_mod(v, threads);
        let q = v / threads;
        let i = v % threads;
        assert(0 <= i < threads) by (nonlinear_arith)
            requires
                threads >= 1,
                v >= 0,
                i == v % threads,
        ;
        assert(v - i == threads * q);
        vstd::arithmetic::div_mod::lemma_mod_multiples_vanish(q, 0, threads);
        vstd::arithmetic::div_mod::lemma_small_mod(0nat, threads as nat);
        assert((v - i) % threads == 0);
        assert(partition_candidate(first, len, states, i, threads));
    }
}

/// The sequential brute-force reducer.
pub struct Internal;

impl Solver for Internal {
    fn solve(&self, data: &mut SolverState) -> (r: Result<(), SolvingError>)
        ensures
            r is Ok,
            final(data).params.solution.error == !some_candidate_succeeds(
                old(data).params.puzzle.cells(),
                old(data).params.rows as int,
                old(data).params.columns as int,
                old(data).params.states as int,
                old(data).params.objective as int,
            ),
    {
        let puzzle_backup = data.params.puzzle.snapshot();
        data.params.solution.error = true;
        solve_partition(data, &puzzle_backup, 0, 1);
        Ok(())
    }
}

/// The parallel brute-force reducer: the same candidate space as
/// `Internal`, partitioned round-robin across `threads` workers (0 means
/// the host's available parallelism).  Each worker runs
/// `solve_partition`-shaped trials on a private copy of the state; the
/// thread pool, cancellation flag and result channel live with the
/// embedding application, outside this library.
pub struct InternalPar {
    pub threads: usize,
}

/// Whether the click counts recorded in `solution` really drive every
/// `puzzle` cell to the objective state.
#[verifier::loop_isolation(false)]
pub fn check_solution(puzzle: &Grid, solution: &Grid, objective: usize) -> (ok: bool)
    requires
        puzzle.wf(),
        solution.wf(),
        solution.same_shape(*puzzle),
        objective < puzzle.states,
    ensures
        ok == counts_solve(
            puzzle.cells(),
            solution.cells(),
            puzzle.rows as int,
            puzzle.columns as int,
            puzzle.states as int,
            objective as int,
        ),
{
    let rows = puzzle.rows;
    let columns = puzzle.columns;
    let states = puzzle.states;
    let ghost rows_i = rows as int;
    let ghost columns_i = columns as int;
    let ghost states_i = states as int;
    let ghost objective_i = objective as int;
    let ghost cond = |r2: int, c2: int|
        (puzzle.cells()[flat_idx(r2, c2, columns_i)] + adjacent_count_sum(
            solution.cells(),
            rows_i,
            columns_i,
            r2,
            c2,
        )) % states_i == objective_i;
    let mut ok = true;
    let mut r: usize = 0;
    while r < rows
        invariant
            r <= rows,
            ok <==> (forall|r2: int, c2: int|
                on_grid(r2, c2, rows_i, columns_i) && r2 < r ==> #[trigger] cond(r2, c2)),
        decreases rows - r,
    {
        let mut c: usize = 0;
        while c < columns
            invariant
                r < rows,
                c <= columns,
                ok <==> (forall|r2: int, c2: int|
                    on_grid(r2, c2, rows_i, columns_i) && (r2 < r || (r2 == r && c2 < c))
                        ==> #[trigger] cond(r2, c2)),
            decreases columns - c,
        {
            let base = puzzle.cell_state(GridCoord { row: r, col: c });
            let mut sum: u128 = base as u128;
            if r >= 1 {
                sum = sum + solution.cell_state(GridCoord { row: r - 1, col: c }) as u128;
            }
            if r + 1 < rows {
                sum = sum + solution.cell_state(GridCoord { row: r + 1, col: c }) as u128;
            }
            if c >= 1 {
                sum = sum + solution.cell_state(GridCoord { row: r, col: c - 1 }) as u128;
            }
            if c + 1 < columns {
                sum = sum + solution.cell_state(GridCoord { row: r, col: c + 1 }) as u128;
            }
            sum = sum + solution.cell_state(GridCoord { row: r, col: c }) as u128;
            proof {
                lemma_flat_idx(r as int, c as int, rows_i, columns_i);
                if on_grid(r - 1, c as int, rows_i, columns_i) {
                    lemma_flat_idx(r - 1, c as int, rows_i, columns_i);
                }
                if on_grid(r + 1, c as int, rows_i, columns_i) {
                    lemma_flat_idx(r + 1, c as int, rows_i, columns_i);
                }
                if on_grid(r as int, c - 1, rows_i, columns_i) {
                    lemma_flat_idx(r as int, c - 1, rows_i, columns_i);
                }
                if on_grid(r as int, c + 1, rows_i, columns_i) {
                    lemma_flat_idx(r as int, c + 1, rows_i, columns_i);
                }
                assert(sum as int == puzzle.cells()[flat_idx(r as int, c as int, columns_i)]
                    + adjacent_count_sum(solution.cells(), rows_i, columns_i, r as int, c as int));
            }
            let rem = sum % (states as u128);
            if rem != objective as u128 {
                proof {
                    assert(!cond(r as int, c as int));
                }
                ok = false;
            }
            proof {
                if ok {
                    assert(cond(r as int, c as int));
                }
                assert forall|r2: int, c2: int|
                    on_grid(r2, c2, rows_i, columns_i) && (r2 < r || (r2 == r && c2 < c + 1))
                        && (ok) implies #[trigger] cond(r2, c2) by {}
            }
            c = c + 1;
        }
        r = r + 1;
    }
    proof {
        if ok {
            assert forall|r2: int, c2: int| on_grid(r2, c2, rows_i, columns_i) implies (
            #[trigger] puzzle.cells()[flat_idx(r2, c2, columns_i)] + adjacent_count_sum(
                solution.cells(),
                rows_i,
                columns_i,
                r2,
                c2,
            )) % states_i == objective_i by {
                assert(cond(r2, c2));
            }
        } else {
            let (r2, c2) = choose|r2: int, c2: int|
                on_grid(r2, c2, rows_i, columns_i) && !cond(r2, c2);
            assert((puzzle.cells()[flat_idx(r2, c2, columns_i)] + adjacent_count_sum(
                solution.cells(),
                rows_i,
                columns_i,
                r2,
                c2,
            )) % states_i != objective_i);
        }
    }
    ok
}

impl SolverState {
    /// Clear the recorded solve time and run the internal sequential
    /// reducer on the instance.  Strategy selection among the available
    /// solvers, wall-clock timing, and the parallel and external-solver
    /// drivers live with the embedding application; this entry point is
    /// the self-contained strategy.
    pub fn solve(&mut self) -> (r: Result<(), SolvingError>)
        requires
            old(self).wf(),
        ensures
            final(self).wf(),
            r is Ok,
            final(self).params.rows == old(self).params.rows,
            final(self).params.columns == old(self).params.columns,
            final(self).params.states == old(self).params.states,
            final(self).params.objective == old(self).params.objective,
            final(self).params.play == old(self).params.play,
            final(self).params.puzzle.like(old(self).params.puzzle),
            final(self).params.solve_time@ == Seq::<char>::empty(),
            !final(self).params.solution.error ==> counts_solve(
                final(self).params.puzzle.cells(),
                final(self).params.solution.cells(),
                final(self).params.rows as int,
                final(self).params.columns as int,
                final(self).params.states as int,
                final(self).params.objective as int,
            ),
            final(self).params.solution.error == !some_candidate_succeeds(
                old(self).params.puzzle.cells(),
                old(self).params.rows as int,
                old(self).params.columns as int,
                old(self).params.states as int,
                old(self).params.objective as int,
            ),
    {
        self.params.solve_time = String::new();
        let puzzle_backup = self.params.puzzle.snapshot();
        self.params.solution.error = true;
        solve_partition(self, &puzzle_backup, 0, 1);
        Ok(())
    }
}

} // verus!
