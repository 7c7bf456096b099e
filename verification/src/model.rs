//! Mathematical model of the puzzle: cell states as a row-major sequence of
//! integers, the plus-shaped toggle rule, and what it means for an
//! assignment of click counts to solve a puzzle.

use vstd::prelude::*;

verus! {

use vstd::arithmetic::div_mod::{
    lemma_add_mod_noop, lemma_fundamental_div_mod_converse, lemma_mod_multiples_vanish,
    lemma_small_mod,
};

/// Row-major flat index of the cell at row `r`, column `c`.
pub open spec fn flat_idx(r: int, c: int, columns: int) -> int {
    r * columns + c
}

/// `(r, c)` lies on an `rows x columns` grid.
pub open spec fn on_grid(r: int, c: int, rows: int, columns: int) -> bool {
    0 <= r < rows && 0 <= c < columns
}

/// Two coordinates are adjacent when their Manhattan distance is at most 1:
/// a cell together with its up/down/left/right neighbors (a plus pattern).
pub open spec fn is_adjacent(r1: int, c1: int, r2: int, c2: int) -> bool {
    vstd::math::abs(r1 - r2) + vstd::math::abs(c1 - c2) <= 1
}

/// Every state lies in `[0, states)`.
pub open spec fn cells_in_range(cells: Seq<int>, states: int) -> bool {
    forall|k: int| 0 <= k < cells.len() ==> 0 <= #[trigger] cells[k] < states
}

/// The cell states after `n` toggles applied at `(r0, c0)` and at every
/// adjacent cell on the grid.
pub open spec fn click_cells(
    cells: Seq<int>,
    columns: int,
    states: int,
    r0: int,
    c0: int,
    n: int,
) -> Seq<int> {
    Seq::new(
        cells.len(),
        |k: int|
            if is_adjacent(k / columns, k % columns, r0, c0) {
                (cells[k] + n) % states
            } else {
                cells[k]
            },
    )
}

/// The click count that `counts` assigns to `(r, c)`, or 0 off the grid.
pub open spec fn count_at(counts: Seq<int>, rows: int, columns: int, r: int, c: int) -> int {
    if on_grid(r, c, rows, columns) {
        counts[flat_idx(r, c, columns)]
    } else {
        0
    }
}

/// Total number of toggles that the click counts in `counts` apply to the
/// cell at `(r, c)`: the counts of the cell itself and of its plus-shaped
/// neighbors.
pub open spec fn adjacent_count_sum(
    counts: Seq<int>,
    rows: int,
    columns: int,
    r: int,
    c: int,
) -> int {
    count_at(counts, rows, columns, r - 1, c) + count_at(counts, rows, columns, r + 1, c)
        + count_at(counts, rows, columns, r, c - 1) + count_at(counts, rows, columns, r, c + 1)
        + count_at(counts, rows, columns, r, c)
}

/// Clicking `counts[k]` times at every cell `k` turns the states `before`
/// into the states `after`.
pub open spec fn clicks_transform(
    before: Seq<int>,
    after: Seq<int>,
    counts: Seq<int>,
    rows: int,
    columns: int,
    states: int,
) -> bool {
    &&& before.len() == rows * columns
    &&& after.len() == rows * columns
    &&& counts.len() == rows * columns
    &&& forall|r: int, c: int|
        on_grid(r, c, rows, columns) ==> #[trigger] after[flat_idx(r, c, columns)] == (before[flat_idx(
            r,
            c,
            columns,
        )] + adjacent_count_sum(counts, rows, columns, r, c)) % states
}

/// The click counts in `counts` solve the puzzle `cells`: applying them
/// drives every cell to the objective state.
pub open spec fn counts_solve(
    cells: Seq<int>,
    counts: Seq<int>,
    rows: int,
    columns: int,
    states: int,
    objective: int,
) -> bool {
    &&& cells.len() == rows * columns
    &&& counts.len() == rows * columns
    &&& forall|r: int, c: int|
        on_grid(r, c, rows, columns) ==> (#[trigger] cells[flat_idx(r, c, columns)]
            + adjacent_count_sum(counts, rows, columns, r, c)) % states == objective
}

/// Some assignment of in-range click counts drives every cell of `cells` to
/// the objective state.
pub open spec fn solvable(
    cells: Seq<int>,
    rows: int,
    columns: int,
    states: int,
    objective: int,
) -> bool {
    exists|counts: Seq<int>|
        cells_in_range(counts, states) && counts_solve(
            cells,
            counts,
            rows,
            columns,
            states,
            objective,
        )
}

/// `cells` after `k` repetitions of the same click of `n` toggles at
/// `(r0, c0)`.
pub open spec fn iter_click_cells(
    cells: Seq<int>,
    columns: int,
    states: int,
    r0: int,
    c0: int,
    n: int,
    k: nat,
) -> Seq<int>
    decreases k,
{
    if k == 0 {
        cells
    } else {
        click_cells(
            iter_click_cells(cells, columns, states, r0, c0, n, (k - 1) as nat),
            columns,
            states,
            r0,
            c0,
            n,
        )
    }
}

/// Folding `(x % s + t) % s` into `(x + t) % s`.
proof fn lemma_mod_add_collapse(x: int, t: int, s: int)
    requires
        0 < s,
    ensures
        ((x % s) + t) % s == (x + t) % s,
{
    vstd::arithmetic::div_mod::lemma_add_mod_noop_right(x % s, t, s);
    lemma_add_mod_noop(x, t, s);
}

/// After `k` repetitions of one click, every affected cell holds its
/// original state advanced by `k * n` toggles.
proof fn lemma_iter_click_cell(
    cells: Seq<int>,
    columns: int,
    states: int,
    r0: int,
    c0: int,
    n: int,
    k: nat,
)
    requires
        states >= 1,
        0 <= n,
        cells_in_range(cells, states),
    ensures
        iter_click_cells(cells, columns, states, r0, c0, n, k).len() == cells.len(),
        forall|i: int|
            0 <= i < cells.len() ==> iter_click_cells(cells, columns, states, r0, c0, n, k)[i]
                == if is_adjacent(i / columns, i % columns, r0, c0) {
                (cells[i] + k * n) % states
            } else {
                cells[i]
            },
    decreases k,
{
    if k == 0 {
        assert(k * n == 0) by (nonlinear_arith)
            requires
                k == 0,
        ;
        assert forall|i: int| 0 <= i < cells.len() implies cells[i] == if is_adjacent(
            i / columns,
            i % columns,
            r0,
            c0,
        ) {
            (cells[i] + k * n) % states
        } else {
            cells[i]
        } by {
            lemma_small_mod(cells[i] as nat, states as nat);
        }
    } else {
        lemma_iter_click_cell(cells, columns, states, r0, c0, n, (k - 1) as nat);
        let prev = iter_click_cells(cells, columns, states, r0, c0, n, (k - 1) as nat);
        assert forall|i: int| 0 <= i < cells.len() implies iter_click_cells(
            cells,
            columns,
            states,
            r0,
            c0,
            n,
            k,
        )[i] == if is_adjacent(i / columns, i % columns, r0, c0) {
            (cells[i] + k * n) % states
        } else {
            cells[i]
        } by {
            if is_adjacent(i / columns, i % columns, r0, c0) {
                assert(prev[i] == (cells[i] + (k - 1) * n) % states);
                lemma_mod_add_collapse(cells[i] + (k - 1) * n, n, states);
                assert(cells[i] + (k - 1) * n + n == cells[i] + k * n) by (nonlinear_arith);
            }
        }
    }
}

/// Full-period nilpotency of the toggle rule: one click of `n` toggles,
/// repeated `states` times at the same coordinate, returns every affected
/// cell to its pre-click state.
pub proof fn lemma_click_full_period(
    cells: Seq<int>,
    columns: int,
    states: int,
    r0: int,
    c0: int,
    n: int,
)
    requires
        states >= 1,
        0 <= n,
        cells_in_range(cells, states),
    ensures
        iter_click_cells(cells, columns, states, r0, c0, n, states as nat) == cells,
{
    lemma_iter_click_cell(cells, columns, states, r0, c0, n, states as nat);
    let result = iter_click_cells(cells, columns, states, r0, c0, n, states as nat);
    assert forall|i: int| 0 <= i < cells.len() implies result[i] == cells[i] by {
        if is_adjacent(i / columns, i % columns, r0, c0) {
            assert((states as nat) * n == states * n);
            lemma_mod_multiples_vanish(n, cells[i], states);
            lemma_small_mod(cells[i] as nat, states as nat);
        }
    }
    assert(result =~= cells);
}

/// A cell's flat index determines its coordinates and lies inside storage.
pub proof fn lemma_flat_idx(r: int, c: int, rows: int, columns: int)
    requires
        on_grid(r, c, rows, columns),
    ensures
        0 <= flat_idx(r, c, columns) < rows * columns,
        flat_idx(r, c, columns) / columns == r,
        flat_idx(r, c, columns) % columns == c,
{
    lemma_fundamental_div_mod_converse(r * columns + c, columns, r, c);
    assert(0 <= r * columns + c < rows * columns) by (nonlinear_arith)
        requires
            0 <= r < rows,
            0 <= c < columns,
    ;
}

/// Conversely, a flat storage index determines an on-grid coordinate.
pub proof fn lemma_flat_idx_inverse(k: int, rows: int, columns: int)
    requires
        0 <= k < rows * columns,
        0 < columns,
    ensures
        on_grid(k / columns, k % columns, rows, columns),
        flat_idx(k / columns, k % columns, columns) == k,
{
    vstd::arithmetic::div_mod::lemma_fundamental_div_mod(k, columns);
    assert(0 <= k % columns < columns) by (nonlinear_arith)
        requires
            0 < columns,
    ;
    assert((k / columns) * columns == columns * (k / columns)) by (nonlinear_arith);
    assert(k / columns < rows) by (nonlinear_arith)
        requires
            0 <= k < rows * columns,
            0 < columns,
            k == columns * (k / columns) + k % columns,
            0 <= k % columns < columns,
    ;
}

/// Growing a click history: if `counts` turns `before` into `cur` and the
/// cell at `(r0, c0)` has no recorded clicks yet, then one more click of
/// `n` toggles there extends the history accordingly.
pub proof fn lemma_click_extends_transform(
    before: Seq<int>,
    cur: Seq<int>,
    counts: Seq<int>,
    rows: int,
    columns: int,
    states: int,
    r0: int,
    c0: int,
    n: int,
)
    requires
        clicks_transform(before, cur, counts, rows, columns, states),
        on_grid(r0, c0, rows, columns),
        counts[flat_idx(r0, c0, columns)] == 0,
        0 <= n,
        states >= 1,
    ensures
        clicks_transform(
            before,
            click_cells(cur, columns, states, r0, c0, n),
            counts.update(flat_idx(r0, c0, columns), n),
            rows,
            columns,
            states,
        ),
{
    let idx0 = flat_idx(r0, c0, columns);
    lemma_flat_idx(r0, c0, rows, columns);
    let after = click_cells(cur, columns, states, r0, c0, n);
    let counts2 = counts.update(idx0, n);
    assert forall|r: int, c: int| on_grid(r, c, rows, columns) implies #[trigger] after[flat_idx(
        r,
        c,
        columns,
    )] == (before[flat_idx(r, c, columns)] + adjacent_count_sum(counts2, rows, columns, r, c))
        % states by {
        lemma_flat_idx(r, c, rows, columns);
        let i = flat_idx(r, c, columns);
        if on_grid(r - 1, c, rows, columns) {
            lemma_flat_idx(r - 1, c, rows, columns);
        }
        if on_grid(r + 1, c, rows, columns) {
            lemma_flat_idx(r + 1, c, rows, columns);
        }
        if on_grid(r, c - 1, rows, columns) {
            lemma_flat_idx(r, c - 1, rows, columns);
        }
        if on_grid(r, c + 1, rows, columns) {
            lemma_flat_idx(r, c + 1, rows, columns);
        }
        let sum = adjacent_count_sum(counts, rows, columns, r, c);
        let sum2 = adjacent_count_sum(counts2, rows, columns, r, c);
        if is_adjacent(r, c, r0, c0) {
            assert(sum2 == sum + n);
            assert(after[i] == (cur[i] + n) % states);
            lemma_mod_add_collapse(before[i] + sum, n, states);
        } else {
            assert(sum2 == sum);
            assert(after[i] == cur[i]);
        }
    }
}

/// The click count that cancels `x` further clicks: together they advance
/// the cell by a full period (or not at all).
proof fn lemma_inverse_count(x: int, s: int)
    requires
        0 <= x < s,
        1 <= s,
    ensures
        x + (s - x) % s == if x == 0 {
            0int
        } else {
            s
        },
{
    if x == 0 {
        vstd::arithmetic::div_mod::lemma_mod_self_0(s);
    } else {
        lemma_small_mod((s - x) as nat, s as nat);
    }
}

/// Any grid reached by clicking away from the uniform all-`objective` grid
/// is solvable: the complementary click counts drive it back.
pub proof fn lemma_scramble_solvable(
    after: Seq<int>,
    counts: Seq<int>,
    rows: int,
    columns: int,
    states: int,
    objective: int,
)
    requires
        clicks_transform(
            Seq::new((rows * columns) as nat, |k: int| objective),
            after,
            counts,
            rows,
            columns,
            states,
        ),
        cells_in_range(counts, states),
        0 <= objective < states,
    ensures
        solvable(after, rows, columns, states, objective),
{
    let base = Seq::new((rows * columns) as nat, |k: int| objective);
    let inv = Seq::new(counts.len(), |k: int| (states - counts[k]) % states);
    assert forall|k: int| 0 <= k < inv.len() implies 0 <= #[trigger] inv[k] < states by {
        lemma_inverse_count(counts[k], states);
    }
    assert forall|r: int, c: int| on_grid(r, c, rows, columns) implies (#[trigger] after[flat_idx(
        r,
        c,
        columns,
    )] + adjacent_count_sum(inv, rows, columns, r, c)) % states == objective by {
        lemma_flat_idx(r, c, rows, columns);
        let i = flat_idx(r, c, columns);
        lemma_pair_term(counts, inv, rows, columns, states, r - 1, c);
        lemma_pair_term(counts, inv, rows, columns, states, r + 1, c);
        lemma_pair_term(counts, inv, rows, columns, states, r, c - 1);
        lemma_pair_term(counts, inv, rows, columns, states, r, c + 1);
        lemma_pair_term(counts, inv, rows, columns, states, r, c);
        let p1 = count_at(counts, rows, columns, r - 1, c) + count_at(inv, rows, columns, r - 1, c);
        let p2 = count_at(counts, rows, columns, r + 1, c) + count_at(inv, rows, columns, r + 1, c);
        let p3 = count_at(counts, rows, columns, r, c - 1) + count_at(inv, rows, columns, r, c - 1);
        let p4 = count_at(counts, rows, columns, r, c + 1) + count_at(inv, rows, columns, r, c + 1);
        let p5 = count_at(counts, rows, columns, r, c) + count_at(inv, rows, columns, r, c);
        let s = adjacent_count_sum(counts, rows, columns, r, c);
        let t = adjacent_count_sum(inv, rows, columns, r, c);
        assert(s + t == p1 + p2 + p3 + p4 + p5);
        lemma_mod_add_collapse(objective + s, t, states);
        lemma_drop_term(objective + p1 + p2 + p3 + p4, p5, states);
        lemma_drop_term(objective + p1 + p2 + p3, p4, states);
        lemma_drop_term(objective + p1 + p2, p3, states);
        lemma_drop_term(objective + p1, p2, states);
        lemma_drop_term(objective, p1, states);
        lemma_small_mod(objective as nat, states as nat);
    }
    assert(cells_in_range(inv, states));
    assert(counts_solve(after, inv, rows, columns, states, objective));
}

/// A term that is either zero or a full period drops out of the remainder.
proof fn lemma_drop_term(a: int, term: int, s: int)
    requires
        term == 0 || term == s,
        0 < s,
    ensures
        (a + term) % s == a % s,
{
    if term == s {
        lemma_mod_multiples_vanish(1, a, s);
    }
}

/// A click count and its complement jointly contribute either nothing or
/// one full period at each grid cell.
proof fn lemma_pair_term(
    counts: Seq<int>,
    inv: Seq<int>,
    rows: int,
    columns: int,
    states: int,
    r: int,
    c: int,
)
    requires
        counts.len() == rows * columns,
        inv == Seq::new(counts.len(), |k: int| (states - counts[k]) % states),
        cells_in_range(counts, states),
        1 <= states,
    ensures
        count_at(counts, rows, columns, r, c) + count_at(inv, rows, columns, r, c) == 0
            || count_at(counts, rows, columns, r, c) + count_at(inv, rows, columns, r, c)
            == states,
{
    if on_grid(r, c, rows, columns) {
        lemma_flat_idx(r, c, rows, columns);
        let i = flat_idx(r, c, columns);
        lemma_inverse_count(counts[i], states);
    }
}

} // verus!
