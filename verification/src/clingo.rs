//! The declarative adapter: serialize an instance into facts for an
//! external answer-set solver, and parse the solver's answer back into
//! the solution grid.
//!
//! The fixed rule program constrains each cell to exactly one action (a
//! click count in `[0, states)`), sums the click counts of the plus-shaped
//! neighborhood, requires every resulting state to equal the objective,
//! and minimizes the total click count.  The subprocess that runs the
//! external solver lives with the embedding application; this module owns
//! everything that can be computed and checked: the fact file contents and
//! the answer parsing.

use vstd::prelude::*;

verus! {

use crate::data::{GridCoord, ParsingError, SolverState, SolvingError};
use crate::model::flat_idx;

/// The instance-independent rule program handed to the external solver.
pub const SOLVER_PROGRAM: &'static str = "\n% Valid clicks number in range [0, possible cell states - 1]\nclicks(0..States-1) :- states(States).\ncoord(1..N, 1..M) :- dim(N, M).\n\n% Replace undefined cells with 0-state cells\ncell(X, Y, 0) :- \n    coord(X, Y),\n    0 { cell(X, Y, State): clicks(State), State > 0 } 0.\n% Cells with same coordinates cannot have different states\n:- cell(X, Y, State1), cell(X, Y, State2), State1 != State2.\n\n% Cells with coordinates (X,Y) and (A,B) are adjacent (or the same cell)\nadjacent(X, Y, A, B) :-\n    |X - A| + |Y - B| <= 1,\n    coord(X, Y),\n    coord(A, B).\n\n% Consider one action for each cell. Every action consist on 0 or more clicks\n1 { action(X, Y, Clicks) : clicks(Clicks) } 1 :- coord(X, Y).\n% Minimize the number of clicks to solve the puzzle\n:~ action(X, Y, Clicks). [Clicks@1, X, Y]\n\n% Sum the total clicks of cells adjacent to cell (X, Y)\nsumClicks(X, Y, Sum) :-\n    coord(X, Y),\n    Sum = #sum{ Clicks, A, B : adjacent(A, B, X, Y), action(A, B, Clicks) }.\n\n% Set resulting grid cells adding the total clicks of its adjacent cells\nres(X, Y, Res) :- \n    cell(X, Y, Curr),\n    Res = (Curr + Sum) \\ States,    % modulo operation to wrap the result\n    states(States),\n    sumClicks(X, Y, Sum),\n    coord(X, Y), \n    clicks(Curr).\n\n% Solution condition: resulting grid cells must be set to objective state\n:- res(X, Y, Obj),\n    coord(X, Y),\n    not objective(Obj).\n\n#show action/3.\n";

/// The character for the decimal digit `d`.
pub open spec fn digit_char(d: int) -> char {
    if d == 0 {
        '0'
    } else if d == 1 {
        '1'
    } else if d == 2 {
        '2'
    } else if d == 3 {
        '3'
    } else if d == 4 {
        '4'
    } else if d == 5 {
        '5'
    } else if d == 6 {
        '6'
    } else if d == 7 {
        '7'
    } else if d == 8 {
        '8'
    } else {
        '9'
    }
}

/// The decimal rendering of `n`, without leading zeros (a lone zero for 0).
pub open spec fn dec_chars(n: int) -> Seq<char>
    decreases n,
{
    if n < 10 {
        seq![digit_char(n)]
    } else {
        dec_chars(n / 10).push(digit_char(n % 10))
    }
}

/// The single-character string for the decimal digit `d`.
fn digit_str(d: usize) -> (r: &'static str)
    requires
        d < 10,
    ensures
        r@ == seq![digit_char(d as int)],
{
    proof {
        reveal_strlit("0");
        reveal_strlit("1");
        reveal_strlit("2");
        reveal_strlit("3");
        reveal_strlit("4");
        reveal_strlit("5");
        reveal_strlit("6");
        reveal_strlit("7");
        reveal_strlit("8");
        reveal_strlit("9");
    }
    match d {
        0 => "0",
        1 => "1",
        2 => "2",
        3 => "3",
        4 => "4",
        5 => "5",
        6 => "6",
        7 => "7",
        8 => "8",
        _ => "9",
    }
}

/// Append the decimal rendering of `n` to `s`.
fn push_dec(s: &mut String, n: usize)
    ensures
        final(s)@ == old(s)@ + dec_chars(n as int),
    decreases n,
{
    if n < 10 {
        s.append(digit_str(n));
    } else {
        push_dec(s, n / 10);
        s.append(digit_str(n % 10));
        proof {
            assert(s@ =~= old(s)@ + dec_chars(n as int));
        }
    }
}

/// The header facts of an instance: dimensions, state count and objective.
pub open spec fn header_chars(rows: int, columns: int, states: int, objective: int) -> Seq<char> {
    "dim("@ + dec_chars(rows) + ","@ + dec_chars(columns) + ").states("@ + dec_chars(states)
        + ").objective("@ + dec_chars(objective) + ")."@
}

/// The fact for one nonzero cell, 1-based coordinates.
pub open spec fn cell_fact_chars(r: int, c: int, v: int) -> Seq<char> {
    "cell("@ + dec_chars(r + 1) + ","@ + dec_chars(c + 1) + ","@ + dec_chars(v) + ")."@
}

/// The facts for every nonzero cell from flat index `k` on, row-major
/// (zero-state cells are implicit and omitted).
pub open spec fn cell_facts_from(cells: Seq<int>, columns: int, k: int) -> Seq<char>
    decreases cells.len() - k,
{
    if k < 0 || k >= cells.len() {
        Seq::empty()
    } else {
        (if cells[k] != 0 {
            cell_fact_chars(k / columns, k % columns, cells[k])
        } else {
            Seq::empty()
        }) + cell_facts_from(cells, columns, k + 1)
    }
}

/// The complete fact file for an instance.
pub open spec fn instance_chars(p: crate::data::Params) -> Seq<char> {
    header_chars(p.rows as int, p.columns as int, p.states as int, p.objective as int)
        + cell_facts_from(p.puzzle.cells(), p.columns as int, 0)
}

/// Serialize the instance to the declarative fact format: the dimensions,
/// state count and objective, and one fact per nonzero puzzle cell.
#[verifier::loop_isolation(false)]
pub fn puzzle_to_string(data: &SolverState) -> (s: String)
    requires
        data.wf(),
    ensures
        s@ == instance_chars(data.params),
{
    let rows = data.params.rows;
    let columns = data.params.columns;
    let states = data.params.states;
    let objective = data.params.objective;
    let ghost columns_i = columns as int;
    let mut s = String::new();
    s.append("dim(");
    push_dec(&mut s, rows);
    s.append(",");
    push_dec(&mut s, columns);
    s.append(").states(");
    push_dec(&mut s, states);
    s.append(").objective(");
    push_dec(&mut s, objective);
    s.append(").");
    proof {
        assert(s@ == header_chars(rows as int, columns as int, states as int, objective as int));
    }
    let ghost cells = data.params.puzzle.cells();
    let total = data.params.puzzle.storage.len();
    let mut k: usize = 0;
    while k < total
        invariant
            k <= total,
            s@ + cell_facts_from(cells, columns_i, k as int) == instance_chars(data.params),
        decreases total - k,
    {
        let v = data.params.puzzle.storage[k].state;
        proof {
            assert(cells[k as int] == v as int);
            assert(columns_i > 0) by (nonlinear_arith)
                requires
                    0 <= (k as int) < (rows as int) * columns_i,
                    0 <= columns_i,
                    0 <= rows as int,
            ;
        }
        if v != 0 {
            let ghost before = s@;
            let r1 = k / columns;
            let c1 = k % columns;
            s.append("cell(");
            push_dec(&mut s, r1 + 1);
            s.append(",");
            push_dec(&mut s, c1 + 1);
            s.append(",");
            push_dec(&mut s, v);
            s.append(").");
            proof {
                assert(s@ =~= before + cell_fact_chars(k as int / columns_i, k as int % columns_i, v as int));
                assert(before + cell_facts_from(cells, columns_i, k as int) =~= (before
                    + cell_fact_chars(k as int / columns_i, k as int % columns_i, v as int))
                    + cell_facts_from(cells, columns_i, k as int + 1));
            }
        } else {
            proof {
                assert(cell_facts_from(cells, columns_i, k as int) =~= cell_facts_from(
                    cells,
                    columns_i,
                    k as int + 1,
                ));
            }
        }
        k = k + 1;
    }
    proof {
        assert(s@ + cell_facts_from(cells, columns_i, total as int) =~= s@);
    }
    s
}

pub open spec fn is_digit(c: char) -> bool {
    48 <= c as u32 <= 57
}

pub open spec fn digit_val(c: char) -> int {
    c as u32 - 48
}

/// The number a run of decimal digits denotes.
pub open spec fn digits_val(s: Seq<char>) -> int
    decreases s.len(),
{
    if s.len() == 0 {
        0
    } else {
        digits_val(s.drop_last()) * 10 + digit_val(s.last())
    }
}

/// Whether `c` has the Unicode White_Space property.
pub uninterp spec fn is_whitespace_char(c: char) -> bool;

/// Relies on char::is_whitespace: true exactly for the characters with
/// the Unicode White_Space property.
#[verifier::external_body]
fn char_is_whitespace(c: char) -> (r: bool)
    ensures
        r == is_whitespace_char(c),
{
    c.is_whitespace()
}

/// `s` with every whitespace character removed.
pub open spec fn strip_ws(s: Seq<char>) -> Seq<char> {
    s.filter(|c: char| !is_whitespace_char(c))
}

/// The characters of `line`, as a vector.
fn chars_of(line: &str) -> (v: Vec<char>)
    ensures
        v@ == line@,
{
    let n = line.unicode_len();
    let mut v: Vec<char> = Vec::new();
    let mut i: usize = 0;
    while i < n
        invariant
            n as int == line@.len(),
            i <= n,
            v@.len() == i,
            forall|j: int| 0 <= j < i ==> #[trigger] v@[j] == line@[j],
        decreases n - i,
    {
        v.push(line.get_char(i));
        i = i + 1;
    }
    proof {
        assert(v@ =~= line@);
    }
    v
}

fn remove_whitespace(v: &Vec<char>) -> (r: Vec<char>)
    ensures
        r@ == strip_ws(v@),
{
    let mut r: Vec<char> = Vec::new();
    let mut i: usize = 0;
    while i < v.len()
        invariant
            i <= v@.len(),
            r@ == strip_ws(v@.take(i as int)),
        decreases v@.len() - i,
    {
        let c = v[i];
        if !char_is_whitespace(c) {
            r.push(c);
        }
        proof {
            let pre = v@.take(i as int);
            let cur = v@.take(i as int + 1);
            assert(cur.drop_last() =~= pre);
            assert(cur.last() == v@[i as int]);
            reveal_with_fuel(Seq::<char>::filter, 2);
            if !is_whitespace_char(v@[i as int]) {
                assert(strip_ws(cur) == strip_ws(pre).push(v@[i as int]));
            } else {
                assert(strip_ws(cur) == strip_ws(pre));
            }
        }
        i = i + 1;
    }
    proof {
        assert(v@.take(v@.len() as int) =~= v@);
    }
    r
}

/// The index just past the run of digits that starts at `from`.
pub open spec fn digit_run_end(s: Seq<char>, from: int) -> int
    decreases s.len() - from,
{
    if from < 0 || from >= s.len() {
        from
    } else if is_digit(s[from]) {
        digit_run_end(s, from + 1)
    } else {
        from
    }
}

proof fn lemma_digit_run_end(s: Seq<char>, from: int)
    requires
        0 <= from <= s.len(),
    ensures
        from <= digit_run_end(s, from) <= s.len(),
        forall|j: int| from <= j < digit_run_end(s, from) ==> is_digit(#[trigger] s[j]),
        digit_run_end(s, from) < s.len() ==> !is_digit(s[digit_run_end(s, from)]),
    decreases s.len() - from,
{
    if from < s.len() && is_digit(s[from]) {
        lemma_digit_run_end(s, from + 1);
    }
}

pub open spec fn action_prefix() -> Seq<char> {
    seq!['a', 'c', 't', 'i', 'o', 'n', '(']
}

/// Parse one `action(row, col, clicks)` atom starting at `from`: the
/// parsed numbers and the index just past the closing parenthesis.
pub open spec fn parse_atom_at(s: Seq<char>, from: int) -> Option<((int, int, int), int)> {
    if !(0 <= from && from + 7 <= s.len() && s.subrange(from, from + 7) == action_prefix()) {
        None
    } else {
        let d1 = digit_run_end(s, from + 7);
        if !(d1 > from + 7 && d1 < s.len() && s[d1] == ',') {
            None
        } else {
            let d2 = digit_run_end(s, d1 + 1);
            if !(d2 > d1 + 1 && d2 < s.len() && s[d2] == ',') {
                None
            } else {
                let d3 = digit_run_end(s, d2 + 1);
                if !(d3 > d2 + 1 && d3 < s.len() && s[d3] == ')') {
                    None
                } else {
                    Some(
                        (
                            (
                                digits_val(s.subrange(from + 7, d1)),
                                digits_val(s.subrange(d1 + 1, d2)),
                                digits_val(s.subrange(d2 + 1, d3)),
                            ),
                            d3 + 1,
                        ),
                    )
                }
            }
        }
    }
}

/// An atom occupies at least one character and ends inside the text.
proof fn lemma_parse_atom_at_bounds(s: Seq<char>, from: int)
    requires
        0 <= from <= s.len(),
        parse_atom_at(s, from) is Some,
    ensures
        from < parse_atom_at(s, from).unwrap().1 <= s.len(),
{
    lemma_digit_run_end(s, from + 7);
    let d1 = digit_run_end(s, from + 7);
    lemma_digit_run_end(s, d1 + 1);
    let d2 = digit_run_end(s, d1 + 1);
    lemma_digit_run_end(s, d2 + 1);
}

/// Parse the whole text from `from` as a concatenation of atoms.
pub open spec fn parse_atoms_from(s: Seq<char>, from: int) -> Option<Seq<(int, int, int)>>
    decreases s.len() - from,
        when 0 <= from <= s.len()
    via parse_atoms_from_decreases
{
    if from == s.len() {
        Some(Seq::empty())
    } else {
        match parse_atom_at(s, from) {
            None => None,
            Some((atom, next)) => match parse_atoms_from(s, next) {
                None => None,
                Some(rest) => Some(seq![atom] + rest),
            },
        }
    }
}

#[via_fn]
proof fn parse_atoms_from_decreases(s: Seq<char>, from: int) {
    if from != s.len() && parse_atom_at(s, from) is Some {
        lemma_parse_atom_at_bounds(s, from);
    }
}

fn is_digit_exec(c: char) -> (r: bool)
    ensures
        r == is_digit(c),
{
    let u = c as u32;
    48 <= u && u <= 57
}

/// The index just past the run of digits that starts at `from`.
fn scan_digits(v: &Vec<char>, from: usize) -> (end: usize)
    requires
        from <= v@.len(),
    ensures
        end as int == digit_run_end(v@, from as int),
        from <= end <= v@.len(),
{
    let mut i = from;
    while i < v.len() && is_digit_exec(v[i])
        invariant
            from <= i <= v@.len(),
            digit_run_end(v@, from as int) == digit_run_end(v@, i as int),
        decreases v@.len() - i,
    {
        i = i + 1;
    }
    i
}

proof fn lemma_digits_val_nonneg(s: Seq<char>)
    requires
        forall|j: int| 0 <= j < s.len() ==> is_digit(#[trigger] s[j]),
    ensures
        digits_val(s) >= 0,
    decreases s.len(),
{
    if s.len() > 0 {
        lemma_digits_val_nonneg(s.drop_last());
    }
}

/// Extending a digit run never shrinks its value.
proof fn lemma_digits_val_prefix_le(s: Seq<char>, k: int)
    requires
        0 <= k <= s.len(),
        forall|j: int| 0 <= j < s.len() ==> is_digit(#[trigger] s[j]),
    ensures
        digits_val(s.take(k)) <= digits_val(s),
    decreases s.len() - k,
{
    if k == s.len() {
        assert(s.take(k) =~= s);
    } else {
        lemma_digits_val_prefix_le(s, k + 1);
        let shorter = s.take(k);
        let longer = s.take(k + 1);
        assert(longer.drop_last() =~= shorter);
        assert forall|j: int| 0 <= j < shorter.len() implies is_digit(#[trigger] shorter[j]) by {
            assert(shorter[j] == s[j]);
        }
        lemma_digits_val_nonneg(shorter);
        assert(digits_val(longer) == digits_val(shorter) * 10 + digit_val(s[k]));
    }
}

/// The number the digit run `[from, to)` denotes, or nothing when it does
/// not fit in a machine word.
fn digits_to_usize(v: &Vec<char>, from: usize, to: usize) -> (r: Option<usize>)
    requires
        from <= to <= v@.len(),
        forall|j: int| from <= j < to ==> is_digit(#[trigger] v@[j]),
    ensures
        match r {
            Some(x) => x as int == digits_val(v@.subrange(from as int, to as int)),
            None => digits_val(v@.subrange(from as int, to as int)) > usize::MAX,
        },
{
    let ghost s = v@.subrange(from as int, to as int);
    proof {
        assert forall|j: int| 0 <= j < s.len() implies is_digit(#[trigger] s[j]) by {
            assert(s[j] == v@[from + j]);
        }
    }
    let mut acc: usize = 0;
    let mut i = from;
    while i < to
        invariant
            from <= i <= to <= v@.len(),
            s == v@.subrange(from as int, to as int),
            forall|j: int| 0 <= j < s.len() ==> is_digit(#[trigger] s[j]),
            forall|j: int| from <= j < to ==> is_digit(#[trigger] v@[j]),
            acc as int == digits_val(v@.subrange(from as int, i as int)),
        decreases to - i,
    {
        let c = v[i];
        let d = (c as u32 - 48) as usize;
        let ghost shorter = v@.subrange(from as int, i as int);
        let ghost longer = v@.subrange(from as int, i as int + 1);
        proof {
            assert(longer.drop_last() =~= shorter);
            assert(longer.last() == v@[i as int]);
            vstd::arithmetic::div_mod::lemma_fundamental_div_mod(usize::MAX - d, 10);
        }
        if acc > (usize::MAX - d) / 10 {
            proof {
                let q = ((usize::MAX - d) as int) / 10;
                assert(acc * 10 >= (q + 1) * 10) by (nonlinear_arith)
                    requires
                        acc as int >= q + 1,
                ;
                assert((q + 1) * 10 == q * 10 + 10) by (nonlinear_arith);
                assert(10 * q == q * 10) by (nonlinear_arith);
                assert(digits_val(longer) > usize::MAX);
                assert(longer =~= s.take(i as int + 1 - from));
                lemma_digits_val_prefix_le(s, i as int + 1 - from);
            }
            return None;
        }
        proof {
            let q = ((usize::MAX - d) as int) / 10;
            assert(acc * 10 <= q * 10) by (nonlinear_arith)
                requires
                    acc as int <= q,
            ;
            assert(10 * q == q * 10) by (nonlinear_arith);
        }
        acc = acc * 10 + d;
        i = i + 1;
    }
    proof {
        assert(v@.subrange(from as int, i as int) =~= s);
    }
    Some(acc)
}

/// The integer view of a machine-word action triple.
pub open spec fn atom_view(t: (usize, usize, usize)) -> (int, int, int) {
    (t.0 as int, t.1 as int, t.2 as int)
}

pub open spec fn atoms_view(s: Seq<(usize, usize, usize)>) -> Seq<(int, int, int)> {
    s.map_values(|t: (usize, usize, usize)| atom_view(t))
}

/// Every component of the parsed action fits in a machine word.
pub open spec fn atom_fits(a: (int, int, int)) -> bool {
    a.0 <= usize::MAX && a.1 <= usize::MAX && a.2 <= usize::MAX
}

/// A parsed action is applicable to the instance: 1-based coordinates on
/// the grid, click count in range.
pub open spec fn atom_ok(a: (int, int, int), rows: int, columns: int, states: int) -> bool {
    1 <= a.0 <= rows && 1 <= a.1 <= columns && 0 <= a.2 < states
}

pub open spec fn atoms_ok(
    atoms: Seq<(int, int, int)>,
    rows: int,
    columns: int,
    states: int,
) -> bool {
    forall|j: int| 0 <= j < atoms.len() ==> atom_ok(#[trigger] atoms[j], rows, columns, states)
}

/// The solution cells after writing each action's click count at its
/// 0-based coordinate, in order; a later action overwrites an earlier one
/// at the same cell.
pub open spec fn apply_atoms(cells: Seq<int>, atoms: Seq<(int, int, int)>, columns: int) -> Seq<
    int,
>
    decreases atoms.len(),
{
    if atoms.len() == 0 {
        cells
    } else {
        apply_atoms(cells, atoms.drop_last(), columns).update(
            flat_idx(atoms.last().0 - 1, atoms.last().1 - 1, columns),
            atoms.last().2,
        )
    }
}

/// Parse the text from `from` on as a concatenation of action atoms.
#[verifier::loop_isolation(false)]
fn parse_atoms_exec(v: &Vec<char>, from: usize) -> (r: Option<Vec<(usize, usize, usize)>>)
    requires
        from <= v@.len(),
    ensures
        match r {
            Some(atoms) => parse_atoms_from(v@, from as int) == Some(atoms_view(atoms@)),
            None => parse_atoms_from(v@, from as int) is Some ==> exists|j: int|
                0 <= j < parse_atoms_from(v@, from as int).unwrap().len() && !atom_fits(
                    #[trigger] parse_atoms_from(v@, from as int).unwrap()[j],
                ),
        },
    decreases v@.len() - from,
{
    let ghost s = v@;
    let ghost from_i = from as int;
    if from == v.len() {
        let empty: Vec<(usize, usize, usize)> = Vec::new();
        proof {
            assert(atoms_view(empty@) =~= Seq::<(int, int, int)>::empty());
        }
        return Some(empty);
    }
    if v.len() - from < 7 {
        proof {
            assert(parse_atom_at(s, from_i) is None);
        }
        return None;
    }
    let good = v[from] == 'a' && v[from + 1] == 'c' && v[from + 2] == 't' && v[from + 3] == 'i'
        && v[from + 4] == 'o' && v[from + 5] == 'n' && v[from + 6] == '(';
    if !good {
        proof {
            if s.subrange(from_i, from_i + 7) == action_prefix() {
                assert(s[from_i + 0] == s.subrange(from_i, from_i + 7)[0]);
                assert(s[from_i + 1] == s.subrange(from_i, from_i + 7)[1]);
                assert(s[from_i + 2] == s.subrange(from_i, from_i + 7)[2]);
                assert(s[from_i + 3] == s.subrange(from_i, from_i + 7)[3]);
                assert(s[from_i + 4] == s.subrange(from_i, from_i + 7)[4]);
                assert(s[from_i + 5] == s.subrange(from_i, from_i + 7)[5]);
                assert(s[from_i + 6] == s.subrange(from_i, from_i + 7)[6]);
                assert(false);
            }
            assert(parse_atom_at(s, from_i) is None);
        }
        return None;
    }
    proof {
        assert(s.subrange(from_i, from_i + 7) =~= action_prefix());
    }
    let d1 = scan_digits(v, from + 7);
    if d1 == from + 7 || d1 == v.len() || !(v[d1] == ',') {
        proof {
            assert(parse_atom_at(s, from_i) is None);
        }
        return None;
    }
    let d2 = scan_digits(v, d1 + 1);
    if d2 == d1 + 1 || d2 == v.len() || !(v[d2] == ',') {
        proof {
            assert(parse_atom_at(s, from_i) is None);
        }
        return None;
    }
    let d3 = scan_digits(v, d2 + 1);
    if d3 == d2 + 1 || d3 == v.len() || !(v[d3] == ')') {
        proof {
            assert(parse_atom_at(s, from_i) is None);
        }
        return None;
    }
    proof {
        lemma_digit_run_end(s, from_i + 7);
        lemma_digit_run_end(s, d1 as int + 1);
        lemma_digit_run_end(s, d2 as int + 1);
        assert(parse_atom_at(s, from_i) is Some);
    }
    let ghost atom = parse_atom_at(s, from_i).unwrap().0;
    let n1 = digits_to_usize(v, from + 7, d1);
    let n2 = digits_to_usize(v, d1 + 1, d2);
    let n3 = digits_to_usize(v, d2 + 1, d3);
    if n1.is_none() || n2.is_none() || n3.is_none() {
        proof {
            if parse_atoms_from(s, from_i) is Some {
                assert(parse_atoms_from(s, from_i).unwrap()[0] == atom);
                assert(!atom_fits(atom));
            }
        }
        return None;
    }
    let x1 = n1.unwrap();
    let x2 = n2.unwrap();
    let x3 = n3.unwrap();
    proof {
        assert(atom == (x1 as int, x2 as int, x3 as int));
    }
    let rest = parse_atoms_exec(v, d3 + 1);
    match rest {
        None => {
            proof {
                if parse_atoms_from(s, from_i) is Some {
                    let whole = parse_atoms_from(s, from_i).unwrap();
                    let rest_atoms = parse_atoms_from(s, d3 as int + 1).unwrap();
                    let j = choose|j: int|
                        0 <= j < rest_atoms.len() && !atom_fits(#[trigger] rest_atoms[j]);
                    assert(whole[j + 1] == rest_atoms[j]);
                    assert(!atom_fits(whole[j + 1]));
                }
            }
            None
        },
        Some(mut rest_vec) => {
            let ghost restv = rest_vec@;
            let mut out: Vec<(usize, usize, usize)> = Vec::new();
            out.push((x1, x2, x3));
            out.append(&mut rest_vec);
            proof {
                assert(parse_atoms_from(s, from_i) == Some(seq![atom] + atoms_view(restv)));
                assert(atoms_view(out@) =~= seq![atom] + atoms_view(restv));
            }
            Some(out)
        },
    }
}

/// Validate every parsed action against the instance, then write each
/// action's click count into the solution grid.  On a bad action nothing
/// is written.
#[verifier::loop_isolation(false)]
fn apply_actions(data: &mut SolverState, atoms: &Vec<(usize, usize, usize)>) -> (r: Result<
    (),
    ParsingError,
>)
    requires
        old(data).wf(),
    ensures
        final(data).wf(),
        final(data).params.rows == old(data).params.rows,
        final(data).params.columns == old(data).params.columns,
        final(data).params.states == old(data).params.states,
        final(data).params.objective == old(data).params.objective,
        final(data).params.play == old(data).params.play,
        final(data).params.solve_time == old(data).params.solve_time,
        final(data).params.puzzle == old(data).params.puzzle,
        final(data).params.solution.rows == old(data).params.solution.rows,
        final(data).params.solution.columns == old(data).params.solution.columns,
        final(data).params.solution.states == old(data).params.solution.states,
        final(data).params.solution.error == old(data).params.solution.error,
        final(data).params.solution.play == old(data).params.solution.play,
        r is Ok <==> atoms_ok(
            atoms_view(atoms@),
            old(data).params.rows as int,
            old(data).params.columns as int,
            old(data).params.states as int,
        ),
        r is Ok ==> final(data).params.solution.cells() == apply_atoms(
            old(data).params.solution.cells(),
            atoms_view(atoms@),
            old(data).params.columns as int,
        ),
        r is Err ==> *final(data) == *old(data),
{
    let ghost pre = *data;
    let ghost mapped = atoms_view(atoms@);
    let rows = data.params.rows;
    let columns = data.params.columns;
    let states = data.params.states;
    let ghost columns_i = columns as int;
    let mut i: usize = 0;
    while i < atoms.len()
        invariant
            i <= atoms@.len(),
            forall|j: int|
                0 <= j < i ==> atom_ok(
                    #[trigger] mapped[j],
                    rows as int,
                    columns as int,
                    states as int,
                ),
        decreases atoms@.len() - i,
    {
        let t = atoms[i];
        if !(t.0 >= 1 && t.0 <= rows && t.1 >= 1 && t.1 <= columns && t.2 < states) {
            proof {
                assert(mapped[i as int] == atom_view(atoms@[i as int]));
                assert(!atom_ok(mapped[i as int], rows as int, columns as int, states as int));
            }
            return Err(ParsingError);
        }
        proof {
            assert(mapped[i as int] == atom_view(atoms@[i as int]));
        }
        i = i + 1;
    }
    let ghost cells0 = data.params.solution.cells();
    let mut k: usize = 0;
    while k < atoms.len()
        invariant
            k <= atoms@.len(),
            data.wf(),
            data.params.rows == pre.params.rows,
            data.params.columns == pre.params.columns,
            data.params.states == pre.params.states,
            data.params.objective == pre.params.objective,
            data.params.play == pre.params.play,
            data.params.solve_time == pre.params.solve_time,
            data.params.puzzle == pre.params.puzzle,
            data.params.solution.rows == pre.params.solution.rows,
            data.params.solution.columns == pre.params.solution.columns,
            data.params.solution.states == pre.params.solution.states,
            data.params.solution.error == pre.params.solution.error,
            data.params.solution.play == pre.params.solution.play,
            data.params.solution.cells() == apply_atoms(cells0, mapped.take(k as int), columns_i),
        decreases atoms@.len() - k,
    {
        let t = atoms[k];
        proof {
            assert(mapped[k as int] == atom_view(atoms@[k as int]));
            assert(atom_ok(mapped[k as int], rows as int, columns as int, states as int));
        }
        data.params.solution.set_cell_state(GridCoord { row: t.0 - 1, col: t.1 - 1 }, t.2);
        proof {
            assert(mapped.take(k as int + 1).drop_last() =~= mapped.take(k as int));
            assert(mapped.take(k as int + 1).last() == mapped[k as int]);
        }
        k = k + 1;
    }
    proof {
        assert(mapped.take(atoms@.len() as int) =~= mapped);
    }
    Ok(())
}

/// The index of the first newline at or after `from` (the text length
/// when there is none).
pub open spec fn first_nl(s: Seq<char>, from: int) -> int
    decreases s.len() - from,
{
    if from < 0 || from >= s.len() {
        s.len() as int
    } else if s[from] == '\n' {
        from
    } else {
        first_nl(s, from + 1)
    }
}

proof fn lemma_first_nl(s: Seq<char>, from: int)
    requires
        0 <= from <= s.len(),
    ensures
        from <= first_nl(s, from) <= s.len(),
    decreases s.len() - from,
{
    if from < s.len() && s[from] != '\n' {
        lemma_first_nl(s, from + 1);
    }
}

/// A line's trailing carriage return is dropped when the line was ended
/// by a newline.
pub open spec fn strip_cr(l: Seq<char>) -> Seq<char> {
    if l.len() > 0 && l.last() == '\r' {
        l.drop_last()
    } else {
        l
    }
}

/// The lines of the text from `from` on: split at newlines, a carriage
/// return before each newline dropped, the final line ending optional.
pub open spec fn spec_lines_from(s: Seq<char>, from: int) -> Seq<Seq<char>>
    decreases s.len() - from,
        when 0 <= from <= s.len()
    via spec_lines_from_decreases
{
    if from >= s.len() {
        Seq::empty()
    } else {
        let i = first_nl(s, from);
        if i >= s.len() {
            seq![s.subrange(from, s.len() as int)]
        } else {
            seq![strip_cr(s.subrange(from, i))] + spec_lines_from(s, i + 1)
        }
    }
}

#[via_fn]
proof fn spec_lines_from_decreases(s: Seq<char>, from: int) {
    if from < s.len() {
        lemma_first_nl(s, from);
    }
}

pub open spec fn spec_lines(s: Seq<char>) -> Seq<Seq<char>> {
    spec_lines_from(s, 0)
}

pub open spec fn lines_view(lines: Seq<Vec<char>>) -> Seq<Seq<char>> {
    lines.map_values(|l: Vec<char>| l@)
}

/// Split the text into lines as the answer reader counts them.
#[verifier::loop_isolation(false)]
fn split_lines_from(v: &Vec<char>, from: usize) -> (lines: Vec<Vec<char>>)
    requires
        from <= v@.len(),
    ensures
        lines_view(lines@) == spec_lines_from(v@, from as int),
    decreases v@.len() - from,
{
    if from == v.len() {
        let empty: Vec<Vec<char>> = Vec::new();
        proof {
            assert(lines_view(empty@) =~= Seq::<Seq<char>>::empty());
        }
        return empty;
    }
    let mut i = from;
    while i < v.len() && !(v[i] == '\n')
        invariant
            from <= i <= v@.len(),
            first_nl(v@, from as int) == first_nl(v@, i as int),
        decreases v@.len() - i,
    {
        i = i + 1;
    }
    proof {
        assert(first_nl(v@, from as int) == i as int);
        lemma_first_nl(v@, from as int);
    }
    let end = if i < v.len() && i > from && v[i - 1] == '\r' {
        i - 1
    } else {
        i
    };
    let mut line: Vec<char> = Vec::new();
    let mut j = from;
    while j < end
        invariant
            from <= j <= end <= v@.len(),
            line@.len() == j - from,
            forall|q: int| 0 <= q < j - from ==> #[trigger] line@[q] == v@[from + q],
        decreases end - j,
    {
        line.push(v[j]);
        j = j + 1;
    }
    if i == v.len() {
        proof {
            assert(line@ =~= v@.subrange(from as int, v@.len() as int));
        }
        let mut out: Vec<Vec<char>> = Vec::new();
        out.push(line);
        proof {
            assert(lines_view(out@) =~= seq![v@.subrange(from as int, v@.len() as int)]);
        }
        out
    } else {
        proof {
            if end < i {
                assert(v@.subrange(from as int, i as int).last() == v@[i - 1]);
                assert(v@.subrange(from as int, i as int).drop_last() =~= v@.subrange(
                    from as int,
                    end as int,
                ));
            }
            assert(line@ =~= v@.subrange(from as int, end as int));
            assert(line@ =~= strip_cr(v@.subrange(from as int, i as int)));
        }
        let mut rest = split_lines_from(v, i + 1);
        let ghost restv = rest@;
        let mut out: Vec<Vec<char>> = Vec::new();
        out.push(line);
        out.append(&mut rest);
        proof {
            assert(lines_view(out@) =~= seq![strip_cr(v@.subrange(from as int, i as int))]
                + lines_view(restv));
        }
        out
    }
}

/// Interpret one answer line: the whole line is validated against the
/// `action(row, col, clicks)` atom grammar (whitespace ignored) before
/// anything is written; then each action's click count is stored in the
/// solution grid, coordinates converted from 1-based to 0-based.
pub fn solution_from_chars(data: &mut SolverState, line: &Vec<char>) -> (r: Result<
    (),
    ParsingError,
>)
    requires
        old(data).wf(),
    ensures
        final(data).wf(),
        final(data).params.rows == old(data).params.rows,
        final(data).params.columns == old(data).params.columns,
        final(data).params.states == old(data).params.states,
        final(data).params.objective == old(data).params.objective,
        final(data).params.play == old(data).params.play,
        final(data).params.solve_time == old(data).params.solve_time,
        final(data).params.puzzle == old(data).params.puzzle,
        final(data).params.solution.rows == old(data).params.solution.rows,
        final(data).params.solution.columns == old(data).params.solution.columns,
        final(data).params.solution.states == old(data).params.solution.states,
        final(data).params.solution.error == old(data).params.solution.error,
        final(data).params.solution.play == old(data).params.solution.play,
        r is Ok <==> (parse_atoms_from(strip_ws(line@), 0) is Some && atoms_ok(
            parse_atoms_from(strip_ws(line@), 0).unwrap(),
            old(data).params.rows as int,
            old(data).params.columns as int,
            old(data).params.states as int,
        )),
        r is Ok ==> final(data).params.solution.cells() == apply_atoms(
            old(data).params.solution.cells(),
            parse_atoms_from(strip_ws(line@), 0).unwrap(),
            old(data).params.columns as int,
        ),
        r is Err ==> *final(data) == *old(data),
{
    let stripped = remove_whitespace(line);
    let parsed = parse_atoms_exec(&stripped, 0);
    match parsed {
        None => {
            proof {
                if parse_atoms_from(strip_ws(line@), 0) is Some {
                    let atoms = parse_atoms_from(strip_ws(line@), 0).unwrap();
                    let j = choose|j: int|
                        0 <= j < atoms.len() && !atom_fits(#[trigger] atoms[j]);
                    assert(!atom_ok(
                        atoms[j],
                        data.params.rows as int,
                        data.params.columns as int,
                        data.params.states as int,
                    ));
                }
            }
            Err(ParsingError)
        },
        Some(atoms_vec) => apply_actions(data, &atoms_vec),
    }
}

/// As `solution_from_chars`, for an answer line held as a string.
pub fn solution_from_string(data: &mut SolverState, answer: &str) -> (r: Result<(), ParsingError>)
    requires
        old(data).wf(),
    ensures
        final(data).wf(),
        final(data).params.rows == old(data).params.rows,
        final(data).params.columns == old(data).params.columns,
        final(data).params.states == old(data).params.states,
        final(data).params.objective == old(data).params.objective,
        final(data).params.play == old(data).params.play,
        final(data).params.solve_time == old(data).params.solve_time,
        final(data).params.puzzle == old(data).params.puzzle,
        final(data).params.solution.error == old(data).params.solution.error,
        r is Ok <==> (parse_atoms_from(strip_ws(answer@), 0) is Some && atoms_ok(
            parse_atoms_from(strip_ws(answer@), 0).unwrap(),
            old(data).params.rows as int,
            old(data).params.columns as int,
            old(data).params.states as int,
        )),
        r is Ok ==> final(data).params.solution.cells() == apply_atoms(
            old(data).params.solution.cells(),
            parse_atoms_from(strip_ws(answer@), 0).unwrap(),
            old(data).params.columns as int,
        ),
        r is Err ==> *final(data) == *old(data),
{
    let chars = chars_of(answer);
    solution_from_chars(data, &chars)
}

/// The external declarative solver strategy.  The embedding application
/// writes the rule program and the instance facts to files, invokes the
/// binary at `clingo_path` on them, and hands the captured standard
/// output to `read_solver_output`.
pub struct Clingo {
    pub clingo_path: String,
}

/// Digest the external solver's standard output.  A well-formed success
/// has exactly three lines, the first holding the action atoms; any other
/// shape is a normal unsatisfiable result (`error` set), not a failure of
/// `solve`.
pub fn read_solver_output(data: &mut SolverState, output: &str) -> (r: Result<(), SolvingError>)
    requires
        old(data).wf(),
    ensures
        final(data).wf(),
        final(data).params.rows == old(data).params.rows,
        final(data).params.columns == old(data).params.columns,
        final(data).params.states == old(data).params.states,
        final(data).params.objective == old(data).params.objective,
        final(data).params.play == old(data).params.play,
        final(data).params.solve_time == old(data).params.solve_time,
        final(data).params.puzzle == old(data).params.puzzle,
        spec_lines(output@).len() != 3 ==> r is Ok && final(data).params.solution.error
            && final(data).params.solution.cells() == old(data).params.solution.cells(),
        spec_lines(output@).len() == 3 ==> (r is Ok <==> (parse_atoms_from(
            strip_ws(spec_lines(output@)[0]),
            0,
        ) is Some && atoms_ok(
            parse_atoms_from(strip_ws(spec_lines(output@)[0]), 0).unwrap(),
            old(data).params.rows as int,
            old(data).params.columns as int,
            old(data).params.states as int,
        ))),
        spec_lines(output@).len() == 3 && r is Ok ==> !final(data).params.solution.error
            && final(data).params.solution.cells() == apply_atoms(
            old(data).params.solution.cells(),
            parse_atoms_from(strip_ws(spec_lines(output@)[0]), 0).unwrap(),
            old(data).params.columns as int,
        ),
        r is Err ==> *final(data) == *old(data),
{
    let chars = chars_of(output);
    let lines = split_lines_from(&chars, 0);
    if lines.len() == 3 {
        proof {
            assert(lines_view(lines@)[0] == lines@[0]@);
        }
        let first = &lines[0];
        match solution_from_chars(data, first) {
            Ok(()) => {
                data.params.solution.error = false;
                Ok(())
            },
            Err(e) => Err(SolvingError::Parsing(e)),
        }
    } else {
        data.params.solution.error = true;
        Ok(())
    }
}

} // verus!
