use lights_out::data::{GridCoord, SolverState};
use lights_out::internal::{check_solution, next_candidate, solve_partition, Internal};
use lights_out::solver_trait::Solver;

#[test]
fn one_by_one_single_click() {
    let mut s = SolverState::new(1, 1, 2, 1);
    let r = s.solve();
    assert!(r.is_ok());
    assert!(!s.params.solution.error);
    assert_eq!(s.params.solution.cell_state(GridCoord { row: 0, col: 0 }), 1);
    assert_eq!(s.params.puzzle.cell_state(GridCoord { row: 0, col: 0 }), 0);
}

#[test]
fn two_by_two_reducer_round_trip() {
    let mut s = SolverState::new(2, 2, 2, 0);
    s.params.puzzle.set_cell_state(GridCoord { row: 0, col: 0 }, 1);
    let r = s.solve();
    assert!(r.is_ok());
    assert!(!s.params.solution.error);
    assert_eq!(s.params.puzzle.cell_state(GridCoord { row: 0, col: 0 }), 1);
    assert!(check_solution(&s.params.puzzle, &s.params.solution, 0));
    let mut replay = s.params.puzzle.clone();
    for row in 0..2 {
        for col in 0..2 {
            let n = s.params.solution.cell_state(GridCoord { row, col });
            replay.click_adjacent_unchecked(GridCoord { row, col }, n);
        }
    }
    for row in 0..2 {
        for col in 0..2 {
            assert_eq!(replay.cell_state(GridCoord { row, col }), 0);
        }
    }
}

#[test]
fn reports_unsolvable_instance() {
    let mut s = SolverState::new(1, 2, 2, 0);
    s.params.puzzle.set_cell_state(GridCoord { row: 0, col: 0 }, 1);
    let r = s.solve();
    assert!(r.is_ok());
    assert!(s.params.solution.error);
    assert_eq!(s.params.puzzle.cell_state(GridCoord { row: 0, col: 0 }), 1);
}

#[test]
fn solve_through_strategy_trait() {
    let mut s = SolverState::new(2, 2, 2, 1);
    let r = Internal.solve(&mut s);
    assert!(r.is_ok());
    assert!(!s.params.solution.error);
    assert!(check_solution(&s.params.puzzle, &s.params.solution, 1));
}

// Every scramble produced from the all-objective grid by random clicks is
// solvable, and the sequential reducer finds a plan for it.
#[test]
fn randomized_scrambles_solve() {
    let cases = [
        (1usize, 1usize, 2usize, 1usize),
        (2, 2, 2, 0),
        (3, 3, 2, 1),
        (2, 3, 3, 2),
        (3, 2, 4, 0),
        (3, 3, 5, 3),
    ];
    for &(rows, columns, states, objective) in cases.iter() {
        for _ in 0..5 {
            let mut s = SolverState::new(rows, columns, states, objective);
            s.randomize();
            let r = s.solve();
            assert!(r.is_ok());
            assert!(!s.params.solution.error);
            assert!(check_solution(&s.params.puzzle, &s.params.solution, objective));
        }
    }
}

#[test]
fn randomize_clears_solve_time() {
    let mut s = SolverState::new(2, 2, 2, 1);
    s.params.solve_time = String::from("12ms");
    s.randomize();
    assert_eq!(s.params.solve_time, "");
}

// The round-robin partitions of the parallel reducer, run to completion,
// agree with the sequential search on solvability.
#[test]
fn partitions_agree_with_sequential_on_solvability() {
    let mut instances: Vec<SolverState> = Vec::new();
    for &(rows, columns, states, objective) in
        [(2usize, 2usize, 2usize, 0usize), (3, 3, 2, 1), (2, 3, 3, 1)].iter()
    {
        let mut s = SolverState::new(rows, columns, states, objective);
        s.randomize();
        instances.push(s);
    }
    let mut unsolvable = SolverState::new(1, 2, 2, 0);
    unsolvable.params.puzzle.set_cell_state(GridCoord { row: 0, col: 0 }, 1);
    instances.push(unsolvable);

    for original in instances.iter() {
        let objective = original.params.objective;
        let mut seq = original.clone();
        let backup = seq.params.puzzle.snapshot();
        seq.params.solution.error = true;
        let seq_found = solve_partition(&mut seq, &backup, 0, 1);

        let threads = 3;
        let mut par_found = false;
        let mut winner: Option<SolverState> = None;
        for i in 0..threads {
            let mut worker = original.clone();
            let worker_backup = worker.params.puzzle.snapshot();
            worker.params.solution.error = true;
            if solve_partition(&mut worker, &worker_backup, i, threads) {
                par_found = true;
                winner = Some(worker);
                break;
            }
        }
        assert_eq!(seq_found, par_found);
        if let Some(w) = winner {
            assert!(!w.params.solution.error);
            assert!(check_solution(&w.params.puzzle, &w.params.solution, objective));
        }
    }
}

#[test]
fn reset_twice_equals_reset_once() {
    let mut s = SolverState::new(2, 2, 3, 1);
    s.params.puzzle.set_cell_state(GridCoord { row: 1, col: 1 }, 2);
    s.params.solution.set_cell_state(GridCoord { row: 0, col: 1 }, 1);
    s.params.reset_grids();
    let once: Vec<usize> = (0..2)
        .flat_map(|r| (0..2).map(move |c| (r, c)))
        .map(|(r, c)| s.params.puzzle.cell_state(GridCoord { row: r, col: c }))
        .collect();
    let once_error = s.params.puzzle.error;
    s.params.reset_grids();
    let twice: Vec<usize> = (0..2)
        .flat_map(|r| (0..2).map(move |c| (r, c)))
        .map(|(r, c)| s.params.puzzle.cell_state(GridCoord { row: r, col: c }))
        .collect();
    assert_eq!(once, twice);
    assert_eq!(once, vec![0, 0, 0, 0]);
    assert_eq!(once_error, s.params.puzzle.error);
    for r in 0..2 {
        for c in 0..2 {
            assert_eq!(s.params.solution.cell_state(GridCoord { row: r, col: c }), 0);
        }
    }
}

#[test]
fn partition_beyond_candidate_space_finds_nothing() {
    let mut s = SolverState::new(1, 1, 2, 1);
    let backup = s.params.puzzle.snapshot();
    s.params.solution.error = true;
    // only two candidates exist; a partition starting past them is empty
    let found = solve_partition(&mut s, &backup, 5, 1);
    assert!(!found);
    assert!(s.params.solution.error);
}

#[test]
fn single_state_grid_is_always_solved() {
    let mut s = SolverState::new(2, 3, 1, 0);
    let r = s.solve();
    assert!(r.is_ok());
    assert!(!s.params.solution.error);
}

#[test]
fn empty_grid_is_trivially_solved() {
    let mut s = SolverState::new(0, 3, 2, 1);
    let r = s.solve();
    assert!(r.is_ok());
    assert!(!s.params.solution.error);
}

#[test]
fn single_state_enumeration_has_one_candidate() {
    let mut v = vec![0usize, 0];
    assert!(!next_candidate(&mut v, 1));
    assert_eq!(v, vec![0, 0]);
}

#[test]
fn candidate_enumeration_order() {
    let mut v = vec![0usize, 0];
    let states = 3;
    let mut seen = vec![v.clone()];
    while next_candidate(&mut v, states) {
        seen.push(v.clone());
    }
    assert_eq!(seen.len(), 9);
    assert_eq!(seen[0], vec![0, 0]);
    assert_eq!(seen[1], vec![0, 1]);
    assert_eq!(seen[2], vec![0, 2]);
    assert_eq!(seen[3], vec![1, 0]);
    assert_eq!(seen[8], vec![2, 2]);
    assert_eq!(v, vec![0, 0]);
}
