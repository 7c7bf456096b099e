use lights_out::clingo::{puzzle_to_string, read_solver_output, solution_from_string, SOLVER_PROGRAM};
use lights_out::data::{GridCoord, SolverState};
use lights_out::internal::check_solution;

#[test]
fn serializes_instance_facts() {
    let mut s = SolverState::new(2, 2, 3, 1);
    s.params.puzzle.set_cell_state(GridCoord { row: 0, col: 1 }, 2);
    s.params.puzzle.set_cell_state(GridCoord { row: 1, col: 0 }, 1);
    let text = puzzle_to_string(&s);
    assert_eq!(text, "dim(2,2).states(3).objective(1).cell(1,2,2).cell(2,1,1).");
}

#[test]
fn serializes_multi_digit_parameters() {
    let s = SolverState::new(12, 10, 16, 15);
    let text = puzzle_to_string(&s);
    assert_eq!(text, "dim(12,10).states(16).objective(15).");
}

#[test]
fn two_line_output_is_unsatisfiable() {
    let mut s = SolverState::new(2, 2, 2, 0);
    let r = read_solver_output(&mut s, "line one\nline two");
    assert!(r.is_ok());
    assert!(s.params.solution.error);
}

#[test]
fn empty_output_is_unsatisfiable() {
    let mut s = SolverState::new(2, 2, 2, 0);
    let r = read_solver_output(&mut s, "");
    assert!(r.is_ok());
    assert!(s.params.solution.error);
}

#[test]
fn three_line_output_fills_solution() {
    let mut s = SolverState::new(2, 2, 2, 0);
    s.params.puzzle.set_cell_state(GridCoord { row: 0, col: 0 }, 1);
    let out = "action(1,1,1) action(1,2,1) action(2,1,1) action(2,2,0)\nOptimization: 3\nOPTIMUM FOUND";
    let r = read_solver_output(&mut s, out);
    assert!(r.is_ok());
    assert!(!s.params.solution.error);
    assert_eq!(s.params.solution.cell_state(GridCoord { row: 0, col: 0 }), 1);
    assert_eq!(s.params.solution.cell_state(GridCoord { row: 0, col: 1 }), 1);
    assert_eq!(s.params.solution.cell_state(GridCoord { row: 1, col: 0 }), 1);
    assert_eq!(s.params.solution.cell_state(GridCoord { row: 1, col: 1 }), 0);
    assert!(check_solution(&s.params.puzzle, &s.params.solution, 0));
    // the internal reducer agrees the instance is solvable
    let mut internal = SolverState::new(2, 2, 2, 0);
    internal.params.puzzle.set_cell_state(GridCoord { row: 0, col: 0 }, 1);
    assert!(internal.solve().is_ok());
    assert!(!internal.params.solution.error);
}

#[test]
fn crlf_line_endings_are_accepted() {
    let mut s = SolverState::new(1, 1, 2, 1);
    let r = read_solver_output(&mut s, "action(1,1,1)\r\nOptimization: 1\r\nOPTIMUM FOUND\r\n");
    assert!(r.is_ok());
    assert!(!s.params.solution.error);
    assert_eq!(s.params.solution.cell_state(GridCoord { row: 0, col: 0 }), 1);
}

#[test]
fn malformed_atom_is_a_parse_error() {
    let mut s = SolverState::new(2, 2, 2, 0);
    let r = read_solver_output(&mut s, "action(1,1)\nOptimization: 1\nOPTIMUM FOUND");
    assert!(r.is_err());
}

#[test]
fn stray_text_in_answer_is_a_parse_error() {
    let mut s = SolverState::new(2, 2, 2, 0);
    let r = solution_from_string(&mut s, "action(1,1,1) garbage");
    assert!(r.is_err());
}

#[test]
fn out_of_range_action_is_a_parse_error() {
    let mut s = SolverState::new(2, 2, 2, 0);
    assert!(solution_from_string(&mut s, "action(3,1,1)").is_err());
    assert!(solution_from_string(&mut s, "action(0,1,1)").is_err());
    assert!(solution_from_string(&mut s, "action(1,1,2)").is_err());
}

#[test]
fn whitespace_between_atoms_is_ignored() {
    let mut s = SolverState::new(2, 2, 2, 0);
    let r = solution_from_string(&mut s, "  action(1,1,1)\t action(2,2,1)  ");
    assert!(r.is_ok());
    assert_eq!(s.params.solution.cell_state(GridCoord { row: 0, col: 0 }), 1);
    assert_eq!(s.params.solution.cell_state(GridCoord { row: 1, col: 1 }), 1);
    assert_eq!(s.params.solution.cell_state(GridCoord { row: 0, col: 1 }), 0);
}

#[test]
fn empty_answer_line_is_accepted() {
    let mut s = SolverState::new(2, 2, 2, 0);
    let r = solution_from_string(&mut s, "");
    assert!(r.is_ok());
    for row in 0..2 {
        for col in 0..2 {
            assert_eq!(s.params.solution.cell_state(GridCoord { row, col }), 0);
        }
    }
}

#[test]
fn solver_program_states_the_rules() {
    assert!(SOLVER_PROGRAM.contains("#show action/3."));
    assert!(SOLVER_PROGRAM.contains("|X - A| + |Y - B| <= 1"));
    assert!(SOLVER_PROGRAM.contains("clicks(0..States-1) :- states(States)."));
}
