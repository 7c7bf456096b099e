use lights_out::data::{Grid, GridCoord};

#[test]
fn new_grid_is_all_zero() {
    let g = Grid::new(2, 3, 4);
    for r in 0..2 {
        for c in 0..3 {
            assert_eq!(g.cell_state(GridCoord { row: r, col: c }), 0);
        }
    }
    assert!(!g.error);
    assert!(!g.play);
}

#[test]
fn click_without_play_edits_single_cell() {
    let mut g = Grid::new(2, 2, 3);
    g.click(Some(GridCoord { row: 0, col: 0 }), 1);
    assert_eq!(g.cell_state(GridCoord { row: 0, col: 0 }), 1);
    assert_eq!(g.cell_state(GridCoord { row: 0, col: 1 }), 0);
    assert_eq!(g.cell_state(GridCoord { row: 1, col: 0 }), 0);
    assert_eq!(g.cell_state(GridCoord { row: 1, col: 1 }), 0);
}

#[test]
fn click_wraps_modulo_states() {
    let mut g = Grid::new(1, 1, 3);
    g.click(Some(GridCoord { row: 0, col: 0 }), 2);
    assert_eq!(g.cell_state(GridCoord { row: 0, col: 0 }), 2);
    g.click(Some(GridCoord { row: 0, col: 0 }), 2);
    assert_eq!(g.cell_state(GridCoord { row: 0, col: 0 }), 1);
}

#[test]
fn click_outside_grid_is_a_no_op() {
    let mut g = Grid::new(2, 2, 3);
    g.play = true;
    g.click(None, 1);
    for r in 0..2 {
        for c in 0..2 {
            assert_eq!(g.cell_state(GridCoord { row: r, col: c }), 0);
        }
    }
}

#[test]
fn play_click_toggles_plus_pattern() {
    let mut g = Grid::new(3, 3, 2);
    g.play = true;
    g.click(Some(GridCoord { row: 1, col: 1 }), 1);
    for r in 0..3 {
        for c in 0..3 {
            let expected = if (r as i32 - 1).abs() + (c as i32 - 1).abs() <= 1 { 1 } else { 0 };
            assert_eq!(g.cell_state(GridCoord { row: r, col: c }), expected);
        }
    }
}

#[test]
fn corner_click_has_fewer_neighbors() {
    let mut g = Grid::new(2, 2, 2);
    g.click_adjacent_unchecked(GridCoord { row: 0, col: 0 }, 1);
    assert_eq!(g.cell_state(GridCoord { row: 0, col: 0 }), 1);
    assert_eq!(g.cell_state(GridCoord { row: 0, col: 1 }), 1);
    assert_eq!(g.cell_state(GridCoord { row: 1, col: 0 }), 1);
    assert_eq!(g.cell_state(GridCoord { row: 1, col: 1 }), 0);
}

#[test]
fn adjacent_center_in_fixed_order() {
    let g = Grid::new(3, 3, 2);
    let adj = g.adjacent(GridCoord { row: 1, col: 1 });
    let got: Vec<(usize, usize)> = adj.iter().map(|p| (p.row, p.col)).collect();
    assert_eq!(got, vec![(0, 1), (1, 0), (1, 1), (1, 2), (2, 1)]);
}

#[test]
fn adjacent_corner_stays_on_grid() {
    let g = Grid::new(3, 3, 2);
    let adj = g.adjacent(GridCoord { row: 0, col: 0 });
    let got: Vec<(usize, usize)> = adj.iter().map(|p| (p.row, p.col)).collect();
    assert_eq!(got, vec![(0, 0), (0, 1), (1, 0)]);
}

// Full-period nilpotency: clicking the same coordinate `states` times with
// the same count returns every affected cell to its pre-click state.
#[test]
fn full_period_of_clicks_restores_the_grid() {
    let states = 4;
    let mut g = Grid::new(3, 3, states);
    g.set_cell_state(GridCoord { row: 0, col: 0 }, 3);
    g.set_cell_state(GridCoord { row: 1, col: 1 }, 2);
    g.set_cell_state(GridCoord { row: 2, col: 1 }, 1);
    let before = g.snapshot();
    for n in [1usize, 2, 3] {
        for _ in 0..states {
            g.click_adjacent_unchecked(GridCoord { row: 1, col: 2 }, n);
        }
        for r in 0..3 {
            for c in 0..3 {
                assert_eq!(
                    g.cell_state(GridCoord { row: r, col: c }),
                    before.cell_state(GridCoord { row: r, col: c })
                );
            }
        }
    }
}
