use sudoku_search::{Digit, Grid, Next, PartialySolvedGrid, SolvedGrid, NB_CELL};

fn all_solutions(grid: &Grid) -> Vec<[u8; NB_CELL]> {
    let mut solver = grid.try_solve();
    let mut out = Vec::new();
    while let Some(s) = solver.next() {
        out.push(s.grid.to_u8s());
    }
    out
}

fn is_valid_solution(s: &[u8; NB_CELL]) -> bool {
    for p in 0..NB_CELL {
        if s[p] == 0 {
            return false;
        }
        for q in 0..NB_CELL {
            let same_row = p / 4 == q / 4;
            let same_col = p % 4 == q % 4;
            let same_block = p / 8 == q / 8 && (p % 4) / 2 == (q % 4) / 2;
            if q != p && (same_row || same_col || same_block) && s[q] == s[p] {
                return false;
            }
        }
    }
    true
}

#[test]
fn accept_without_conflict() {
    let grid = Grid::from_u8s([1, 0, 0, 0, 0, 0, 0, 0, 0, 0, 0, 0, 0, 0, 0, 0]);
    assert!(grid.can_accept_digit_at_pos(Digit::Two, 1));
    assert!(grid.can_accept_digit_at_pos(Digit::One, 15));
    assert!(grid.can_accept_digit_at_pos(Digit::One, 6));
}

#[test]
fn refuse_row_column_and_block_conflicts() {
    let grid = Grid::from_u8s([1, 0, 0, 0, 0, 0, 0, 0, 0, 0, 0, 0, 0, 0, 0, 0]);
    assert!(!grid.can_accept_digit_at_pos(Digit::One, 3));
    assert!(!grid.can_accept_digit_at_pos(Digit::One, 12));
    assert!(!grid.can_accept_digit_at_pos(Digit::One, 5));
}

#[test]
fn own_cell_is_not_a_conflict() {
    let grid = Grid::from_u8s([1, 0, 0, 0, 0, 0, 0, 0, 0, 0, 0, 0, 0, 0, 0, 0]);
    assert!(grid.can_accept_digit_at_pos(Digit::One, 0));
    assert!(grid.can_accept_digit_at_pos(Digit::Three, 0));
}

#[test]
fn next_digits_are_greater() {
    assert_eq!(Some(Digit::One).get_all_next(), vec![Digit::Two, Digit::Three, Digit::Four]);
    assert_eq!(Some(Digit::Four).get_all_next(), Vec::<Digit>::new());
    assert_eq!(None.get_all_next(), vec![Digit::One, Digit::Two, Digit::Three, Digit::Four]);
}

#[test]
fn digit_glyphs() {
    assert_eq!(Digit::One.to_char(), '1');
    assert_eq!(Digit::Four.to_char(), '4');
}

#[test]
fn u8_round_trip() {
    let a = [1, 0, 3, 4, 0, 0, 2, 0, 0, 0, 0, 0, 4, 3, 2, 1];
    assert_eq!(Grid::from_u8s(a).to_u8s(), a);
}

#[test]
fn empty_grid_has_all_solutions_in_increasing_order() {
    let sols = all_solutions(&Grid::empty());
    assert_eq!(sols.len(), 288);
    for w in sols.windows(2) {
        assert!(w[0] < w[1]);
    }
    assert!(sols.iter().all(is_valid_solution));
    assert_eq!(sols[287], [4, 3, 2, 1, 2, 1, 4, 3, 3, 4, 1, 2, 1, 2, 3, 4]);
}

#[test]
fn givens_are_kept_in_every_solution() {
    let start = [0, 2, 0, 0, 0, 0, 3, 0, 0, 0, 0, 0, 4, 0, 0, 0];
    let sols = all_solutions(&Grid::from_u8s(start));
    assert_eq!(sols.len(), 3);
    assert_eq!(sols[0], [3, 2, 1, 4, 1, 4, 3, 2, 2, 1, 4, 3, 4, 3, 2, 1]);
    assert_eq!(sols[1], [3, 2, 1, 4, 1, 4, 3, 2, 2, 3, 4, 1, 4, 1, 2, 3]);
    for s in &sols {
        assert!(is_valid_solution(s));
        for i in 0..NB_CELL {
            if start[i] != 0 {
                assert_eq!(s[i], start[i]);
            }
        }
    }
}

#[test]
fn one_given_leaves_a_quarter_of_the_solutions() {
    let mut start = [0u8; NB_CELL];
    start[5] = 1;
    let sols = all_solutions(&Grid::from_u8s(start));
    assert_eq!(sols.len(), 72);
    assert_eq!(sols[0], [2, 3, 1, 4, 4, 1, 2, 3, 1, 4, 3, 2, 3, 2, 4, 1]);
    assert!(sols.iter().all(|s| is_valid_solution(s) && s[5] == 1));
}

#[test]
fn exhaustion_is_final() {
    let grid = Grid::from_u8s([1, 2, 3, 4, 3, 4, 1, 2, 2, 1, 4, 3, 4, 3, 2, 0]);
    let mut solver = grid.try_solve();
    let only: SolvedGrid = solver.next().unwrap();
    assert_eq!(only.grid.to_u8s(), [1, 2, 3, 4, 3, 4, 1, 2, 2, 1, 4, 3, 4, 3, 2, 1]);
    assert!(solver.next().is_none());
    assert!(solver.next().is_none());
    assert!(!solver.make_progress());
    assert!(solver.next().is_none());
}

#[test]
fn unsolvable_grid_gives_nothing() {
    let grid = Grid::from_u8s([1, 2, 0, 0, 0, 0, 3, 4, 0, 0, 0, 0, 0, 0, 0, 0]);
    let mut solver = grid.try_solve();
    assert!(solver.next().is_none());
    assert!(solver.next().is_none());
    assert_eq!(grid.to_u8s(), [1, 2, 0, 0, 0, 0, 3, 4, 0, 0, 0, 0, 0, 0, 0, 0]);
}

#[test]
fn same_start_same_sequence() {
    let start = Grid::from_u8s([0, 0, 0, 0, 0, 0, 0, 0, 0, 0, 4, 0, 0, 0, 0, 0]);
    let other = Grid::from_u8s([0, 0, 0, 0, 0, 0, 0, 0, 0, 0, 4, 0, 0, 0, 0, 0]);
    let a = all_solutions(&start);
    let b = all_solutions(&other);
    assert_eq!(a.len(), 72);
    assert_eq!(a, b);
}

#[test]
fn render_filled_cells() {
    let grid = Grid::from_u8s([1, 2, 3, 4, 3, 4, 1, 2, 2, 1, 4, 3, 0, 3, 2, 1]);
    assert_eq!(
        grid.to_string(),
        "┌──┬──┐\n│12│34│\n│34│12│\n├──┼──┤\n│21│43│\n│.3│21│\n└──┴──┘\n"
    );
}

#[test]
fn advance_passes_over_a_given() {
    let mut psg = PartialySolvedGrid { grid: Grid::from_u8s([3, 0, 0, 0, 0, 0, 0, 0, 0, 0, 0, 0, 0, 0, 0, 0]), fill_until: 0 };
    assert!(psg.try_fill_next_cell());
    assert_eq!(psg.fill_until, 1);
    assert!(psg.try_fill_next_cell());
    assert_eq!(psg.fill_until, 2);
    assert_eq!(psg.grid.to_u8s(), [3, 1, 0, 0, 0, 0, 0, 0, 0, 0, 0, 0, 0, 0, 0, 0]);
}

#[test]
fn advance_fails_at_a_dead_end_and_at_the_end() {
    let mut psg = PartialySolvedGrid { grid: Grid::from_u8s([1, 2, 0, 0, 0, 0, 3, 4, 0, 0, 0, 0, 0, 0, 0, 0]), fill_until: 2 };
    assert!(!psg.try_fill_next_cell());
    assert_eq!(psg.fill_until, 2);
    assert_eq!(psg.grid.to_u8s()[2], 0);
    let mut full = PartialySolvedGrid { grid: Grid::from_u8s([1, 2, 3, 4, 3, 4, 1, 2, 2, 1, 4, 3, 4, 3, 2, 1]), fill_until: NB_CELL };
    assert!(!full.try_fill_next_cell());
    assert_eq!(full.fill_until, NB_CELL);
}

#[test]
fn redecide_takes_the_next_fitting_digit() {
    let mut psg = PartialySolvedGrid { grid: Grid::from_u8s([1, 2, 0, 0, 0, 0, 0, 0, 0, 0, 0, 0, 0, 0, 0, 0]), fill_until: 2 };
    assert!(psg.try_increment_cell_at_index(1));
    assert_eq!(psg.fill_until, 2);
    assert_eq!(psg.grid.to_u8s()[1], 3);
}

#[test]
fn redecide_retreats_when_nothing_fits() {
    let mut psg = PartialySolvedGrid { grid: Grid::from_u8s([1, 4, 0, 0, 0, 0, 0, 0, 0, 0, 0, 0, 0, 0, 0, 0]), fill_until: 2 };
    assert!(!psg.try_increment_cell_at_index(1));
    assert_eq!(psg.fill_until, 1);
    assert_eq!(psg.grid.to_u8s()[1], 0);
}
