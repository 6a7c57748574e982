use sudoku_search::{times, Digit, Grid, Next, NB_CELL};

#[test]
fn digit_next() {
    assert_eq!(Some(Digit::Two).get_all_next().len(), 2);
    assert_eq!(None.get_all_next().len(), 4);
}

#[test]
fn iter_solutions() {
    let grid = Grid::empty();
    let mut solver = grid.try_solve();

    let first_solution = solver.next().unwrap();

    let expected = Grid::from_u8s([
        1, 2, 3, 4,
        3, 4, 1, 2,
        2, 1, 4, 3,
        4, 3, 2, 1
    ]);
    assert_eq!(first_solution.grid, expected);

    let second_solution = solver.next().unwrap();

    println!("{}", second_solution.to_string());

    let expected = Grid::from_u8s([
        1, 2, 3, 4,
        3, 4, 1, 2,
        2, 3, 4, 1,
        4, 1, 2, 3
    ]);
    assert_eq!(second_solution.grid, expected);
}

#[test]
fn make_progress_on_full_grid() {
    let grid = Grid::empty();
    let mut solver = grid.try_solve();

    times(NB_CELL).for_each(|_| assert!(solver.make_progress()));

    assert_eq!(solver.psg.fill_until, NB_CELL);
    println!("{}", solver.psg.to_string());

    assert!(solver.make_progress());

    let expected = Grid::from_u8s([
            1, 2, 3, 4,
            3, 4, 1, 2,
            2, 3, 0, 0,
            0, 0, 0, 0,
        ]);

    assert_eq!(solver.psg.grid, expected);

    println!("{}", solver.psg.to_string());
}

#[test]
fn make_progress_on_empty_grid() {
    let grid = Grid::empty();
    let mut solver = grid.try_solve();
    assert!(solver.make_progress());

    println!("{}", solver.psg.to_string());
}

#[test]
fn display_empty_grid() {
    let grid = Grid::empty();
    let s = grid.to_string();
    assert_eq!(
        s,
        r"┌──┬──┐
│..│..│
│..│..│
├──┼──┤
│..│..│
│..│..│
└──┴──┘
"
    );
}
