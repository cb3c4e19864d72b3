use sudoku::board::GRID;
use sudoku::display::grid_text;
use sudoku::profile::{current_millis, elapsed_millis, profile_puzzles, timed_solve, Tally};
use sudoku::puzzle::solve;

const EASY: &str =
    "003020600900305001001806400008102900700000008006708200002609500800203009005010300";

#[test]
fn elapsed_time_is_the_difference() {
    assert_eq!(elapsed_millis(1_000, 1_250), 250);
    assert_eq!(elapsed_millis(7, 7), 0);
    assert_eq!(elapsed_millis(9, 3), 0);
    assert_eq!(elapsed_millis(0, u128::MAX), u128::MAX);
}

#[test]
fn the_clock_is_past_the_year_2001() {
    assert!(current_millis() > 1_000_000_000_000);
}

#[test]
fn timed_solve_solves() {
    let mut grid = GRID.clone();
    let mut expected = GRID.clone();
    assert_eq!(solve(EASY, &mut expected), Ok(true));
    let elapsed = timed_solve(EASY, &mut grid);
    assert!(elapsed.is_some());
    assert!(elapsed.unwrap() < 20_000);
    assert_eq!(grid, expected);
}

#[test]
fn timed_solve_gives_nothing_for_what_is_not_solved() {
    let mut grid = GRID.clone();
    assert_eq!(timed_solve("11", &mut grid), None);
    let mut grid = GRID.clone();
    assert_eq!(timed_solve("1a", &mut grid), None);
    assert_eq!(grid, GRID);
}

#[test]
fn the_tally_counts_sums_and_keeps_the_greatest() {
    let mut tally = Tally::new();
    assert_eq!((tally.count, tally.total_time, tally.max_time), (0, 0, 0));
    tally.record(10);
    tally.record(25);
    tally.record(4);
    assert_eq!((tally.count, tally.total_time, tally.max_time), (3, 39, 25));
    assert_eq!(tally.summary(), (3, 13, 25));
}

#[test]
fn the_sum_of_the_tally_stops_at_the_greatest_number() {
    let mut tally = Tally::new();
    tally.record(u128::MAX - 1);
    tally.record(5);
    assert_eq!((tally.count, tally.total_time, tally.max_time), (2, u128::MAX, u128::MAX - 1));
    assert_eq!(tally.summary(), (2, u128::MAX / 2, u128::MAX - 1));
}

#[test]
fn profile_counts_the_puzzles() {
    let puzzles = [EASY, ".", EASY];
    let (count, mean, greatest) = profile_puzzles(&puzzles).unwrap();
    assert_eq!(count, 3);
    assert!(mean <= greatest);
    assert!(greatest < 60_000);
}

#[test]
fn profile_stops_at_a_puzzle_that_is_not_solved() {
    assert_eq!(profile_puzzles(&[EASY, "11", EASY]), None);
    assert_eq!(profile_puzzles(&["33"]), None);
}

#[test]
fn the_fresh_board_as_text() {
    let line = "123456789 ".repeat(9) + "\n";
    assert_eq!(grid_text(&GRID), line.repeat(9));
}

#[test]
fn a_solved_board_as_text() {
    let mut grid = GRID.clone();
    assert_eq!(solve(EASY, &mut grid), Ok(true));
    let text = grid_text(&grid);
    let lines: Vec<&str> = text.lines().collect();
    assert_eq!(lines.len(), 9);
    assert_eq!(lines[0], "4 8 3 9 2 1 6 5 7 ");
    assert_eq!(lines[8], "6 9 5 4 1 7 3 8 2 ");
    assert_eq!(text.len(), 171);
}

#[test]
fn an_empty_cell_as_text() {
    let mut grid = GRID.clone();
    grid[0] = 0;
    grid[1] = 0b1_0000_0001;
    let text = grid_text(&grid);
    assert!(text.starts_with(" 19 123456789 "));
}
