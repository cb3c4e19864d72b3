use sudoku::board::{new_board, GRID};
use sudoku::propagate::assign;
use sudoku::puzzle::{solve, InvalidInput};
use sudoku::search::{search, unsolved_square_with_fewest_values};

const EASY: &str =
    "003020600900305001001806400008102900700000008006708200002609500800203009005010300";

const EASY_SOLVED: &str =
    "483921657967345821251876493548132976729564138136798245372689514814253769695417382";

const HARD: &str =
    "85...24..72......9..4.........1.7..23.5...9...4...........8..7..17..........36.4.";

fn digits(grid: &[u16; 81]) -> String {
    let mut text = String::new();
    for square in 0..81 {
        assert_eq!(grid[square].count_ones(), 1);
        assert!(grid[square] <= 0x1ff);
        text.push((b'1' + grid[square].trailing_zeros() as u8) as char);
    }
    text
}

fn unit_is_a_permutation(grid: &[u16; 81], cells: &[usize]) -> bool {
    let mut seen = 0u16;
    for cell in cells.iter() {
        if grid[*cell].count_ones() != 1 {
            return false;
        }
        seen |= grid[*cell];
    }
    cells.len() == 9 && seen == 0x1ff
}

fn every_unit_is_a_permutation(grid: &[u16; 81]) -> bool {
    for u in 0..9 {
        let row: Vec<usize> = (0..9).map(|n| 9 * u + n).collect();
        let column: Vec<usize> = (0..9).map(|n| 9 * n + u).collect();
        let corner = 27 * (u / 3) + 3 * (u % 3);
        let block: Vec<usize> = (0..9).map(|n| corner + 9 * (n / 3) + n % 3).collect();
        if !unit_is_a_permutation(grid, &row)
            || !unit_is_a_permutation(grid, &column)
            || !unit_is_a_permutation(grid, &block)
        {
            return false;
        }
    }
    true
}

fn keeps_the_clues(puzzle: &str, grid: &[u16; 81]) -> bool {
    puzzle
        .bytes()
        .enumerate()
        .all(|(square, c)| c == b'.' || c == b'0' || grid[square] == 1u16 << (c - b'1'))
}

#[test]
fn the_easy_puzzle_has_its_known_solution() {
    let mut grid = GRID.clone();
    assert_eq!(solve(EASY, &mut grid), Ok(true));
    assert_eq!(digits(&grid), EASY_SOLVED);
    assert!(every_unit_is_a_permutation(&grid));
    assert!(keeps_the_clues(EASY, &grid));
}

#[test]
fn the_empty_puzzle_is_solved_with_some_valid_grid() {
    let puzzle = ".".repeat(81);
    let mut grid = GRID.clone();
    assert_eq!(solve(&puzzle, &mut grid), Ok(true));
    assert!(every_unit_is_a_permutation(&grid));
    // The first candidate of the first unsolved cell is tried first.
    assert_eq!(&digits(&grid)[0..9], "123456789");
}

#[test]
fn two_equal_clues_in_a_row_fail() {
    let puzzle = format!("11{}", ".".repeat(79));
    let mut grid = GRID.clone();
    assert_eq!(solve(&puzzle, &mut grid), Ok(false));
}

#[test]
fn two_equal_clues_in_a_column_or_a_box_fail() {
    let mut column = vec![b'.'; 81];
    column[4] = b'7';
    column[76] = b'7';
    let mut grid = GRID.clone();
    assert_eq!(solve(std::str::from_utf8(&column).unwrap(), &mut grid), Ok(false));

    let mut block = vec![b'.'; 81];
    block[30] = b'3';
    block[50] = b'3';
    let mut grid = GRID.clone();
    assert_eq!(solve(std::str::from_utf8(&block).unwrap(), &mut grid), Ok(false));

    let mut apart = vec![b'.'; 81];
    apart[30] = b'3';
    apart[51] = b'3';
    let mut grid = GRID.clone();
    assert_eq!(solve(std::str::from_utf8(&apart).unwrap(), &mut grid), Ok(true));
    assert!(every_unit_is_a_permutation(&grid));
}

#[test]
fn the_hard_puzzle_is_solved() {
    let mut grid = GRID.clone();
    assert_eq!(solve(HARD, &mut grid), Ok(true));
    assert!(every_unit_is_a_permutation(&grid));
    assert!(keeps_the_clues(HARD, &grid));
}

#[test]
fn solving_twice_gives_the_same_board() {
    for puzzle in [EASY, HARD] {
        let mut first = GRID.clone();
        let mut second = GRID.clone();
        assert_eq!(solve(puzzle, &mut first), solve(puzzle, &mut second));
        assert_eq!(first, second);
    }
}

#[test]
fn zero_and_dot_are_both_blank() {
    let mut with_zeros = GRID.clone();
    let mut with_dots = GRID.clone();
    let dotted = EASY.replace('0', ".");
    assert_eq!(solve(EASY, &mut with_zeros), Ok(true));
    assert_eq!(solve(&dotted, &mut with_dots), Ok(true));
    assert_eq!(with_zeros, with_dots);
}

#[test]
fn another_character_is_invalid_input() {
    let puzzle = EASY.replace('9', "x");
    let mut grid = GRID.clone();
    assert_eq!(solve(&puzzle, &mut grid), Err(InvalidInput));
    assert_eq!(grid, GRID);

    let mut grid = GRID.clone();
    assert_eq!(solve("12 ", &mut grid), Err(InvalidInput));
    assert_eq!(grid, GRID);

    let mut grid = GRID.clone();
    assert_eq!(solve("1\u{e9}", &mut grid), Err(InvalidInput));
    assert_eq!(grid, GRID);
}

#[test]
fn invalid_input_is_found_before_any_clue_is_fixed() {
    let puzzle = format!("11{}?", ".".repeat(78));
    let mut grid = GRID.clone();
    assert_eq!(solve(&puzzle, &mut grid), Err(InvalidInput));
    assert_eq!(grid, GRID);
}

#[test]
fn a_digit_after_the_last_cell_is_invalid_input() {
    let puzzle = format!("{}1", ".".repeat(81));
    let mut grid = GRID.clone();
    assert_eq!(solve(&puzzle, &mut grid), Err(InvalidInput));
    assert_eq!(grid, GRID);
}

#[test]
fn blanks_after_the_last_cell_and_short_texts_are_puzzles() {
    let long = format!("{}..0", EASY);
    let mut grid = GRID.clone();
    assert_eq!(solve(&long, &mut grid), Ok(true));
    assert_eq!(digits(&grid), EASY_SOLVED);

    let mut grid = GRID.clone();
    assert_eq!(solve("", &mut grid), Ok(true));
    assert!(every_unit_is_a_permutation(&grid));

    let mut grid = GRID.clone();
    assert_eq!(solve("5", &mut grid), Ok(true));
    assert_eq!(grid[0], 0b1_0000);
    assert!(every_unit_is_a_permutation(&grid));
}

#[test]
fn no_unsolved_cell_on_a_solved_board() {
    let mut grid = GRID.clone();
    assert_eq!(solve(EASY, &mut grid), Ok(true));
    assert_eq!(unsolved_square_with_fewest_values(&grid), None);
}

#[test]
fn the_first_of_the_cells_with_fewest_candidates_is_chosen() {
    let grid = new_board();
    assert_eq!(unsolved_square_with_fewest_values(&grid), Some(0));

    let mut grid = new_board();
    grid[50] = 0b1_0101;
    grid[60] = 0b0_0111;
    assert_eq!(unsolved_square_with_fewest_values(&grid), Some(50));

    grid[70] = 0b1_0000_0001;
    assert_eq!(unsolved_square_with_fewest_values(&grid), Some(70));

    grid[10] = 0b0_1100;
    assert_eq!(unsolved_square_with_fewest_values(&grid), Some(10));
}

#[test]
fn solved_and_empty_cells_are_not_chosen() {
    let mut grid = new_board();
    grid[0] = 0b1;
    grid[1] = 0;
    grid[2] = 0b1111;
    assert_eq!(unsolved_square_with_fewest_values(&grid), Some(2));

    let mut grid = [0b10u16; 81];
    assert_eq!(unsolved_square_with_fewest_values(&grid), None);
    grid[80] = 0b11;
    assert_eq!(unsolved_square_with_fewest_values(&grid), Some(80));
}

#[test]
fn search_leaves_a_solved_board_as_it_is() {
    let mut grid = GRID.clone();
    assert_eq!(solve(EASY, &mut grid), Ok(true));
    let solved = grid.clone();
    assert_eq!(search(&mut grid), true);
    assert_eq!(grid, solved);
}

#[test]
fn search_fills_the_fresh_board() {
    let mut grid = new_board();
    assert_eq!(search(&mut grid), true);
    assert!(every_unit_is_a_permutation(&grid));
}

#[test]
fn a_failed_search_leaves_the_board_as_it_was() {
    // Cells 0 and 1 may hold 1 or 2, cell 2 must hold 1 or 2 as well.
    let mut grid = new_board();
    grid[0] = 0b11;
    grid[1] = 0b11;
    grid[2] = 0b11;
    let before = grid.clone();
    assert_eq!(search(&mut grid), false);
    assert_eq!(grid, before);
}

#[test]
fn search_goes_on_from_fixed_cells() {
    let mut grid = new_board();
    assert_eq!(assign(&mut grid, 0, 0b1_0000_0000), true);
    assert_eq!(assign(&mut grid, 80, 0b1), true);
    assert_eq!(search(&mut grid), true);
    assert_eq!(grid[0], 0b1_0000_0000);
    assert_eq!(grid[80], 0b1);
    assert!(every_unit_is_a_permutation(&grid));
}
