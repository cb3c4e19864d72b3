use sudoku::board::{new_board, GRID};
use sudoku::cells::INITIAL_VALUES;
use sudoku::peers::peers;
use sudoku::propagate::{assign, eliminate_value_from_peers};
use sudoku::puzzle::apply_clue;

fn is_peer(i: usize, j: usize) -> bool {
    peers(i as u8) & (1u128 << j) != 0
}

#[test]
fn new_board_allows_everything() {
    let grid = new_board();
    assert_eq!(grid, GRID);
    for square in 0..81 {
        assert_eq!(grid[square], 0b1_1111_1111);
    }
    assert_eq!(INITIAL_VALUES, 511);
}

#[test]
fn assign_clears_the_digit_from_the_20_peers_and_from_nothing_else() {
    for square in 0..81 {
        for b in 0..9 {
            let value = 1u16 << b;
            let mut grid = GRID.clone();
            assert_eq!(assign(&mut grid, square, value), true);
            let mut changed = 0;
            for k in 0..81 {
                if k == square {
                    assert_eq!(grid[k], value);
                } else if is_peer(square, k) {
                    assert_eq!(grid[k], INITIAL_VALUES & !value);
                    changed += 1;
                } else {
                    assert_eq!(grid[k], INITIAL_VALUES);
                }
            }
            assert_eq!(changed, 20);
        }
    }
}

#[test]
fn a_peer_left_with_one_candidate_passes_it_on() {
    let mut grid = GRID.clone();
    // Cell 1 may hold 1 or 2; once cell 0 holds 1, cell 1 holds 2.
    grid[1] = 0b11;
    assert_eq!(assign(&mut grid, 0, 0b1), true);
    assert_eq!(grid[0], 0b1);
    assert_eq!(grid[1], 0b10);
    // Peers of both cells have lost 1 and 2.
    for k in [2, 3, 8, 9, 10, 11, 18, 19, 20] {
        assert_eq!(grid[k], 0b1_1111_1100);
    }
    // Peers of cell 0 alone have lost 1.
    for k in [27, 36, 72] {
        assert_eq!(grid[k], 0b1_1111_1110);
    }
    // Peers of cell 1 alone have lost 2.
    for k in [28, 37, 73] {
        assert_eq!(grid[k], 0b1_1111_1101);
    }
    // The rest is as it was.
    for k in [12, 40, 80] {
        assert_eq!(grid[k], INITIAL_VALUES);
    }
}

#[test]
fn a_cascade_runs_over_several_cells() {
    let mut grid = GRID.clone();
    grid[1] = 0b011;
    grid[2] = 0b110;
    assert_eq!(assign(&mut grid, 0, 0b001), true);
    assert_eq!(grid[0], 0b001);
    assert_eq!(grid[1], 0b010);
    assert_eq!(grid[2], 0b100);
    assert_eq!(grid[3], 0b1_1111_1000);
    assert_eq!(grid[29], 0b1_1111_1011);
}

#[test]
fn a_cell_left_with_nothing_fails() {
    let mut grid = GRID.clone();
    grid[5] = 0b1;
    assert_eq!(eliminate_value_from_peers(&mut grid, 0, 0b1), false);
    assert_eq!(grid[5], 0);
}

#[test]
fn a_cascade_that_empties_a_cell_fails() {
    let mut grid = GRID.clone();
    grid[1] = 0b11;
    grid[2] = 0b10;
    // Cell 1 is left with 2, which empties cell 2.
    assert_eq!(assign(&mut grid, 0, 0b1), false);
}

#[test]
fn a_failed_clearing_only_removes_candidates() {
    let mut grid = GRID.clone();
    grid[40] = 0b1000;
    let before = grid.clone();
    assert_eq!(eliminate_value_from_peers(&mut grid, 41, 0b1000), false);
    for k in 0..81 {
        assert_eq!(grid[k] & !before[k], 0);
    }
}

#[test]
fn clearing_nothing_changes_nothing() {
    let mut grid = GRID.clone();
    assert_eq!(eliminate_value_from_peers(&mut grid, 17, 0), true);
    assert_eq!(grid, GRID);
}

#[test]
fn clearing_several_digits_at_once() {
    let mut grid = GRID.clone();
    assert_eq!(eliminate_value_from_peers(&mut grid, 0, 0b101), true);
    assert_eq!(grid[0], INITIAL_VALUES);
    assert_eq!(grid[1], 0b1_1111_1010);
    assert_eq!(grid[72], 0b1_1111_1010);
    assert_eq!(grid[80], INITIAL_VALUES);
}

#[test]
fn the_same_digit_in_two_peers_is_caught() {
    let mut grid = GRID.clone();
    assert_eq!(assign(&mut grid, 0, 0b1), true);
    assert_eq!(assign(&mut grid, 1, 0b1), false);

    let mut grid = GRID.clone();
    assert_eq!(assign(&mut grid, 0, 0b1), true);
    assert_eq!(assign(&mut grid, 72, 0b1), false);

    let mut grid = GRID.clone();
    assert_eq!(assign(&mut grid, 0, 0b1), true);
    assert_eq!(assign(&mut grid, 20, 0b1), false);

    let mut grid = GRID.clone();
    assert_eq!(assign(&mut grid, 0, 0b1), true);
    assert_eq!(assign(&mut grid, 21, 0b1), true);
}

#[test]
fn apply_clue_fixes_the_digit() {
    let mut grid = new_board();
    assert_eq!(apply_clue(&mut grid, 40, 5), true);
    assert_eq!(grid[40], 0b1_0000);
    assert_eq!(grid[41], 0b1_1110_1111);
    assert_eq!(grid[0], INITIAL_VALUES);
    assert_eq!(apply_clue(&mut grid, 44, 5), false);

    let mut first = new_board();
    let mut second = new_board();
    assert_eq!(apply_clue(&mut first, 3, 9), assign(&mut second, 3, 0b1_0000_0000));
    assert_eq!(first, second);
}
