use sudoku::board::GRID;
use sudoku::cells::INITIAL_VALUES;
use sudoku::propagate::eliminate_value_from_peers;

#[test]
fn eliminate_removes_known_value_from_all_peers() {
    let mut grid = GRID.clone();
    let known_value = 0b1000u16;
    let square = 0;

    grid[square] = known_value;

    assert_eq!(eliminate_value_from_peers(&mut grid, square, known_value), true);

    for square in 0..81 {
        let expected = match square {
            0 => known_value,
            1..=11 | 18..=20 | 27 | 36 | 45 | 54 | 63 | 72 => 0b0001_1111_0111,
            _ => INITIAL_VALUES,
        };

        assert_eq!(grid[square], expected);
    }
}

#[test]
fn eliminate_does_nothing_to_peers_without_values_to_remove() {
    let mut grid = GRID.clone();
    let known_value = 0b1u16;
    let peer_value = 0b10u16;
    let square = 0;
    let peer = 4;

    grid[square] = known_value;
    grid[peer] = peer_value;

    assert_eq!(eliminate_value_from_peers(&mut grid, square, known_value), true);

    assert_eq!(grid[square], known_value);
    assert_eq!(grid[peer], peer_value);
}
