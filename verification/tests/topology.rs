use sudoku::peers::{horizontal_peers, peers, unit_peers, unit_top_left, vertical_peers};

fn same_row(i: u8, j: u8) -> bool {
    i / 9 == j / 9
}

fn same_column(i: u8, j: u8) -> bool {
    i % 9 == j % 9
}

fn same_box(i: u8, j: u8) -> bool {
    i / 27 == j / 27 && (i % 9) / 3 == (j % 9) / 3
}

#[test]
fn row_of_the_first_cell_is_the_low_nine_bits() {
    assert_eq!(horizontal_peers(0), 0x1ff);
    assert_eq!(horizontal_peers(8), 0x1ff);
    assert_eq!(horizontal_peers(9), 0x1ff << 9);
    assert_eq!(horizontal_peers(80), 0x1ffu128 << 72);
}

#[test]
fn column_of_the_first_cell_is_every_ninth_bit() {
    let mut expected = 0u128;
    for r in 0..9 {
        expected |= 1u128 << (9 * r);
    }
    assert_eq!(vertical_peers(0), expected);
    assert_eq!(vertical_peers(72), expected);
    assert_eq!(vertical_peers(80), expected << 8);
}

#[test]
fn box_of_the_middle_cell() {
    let cells = [30, 31, 32, 39, 40, 41, 48, 49, 50];
    let mut expected = 0u128;
    for c in cells.iter() {
        expected |= 1u128 << c;
    }
    assert_eq!(unit_top_left(40), 30);
    assert_eq!(unit_peers(40), expected);
    assert_eq!(unit_peers(30), expected);
    assert_eq!(unit_peers(50), expected);
}

#[test]
fn peers_of_the_first_cell() {
    let cells = [1, 2, 3, 4, 5, 6, 7, 8, 9, 10, 11, 18, 19, 20, 27, 36, 45, 54, 63, 72];
    let mut expected = 0u128;
    for c in cells.iter() {
        expected |= 1u128 << c;
    }
    assert_eq!(peers(0), expected);
}

#[test]
fn peers_of_the_last_cell() {
    let cells = [72, 73, 74, 75, 76, 77, 78, 79, 8, 17, 26, 35, 44, 53, 62, 71, 60, 61, 69, 70];
    let mut expected = 0u128;
    for c in cells.iter() {
        expected |= 1u128 << c;
    }
    assert_eq!(peers(80), expected);
}

#[test]
fn no_cell_is_its_own_peer() {
    for i in 0..81u8 {
        assert_eq!(peers(i) & (1u128 << i), 0);
    }
}

#[test]
fn peers_are_the_other_cells_of_row_column_and_box() {
    for i in 0..81u8 {
        let m = peers(i);
        for j in 0..128u8 {
            let expected = j < 81 && j != i && (same_row(i, j) || same_column(i, j) || same_box(i, j));
            assert_eq!(m & (1u128 << j) != 0, expected);
        }
    }
}

#[test]
fn being_a_peer_is_mutual() {
    for i in 0..81u8 {
        for j in 0..81u8 {
            assert_eq!(peers(i) & (1u128 << j) != 0, peers(j) & (1u128 << i) != 0);
        }
    }
}
