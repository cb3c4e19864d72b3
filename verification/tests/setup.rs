use sudoku::board::GRID;
use sudoku::peers::{horizontal_peers, peers, unit_peers, unit_top_left, vertical_peers};

#[test]
fn there_are_81_squares() {
    assert_eq!(GRID.iter().count(), 81);
}

#[test]
fn test_square_top_left() {
    for i in 0..81 {
        match i {
            0..=2 | 9..=11 | 18..=20 => assert_eq!(unit_top_left(i), 0),
            3..=5 | 12..=14 | 21..=23 => assert_eq!(unit_top_left(i), 3),
            6..=8 | 15..=17 | 24..=26 => assert_eq!(unit_top_left(i), 6),
            27..=29 | 36..=38 | 45..=47 => assert_eq!(unit_top_left(i), 27),
            30..=32 | 39..=41 | 48..=50 => assert_eq!(unit_top_left(i), 30),
            33..=35 | 42..=44 | 51..=53 => assert_eq!(unit_top_left(i), 33),
            54..=56 | 63..=65 | 72..=74 => assert_eq!(unit_top_left(i), 54),
            57..=59 | 66..=68 | 75..=77 => assert_eq!(unit_top_left(i), 57),
            60..=62 | 69..=71 | 78..=80 => assert_eq!(unit_top_left(i), 60),
            _ => assert_eq!(false, true),
        }
    }
}

#[test]
fn each_square_has_8_horizontal_peers() {
    for i in 0..81 {
        // at this point the square is not eliminated from its valid peers
        assert_eq!(horizontal_peers(i).count_ones() - 1, 8);
    }
}

#[test]
fn each_square_has_8_vertical_peers() {
    for i in 0..81 {
        // at this point the square is not eliminated from its valid peers
        assert_eq!(vertical_peers(i).count_ones() - 1, 8);
    }
}

#[test]
fn each_square_has_8_unit_peers() {
    for i in 0..81 {
        // at this point the square is not eliminated from its valid peers
        assert_eq!(unit_peers(i).count_ones() - 1, 8);
    }
}

#[test]
fn test_each_square_has_20_peers() {
    for i in 0..81 {
        assert_eq!(peers(i).count_ones(), 20);
    }
}
