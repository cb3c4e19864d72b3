//! Finished grids: what a solution is, and when a board holds one.
use vstd::prelude::*;
use crate::board::{fresh_board, grid_within, is_grid};
use crate::cells::{
    allows, apart, count, digit_mask, is_open, is_single, lemma_count, within,
};
use crate::peers::{box_of, column_of, is_cell, is_peer, lemma_coordinates, row_of};
use crate::propagate::{can_settle, is_propagated, settled};

verus! {

/// `s` gives each of the 81 cells a digit from 1 to 9, and no two peers the
/// same digit.
pub open spec fn is_solution(s: Seq<int>) -> bool {
    &&& s.len() == 81
    &&& forall|k: int| 0 <= k < 81 ==> 1 <= #[trigger] s[k] <= 9
    &&& forall|i: int, j: int| #[trigger] is_peer(i, j) ==> s[i] != s[j]
}

/// Board `g` allows each cell the digit that `s` gives it.
pub open spec fn fits(s: Seq<int>, g: Seq<u16>) -> bool {
    &&& s.len() == 81
    &&& is_grid(g)
    &&& forall|k: int| 0 <= k < 81 ==> allows(#[trigger] g[k], s[k])
}

/// The board on which each cell has the digit that `s` gives it as its only
/// candidate.
pub open spec fn board_of(s: Seq<int>) -> Seq<u16> {
    Seq::new(81, |k: int| digit_mask(s[k]))
}

/// `a` holds one of the digits 1 to 9 and nothing else.
pub open spec fn is_digit_set(a: u16) -> bool {
    is_single(a) && a <= 0x1ff
}

/// The digit of a candidate set that holds one digit.
pub open spec fn digit_of(a: u16) -> int {
    choose|d: int| 1 <= d <= 9 && a == digit_mask(d)
}

/// Every cell of `g` has one candidate left, a digit from 1 to 9, and no two
/// peers have the same.
pub open spec fn is_solved(g: Seq<u16>) -> bool {
    &&& is_grid(g)
    &&& forall|k: int| 0 <= k < 81 ==> is_digit_set(#[trigger] g[k])
    &&& forall|i: int, j: int| #[trigger] is_peer(i, j) ==> apart(g[i], g[j])
}

/// The digits of a solved board, cell by cell.
pub open spec fn solution_of(g: Seq<u16>) -> Seq<int> {
    Seq::new(81, |k: int| digit_of(g[k]))
}

proof fn lemma_masks(d: u16, e: u16, a: u16)
    by (bit_vector)
    requires
        1 <= d <= 9,
        1 <= e <= 9,
    ensures
        is_single(1u16 << ((d - 1) as u16)),
        1u16 << ((d - 1) as u16) <= 0x1ff,
        d != e <==> apart(1u16 << ((d - 1) as u16), 1u16 << ((e - 1) as u16)),
        a & (1u16 << ((d - 1) as u16)) != 0 <==> within(1u16 << ((d - 1) as u16), a),
        a & (1u16 << ((d - 1) as u16)) != 0 <==> !apart(a, 1u16 << ((d - 1) as u16)),
{
}

proof fn lemma_single_is_mask(a: u16)
    by (bit_vector)
    requires
        is_single(a),
        a <= 0x1ff,
    ensures
        a == 1u16 << 0u16 || a == 1u16 << 1u16 || a == 1u16 << 2u16 || a == 1u16 << 3u16 || a
            == 1u16 << 4u16 || a == 1u16 << 5u16 || a == 1u16 << 6u16 || a == 1u16 << 7u16 || a
            == 1u16 << 8u16,
{
}

/// The candidate set of one digit: it has one member, the digit; two such sets
/// share a member only where the digits are the same; and a candidate set
/// allows the digit where it holds the whole set.
pub proof fn lemma_digit_mask(d: int, e: int, a: u16)
    requires
        1 <= d <= 9,
        1 <= e <= 9,
    ensures
        is_digit_set(digit_mask(d)),
        digit_mask(d) != 0,
        d != e <==> apart(digit_mask(d), digit_mask(e)),
        d == e <==> digit_mask(d) == digit_mask(e),
        allows(a, d) <==> within(digit_mask(d), a),
        allows(a, d) <==> !apart(a, digit_mask(d)),
        digit_of(digit_mask(d)) == d,
{
    lemma_masks(d as u16, e as u16, a);
    lemma_masks(d as u16, d as u16, a);
    let m = digit_mask(d);
    assert forall|x: int| 1 <= x <= 9 && m == digit_mask(x) implies x == d by {
        lemma_masks(d as u16, x as u16, a);
        lemma_masks(x as u16, x as u16, a);
    }
}

/// A candidate set with one of the digits 1 to 9 in it is the set of its digit.
pub proof fn lemma_digit_of(a: u16)
    requires
        is_digit_set(a),
    ensures
        1 <= digit_of(a) <= 9,
        a == digit_mask(digit_of(a)),
{
    lemma_single_is_mask(a);
    assert(a == digit_mask(1) || a == digit_mask(2) || a == digit_mask(3) || a == digit_mask(4)
        || a == digit_mask(5) || a == digit_mask(6) || a == digit_mask(7) || a == digit_mask(8)
        || a == digit_mask(9));
}

/// A solved board holds a solution, and is the board of that solution.
pub proof fn lemma_solved_board(g: Seq<u16>)
    requires
        is_solved(g),
    ensures
        is_solution(solution_of(g)),
        board_of(solution_of(g)) == g,
        fits(solution_of(g), g),
{
    let s = solution_of(g);
    assert forall|k: int| 0 <= k < 81 implies 1 <= #[trigger] s[k] <= 9 && g[k] == digit_mask(
        s[k],
    ) && allows(g[k], s[k]) by {
        assert(is_digit_set(g[k]));
        lemma_digit_of(g[k]);
        lemma_digit_mask(s[k], s[k], g[k]);
    }
    assert forall|i: int, j: int| #[trigger] is_peer(i, j) implies s[i] != s[j] by {
        assert(apart(g[i], g[j]));
        assert(1 <= s[i] <= 9 && g[i] == digit_mask(s[i]));
        assert(1 <= s[j] <= 9 && g[j] == digit_mask(s[j]));
        lemma_digit_mask(s[i], s[j], 0);
    }
    assert(board_of(s) =~= g);
}

/// The board of a solution is solved, and holds that solution.
pub proof fn lemma_board_of_solution(s: Seq<int>)
    requires
        is_solution(s),
    ensures
        is_solved(board_of(s)),
        solution_of(board_of(s)) == s,
        fits(s, board_of(s)),
{
    let g = board_of(s);
    assert forall|k: int| 0 <= k < 81 implies is_digit_set(#[trigger] g[k]) && digit_of(g[k])
        == s[k] && allows(g[k], s[k]) by {
        assert(1 <= s[k] <= 9);
        lemma_digit_mask(s[k], s[k], g[k]);
    }
    assert forall|i: int, j: int| #[trigger] is_peer(i, j) implies apart(g[i], g[j]) by {
        assert(1 <= s[i] <= 9);
        assert(1 <= s[j] <= 9);
        lemma_digit_mask(s[i], s[j], 0);
    }
    assert(solution_of(g) =~= s);
}

/// A board allows a solution exactly where the board of the solution lies
/// within it.
pub proof fn lemma_fits_within(s: Seq<int>, g: Seq<u16>)
    requires
        is_solution(s),
        is_grid(g),
    ensures
        fits(s, g) <==> grid_within(board_of(s), g),
{
    let b = board_of(s);
    assert forall|k: int| 0 <= k < 81 implies (allows(g[k], s[k]) <==> within(b[k], g[k])) by {
        assert(1 <= s[k] <= 9);
        lemma_digit_mask(s[k], s[k], g[k]);
    }
    if fits(s, g) {
        assert forall|k: int| 0 <= k < 81 implies within(#[trigger] b[k], g[k]) by {
            assert(allows(g[k], s[k]));
        }
    }
    if grid_within(b, g) {
        assert forall|k: int| 0 <= k < 81 implies allows(#[trigger] g[k], s[k]) by {
            assert(within(b[k], g[k]));
        }
    }
}

/// Clearing the digit that a solution gives to `square` from the peers of
/// `square` can be done on every board that allows the solution, and the
/// board of the solution is a possible outcome.
pub proof fn lemma_solution_settles(g: Seq<u16>, s: Seq<int>, square: int)
    requires
        is_solution(s),
        fits(s, g),
        is_cell(square),
    ensures
        settled(g, board_of(s), square, digit_mask(s[square])),
{
    let b = board_of(s);
    lemma_fits_within(s, g);
    lemma_board_of_solution(s);
    assert forall|p: int| #[trigger] is_peer(square, p) implies apart(
        b[p],
        digit_mask(s[square]),
    ) by {
        assert(apart(b[square], b[p]));
        lemma_apart_swap(b[square], b[p]);
    }
    assert forall|k: int| 0 <= k < 81 implies #[trigger] b[k] != 0 by {
        assert(is_digit_set(b[k]));
    }
    assert forall|k: int, q: int| #[trigger] is_peer(k, q) implies apart(b[q], b[k]) by {
        assert(apart(b[k], b[q]));
        lemma_apart_swap(b[k], b[q]);
    }
}

proof fn lemma_apart_swap(a: u16, b: u16)
    by (bit_vector)
    ensures
        apart(a, b) <==> apart(b, a),
{
}

/// No cell of `g` is empty or allows anything but the digits 1 to 9, and the
/// candidate of a cell that has one left is a candidate of none of its peers.
/// The board with all candidates is such a board, and fixing a cell of such a
/// board leaves such a board.
pub open spec fn is_consistent(g: Seq<u16>) -> bool {
    &&& is_grid(g)
    &&& forall|k: int| 0 <= k < 81 ==> #[trigger] g[k] != 0 && g[k] <= 0x1ff
    &&& forall|k: int, q: int| is_single(g[k]) && #[trigger] is_peer(k, q) ==> apart(g[q], g[k])
}

proof fn lemma_nine(a: u16, b: u16, c: u16)
    by (bit_vector)
    ensures
        a <= 0x1ff ==> count(a) <= 9,
        within(a, b) && b <= 0x1ff ==> a <= 0x1ff,
        within(a, b) && apart(c, b) ==> apart(a, c),
        within(a, b) && apart(b, c) ==> apart(a, c),
        within(a, b) && is_single(b) && a != 0 ==> a == b,
{
}

/// The board that fixing a cell leaves of a consistent board is consistent.
pub proof fn lemma_consistent_assigned(g: Seq<u16>, h: Seq<u16>, square: int, value: u16)
    requires
        is_consistent(g),
        is_cell(square),
        value != 0,
        value <= 0x1ff,
        is_propagated(g.update(square, value), h, square, value),
    ensures
        is_consistent(h),
{
    let g1 = g.update(square, value);
    assert forall|k: int| 0 <= k < 81 implies #[trigger] h[k] != 0 && h[k] <= 0x1ff by {
        assert(within(h[k], g1[k]));
        assert(g[k] != 0 && g[k] <= 0x1ff);
        lemma_nine(h[k], g1[k], 0);
    }
    assert forall|k: int, q: int| is_single(h[k]) && #[trigger] is_peer(k, q) implies apart(
        h[q],
        h[k],
    ) by {
        assert(within(h[q], g1[q]));
        assert(within(h[k], g1[k]));
        if h[k] != g1[k] {
        } else if k == square {
        } else {
            assert(apart(g[q], g[k]));
            if q == square {
                assert(is_peer(square, k));
                assert(apart(h[k], value));
                lemma_nine(h[q], value, h[k]);
            } else {
                lemma_nine(h[q], g[q], g[k]);
            }
        }
    }
}

/// A consistent board without an unsolved cell is solved.
pub proof fn lemma_consistent_solved(g: Seq<u16>)
    requires
        is_consistent(g),
        forall|k: int| 0 <= k < 81 ==> !is_open(#[trigger] g[k]),
    ensures
        is_solved(g),
{
    assert forall|k: int| 0 <= k < 81 implies is_digit_set(#[trigger] g[k]) by {
        assert(g[k] != 0 && g[k] <= 0x1ff);
        lemma_nine(g[k], 0, 0);
        lemma_count(g[k]);
    }
    assert forall|i: int, j: int| #[trigger] is_peer(i, j) implies apart(g[i], g[j]) by {
        assert(is_peer(j, i));
        assert(is_digit_set(g[j]));
    }
}

/// Fixing a cell to the digit that a solution gives it can be done on every
/// board that allows the solution, and the board that it leaves allows the
/// solution still.
pub proof fn lemma_fixing_keeps_solution(g: Seq<u16>, s: Seq<int>, square: int)
    requires
        is_solution(s),
        fits(s, g),
        is_cell(square),
    ensures
        can_settle(g.update(square, digit_mask(s[square])), square, digit_mask(s[square])),
        forall|h: Seq<u16>| #[trigger]
            is_propagated(g.update(square, digit_mask(s[square])), h, square, digit_mask(s[square]))
                ==> fits(s, h),
{
    let m = digit_mask(s[square]);
    let g1 = g.update(square, m);
    assert(1 <= s[square] <= 9);
    lemma_digit_mask(s[square], s[square], m);
    assert forall|k: int| 0 <= k < 81 implies allows(#[trigger] g1[k], s[k]) by {
        assert(allows(g[k], s[k]));
    }
    assert(fits(s, g1));
    lemma_solution_settles(g1, s, square);
    assert forall|h: Seq<u16>| #[trigger] is_propagated(g1, h, square, m) implies fits(s, h) by {
        assert(grid_within(board_of(s), h));
        lemma_fits_within(s, h);
    }
}

/// The board with all candidates is consistent and allows every solution.
pub proof fn lemma_fresh_board(s: Seq<int>)
    ensures
        is_consistent(fresh_board()),
        is_solution(s) ==> fits(s, fresh_board()),
{
    let g = fresh_board();
    assert(!is_single(0x1ffu16)) by (bit_vector);
    if is_solution(s) {
        assert forall|k: int| 0 <= k < 81 implies allows(#[trigger] g[k], s[k]) by {
            assert(1 <= s[k] <= 9);
            lemma_all_nine(s[k] as u16);
        }
    }
}

proof fn lemma_all_nine(d: u16)
    by (bit_vector)
    requires
        1 <= d <= 9,
    ensures
        0x1ffu16 & (1u16 << ((d - 1) as u16)) != 0,
{
}

/// Cell `k` lies in unit `u`. The 27 units are the nine rows, numbered from 0
/// to 8, the nine columns, from 9 to 17, and the nine boxes, from 18 to 26.
pub open spec fn in_unit(u: int, k: int) -> bool {
    &&& is_cell(k)
    &&& 0 <= u < 27
    &&& if u < 9 {
        row_of(k) == u
    } else if u < 18 {
        column_of(k) == u - 9
    } else {
        box_of(k) == u - 18
    }
}

/// The row of the `n`-th cell of unit `u`.
pub open spec fn unit_row(u: int, n: int) -> int {
    if u < 9 {
        u
    } else if u < 18 {
        n
    } else {
        3 * ((u - 18) / 3) + n / 3
    }
}

/// The column of the `n`-th cell of unit `u`.
pub open spec fn unit_column(u: int, n: int) -> int {
    if u < 9 {
        n
    } else if u < 18 {
        u - 9
    } else {
        3 * ((u - 18) % 3) + n % 3
    }
}

/// The nine cells of unit `u`, counted off from 0 to 8.
pub open spec fn unit_cell(u: int, n: int) -> int {
    9 * unit_row(u, n) + unit_column(u, n)
}

/// Row and column of a cell of a unit, and the unit that they lie in.
proof fn lemma_unit_place(u: int, n: int)
    requires
        0 <= u < 27,
        0 <= n < 9,
    ensures
        0 <= unit_row(u, n) < 9,
        0 <= unit_column(u, n) < 9,
        u < 9 ==> unit_row(u, n) == u,
        9 <= u < 18 ==> unit_column(u, n) == u - 9,
        18 <= u ==> (unit_row(u, n) / 3) * 3 + unit_column(u, n) / 3 == u - 18,
        18 <= u ==> unit_row(u, n) % 3 == n / 3 && unit_column(u, n) % 3 == n % 3,
{
    if 18 <= u {
        let b = u - 18;
        let x = b / 3;
        let y = b % 3;
        let i = n / 3;
        let j = n % 3;
        assert(0 <= x < 3 && 0 <= y < 3 && 0 <= i < 3 && 0 <= j < 3);
        assert(b == 3 * x + y);
        assert(unit_row(u, n) == 3 * x + i);
        assert(unit_column(u, n) == 3 * y + j);
        assert((3 * x + i) / 3 == x);
        assert((3 * y + j) / 3 == y);
        assert((3 * x + i) % 3 == i);
        assert((3 * y + j) % 3 == j);
    }
}

/// The cells of a unit lie in the unit, each at its own place.
pub proof fn lemma_unit_cell(u: int, n: int, m: int)
    requires
        0 <= u < 27,
        0 <= n < 9,
        0 <= m < 9,
    ensures
        in_unit(u, unit_cell(u, n)),
        m != n ==> unit_cell(u, m) != unit_cell(u, n),
{
    let rn = unit_row(u, n);
    let cn = unit_column(u, n);
    let rm = unit_row(u, m);
    let cm = unit_column(u, m);
    lemma_unit_place(u, n);
    lemma_unit_place(u, m);
    lemma_coordinates(rn, cn);
    lemma_coordinates(rm, cm);
    if m != n {
        if u < 9 {
            assert(cn != cm);
        } else if u < 18 {
            assert(rn != rm);
        } else {
            assert(n == 3 * (n / 3) + n % 3);
            assert(m == 3 * (m / 3) + m % 3);
            assert(rn % 3 != rm % 3 || cn % 3 != cm % 3);
        }
        assert(rn != rm || cn != cm);
        assert(row_of(unit_cell(u, n)) == rn && column_of(unit_cell(u, n)) == cn);
        assert(row_of(unit_cell(u, m)) == rm && column_of(unit_cell(u, m)) == cm);
    }
}

/// In a solution every row, every column and every box holds each of the
/// digits 1 to 9 exactly once.
pub proof fn lemma_units_complete(s: Seq<int>, u: int, d: int)
    requires
        is_solution(s),
        0 <= u < 27,
        1 <= d <= 9,
    ensures
        exists|k: int| in_unit(u, k) && s[k] == d,
        forall|i: int, j: int|
            in_unit(u, i) && in_unit(u, j) && s[i] == d && s[j] == d ==> i == j,
{
    assert forall|i: int, j: int|
        in_unit(u, i) && in_unit(u, j) && s[i] == d && s[j] == d implies i == j by {
        if i != j {
            assert(is_peer(i, j));
        }
    }
    if !exists|k: int| in_unit(u, k) && s[k] == d {
        // Nine different digits, none of them `d`, would be nine of eight.
        let w = Seq::new(
            9,
            |n: int|
                if s[unit_cell(u, n)] > d {
                    s[unit_cell(u, n)] - 1
                } else {
                    s[unit_cell(u, n)]
                },
        );
        assert forall|n: int| 0 <= n < 9 implies 1 <= #[trigger] w[n] < 9 by {
            lemma_unit_cell(u, n, n);
            assert(1 <= s[unit_cell(u, n)] <= 9);
        }
        assert forall|m: int, n: int| 0 <= m < 9 && 0 <= n < 9 && m != n implies w[m] != w[n] by {
            lemma_unit_cell(u, n, m);
            lemma_unit_cell(u, m, n);
            assert(is_peer(unit_cell(u, m), unit_cell(u, n)));
        }
        assert(w.no_duplicates());
        w.unique_seq_to_set();
        vstd::set_lib::lemma_int_range(1, 9);
        assert(w.to_set().subset_of(vstd::set_lib::set_int_range(1, 9))) by {
            assert forall|x: int| w.to_set().contains(x) implies vstd::set_lib::set_int_range(
                1,
                9,
            ).contains(x) by {
                let n = choose|n: int| 0 <= n < w.len() && w[n] == x;
                assert(1 <= w[n] < 9);
            }
        }
        vstd::set_lib::lemma_len_subset(w.to_set(), vstd::set_lib::set_int_range(1, 9));
    }
}

/// On a solved board every row, every column and every box has each of the
/// digits 1 to 9 in exactly one of its cells.
pub proof fn lemma_solved_units(g: Seq<u16>, u: int, d: int)
    requires
        is_solved(g),
        0 <= u < 27,
        1 <= d <= 9,
    ensures
        exists|k: int| in_unit(u, k) && g[k] == digit_mask(d),
        forall|i: int, j: int|
            in_unit(u, i) && in_unit(u, j) && g[i] == digit_mask(d) && g[j] == digit_mask(d) ==> i
                == j,
{
    let s = solution_of(g);
    lemma_solved_board(g);
    lemma_units_complete(s, u, d);
    let k = choose|k: int| in_unit(u, k) && s[k] == d;
    assert(g[k] == board_of(s)[k]);
    assert forall|i: int, j: int|
        in_unit(u, i) && in_unit(u, j) && g[i] == digit_mask(d) && g[j] == digit_mask(
            d,
        ) implies i == j by {
        assert(g[i] == board_of(s)[i] && g[j] == board_of(s)[j]);
        assert(1 <= s[i] <= 9 && 1 <= s[j] <= 9);
        lemma_digit_mask(s[i], d, 0);
        lemma_digit_mask(s[j], d, 0);
    }
}

} // verus!
