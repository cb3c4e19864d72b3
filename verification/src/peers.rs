//! The peer topology of the 81-cell grid.
//!
//! Cells are numbered row by row from 0 to 80. Two cells are peers when they
//! are different and share a row, a column or a 3×3 box. A set of cells is
//! held as a `u128` with bit `j` set for cell `j`.
use vstd::prelude::*;

verus! {

/// `i` is the index of a cell of the grid.
pub open spec fn is_cell(i: int) -> bool {
    0 <= i < 81
}

/// The row of cell `i`, from 0 to 8.
pub open spec fn row_of(i: int) -> int {
    i / 9
}

/// The column of cell `i`, from 0 to 8.
pub open spec fn column_of(i: int) -> int {
    i % 9
}

/// The 3×3 box of cell `i`, from 0 to 8, boxes counted row by row.
pub open spec fn box_of(i: int) -> int {
    (i / 27) * 3 + (i % 9) / 3
}

/// Cells `i` and `j` are different cells of one row, one column or one box.
pub open spec fn is_peer(i: int, j: int) -> bool {
    &&& is_cell(i)
    &&& is_cell(j)
    &&& i != j
    &&& (row_of(i) == row_of(j) || column_of(i) == column_of(j) || box_of(i) == box_of(j))
}

/// Cell `j` is a member of the cell set `m`.
pub open spec fn mask_has(m: u128, j: int) -> bool {
    0 <= j < 128 && m & (1u128 << (j as u128)) != 0
}

proof fn lemma_row_mask(s: u128, j: u128)
    by (bit_vector)
    requires
        s <= 72,
        j < 128,
    ensures
        ((0x1ffu128 << s) & (1u128 << j) != 0) <==> (s <= j && j < s + 9),
{
}

/// The nine cells of the row of cell `i`, `i` among them.
pub fn horizontal_peers(i: u8) -> (m: u128)
    requires
        i < 81,
    ensures
        forall|j: int| #[trigger] mask_has(m, j) <==> is_cell(j) && row_of(j) == row_of(i as int),
{
    let s: u8 = i / 9 * 9;
    let m: u128 = 0x1ffu128 << s;
    proof {
        assert forall|j: int| #[trigger] mask_has(m, j) <==> is_cell(j) && row_of(j) == row_of(
            i as int,
        ) by {
            if 0 <= j < 128 {
                lemma_row_mask(s as u128, j as u128);
            }
        }
    }
    m
}

proof fn lemma_column_mask(c: u128, j: u128)
    by (bit_vector)
    requires
        c < 9,
        j < 128,
    ensures
        ((1u128 << c | 1u128 << (c + 9) | 1u128 << (c + 18) | 1u128 << (c + 27) | 1u128 << (c + 36)
            | 1u128 << (c + 45) | 1u128 << (c + 54) | 1u128 << (c + 63) | 1u128 << (c + 72)) & (1u128
            << j) != 0) <==> (j == c || j == c + 9 || j == c + 18 || j == c + 27 || j == c + 36 || j
            == c + 45 || j == c + 54 || j == c + 63 || j == c + 72),
{
}

/// The nine cells of the column of cell `i`, `i` among them.
pub fn vertical_peers(i: u8) -> (m: u128)
    requires
        i < 81,
    ensures
        forall|j: int| #[trigger]
            mask_has(m, j) <==> is_cell(j) && column_of(j) == column_of(i as int),
{
    let c: u8 = i % 9;
    let m: u128 = 1u128 << c | 1u128 << (c + 9) | 1u128 << (c + 18) | 1u128 << (c + 27) | 1u128 << (
    c + 36) | 1u128 << (c + 45) | 1u128 << (c + 54) | 1u128 << (c + 63) | 1u128 << (c + 72);
    proof {
        assert forall|j: int| #[trigger]
            mask_has(m, j) <==> is_cell(j) && column_of(j) == column_of(i as int) by {
            if 0 <= j < 128 {
                lemma_column_mask(c as u128, j as u128);
            }
        }
    }
    m
}

/// The first cell of the box of cell `i`: its top left corner.
pub fn unit_top_left(i: u8) -> (t: u8)
    requires
        i < 81,
    ensures
        t == 27 * (row_of(i as int) / 3) + 3 * (column_of(i as int) / 3),
        is_cell(t as int),
        box_of(t as int) == box_of(i as int),
        row_of(t as int) % 3 == 0,
        column_of(t as int) % 3 == 0,
{
    proof {
        let r = i as int / 9;
        let c = i as int % 9;
        assert(i as int / 27 == r / 3);
        lemma_coordinates(3 * (r / 3), 3 * (c / 3));
        assert((3 * (r / 3)) / 3 == r / 3 && (3 * (c / 3)) / 3 == c / 3);
        assert((3 * (r / 3)) % 3 == 0 && (3 * (c / 3)) % 3 == 0);
    }
    (i / 27) * 27 + (i % 9 / 3) * 3
}

proof fn lemma_box_mask(t: u128, j: u128)
    by (bit_vector)
    requires
        t <= 60,
        j < 128,
    ensures
        ((0x1c0e07u128 << t) & (1u128 << j) != 0) <==> (j == t || j == t + 1 || j == t + 2 || j == t
            + 9 || j == t + 10 || j == t + 11 || j == t + 18 || j == t + 19 || j == t + 20),
{
}

/// The cells of the box of cell `i`, counted from the first cell `t` of the
/// box.
proof fn lemma_box_cells(i: int, t: int, j: int)
    requires
        is_cell(i),
        t == 27 * (row_of(i) / 3) + 3 * (column_of(i) / 3),
        0 <= j < 128,
    ensures
        (is_cell(j) && box_of(j) == box_of(i)) <==> (j == t || j == t + 1 || j == t + 2 || j == t
            + 9 || j == t + 10 || j == t + 11 || j == t + 18 || j == t + 19 || j == t + 20),
{
    let r = i / 9;
    let c = i % 9;
    let a = j / 9;
    let b = j % 9;
    assert(i / 27 == r / 3);
    assert(j / 27 == a / 3);
    let x = a - 3 * (r / 3);
    let y = b - 3 * (c / 3);
    assert(j - t == 9 * x + y);
    assert(a / 3 == r / 3 <==> 0 <= x < 3);
    assert(b / 3 == c / 3 <==> 0 <= y < 3);
    assert(-6 <= y <= 8);
    if is_cell(j) {
        assert(box_of(j) == box_of(i) <==> a / 3 == r / 3 && b / 3 == c / 3);
    } else {
        assert(a >= 9);
    }
}

/// The nine cells of the box of cell `i`, `i` among them.
pub fn unit_peers(i: u8) -> (m: u128)
    requires
        i < 81,
    ensures
        forall|j: int| #[trigger] mask_has(m, j) <==> is_cell(j) && box_of(j) == box_of(i as int),
{
    let t: u8 = unit_top_left(i);
    let m: u128 = 0x1c0e07u128 << t;
    proof {
        assert forall|j: int| #[trigger]
            mask_has(m, j) <==> is_cell(j) && box_of(j) == box_of(i as int) by {
            if 0 <= j < 128 {
                lemma_box_mask(t as u128, j as u128);
                lemma_box_cells(i as int, t as int, j);
            }
        }
    }
    m
}

proof fn lemma_join_masks(h: u128, v: u128, u: u128, i: u128, j: u128)
    by (bit_vector)
    requires
        i < 128,
        j < 128,
    ensures
        (((h | v | u) & !(1u128 << i)) & (1u128 << j) != 0) <==> (j != i && (h & (1u128 << j) != 0
            || v & (1u128 << j) != 0 || u & (1u128 << j) != 0)),
{
}

/// The peers of cell `i`: the other cells of its row, its column and its box.
pub fn peers(i: u8) -> (m: u128)
    requires
        i < 81,
    ensures
        forall|j: int| #[trigger] mask_has(m, j) <==> is_peer(i as int, j),
{
    let h: u128 = horizontal_peers(i);
    let v: u128 = vertical_peers(i);
    let u: u128 = unit_peers(i);
    let m: u128 = (h | v | u) & !(1u128 << i);
    proof {
        assert forall|j: int| #[trigger] mask_has(m, j) <==> is_peer(i as int, j) by {
            if 0 <= j < 128 {
                lemma_join_masks(h, v, u, i as u128, j as u128);
                assert(mask_has(h, j) <==> is_cell(j) && row_of(j) == row_of(i as int));
                assert(mask_has(v, j) <==> is_cell(j) && column_of(j) == column_of(i as int));
                assert(mask_has(u, j) <==> is_cell(j) && box_of(j) == box_of(i as int));
            }
        }
    }
    m
}

/// The set of the peers of cell `i`.
pub open spec fn peer_set(i: int) -> Set<int> {
    Set::new(|j: int| is_peer(i, j))
}

/// The peers of cell `i` counted off from 0 to 19: first the eight others of
/// its row, then the eight others of its column, then the four cells of its
/// box that lie in another row and another column.
pub open spec fn peer_at(i: int, k: int) -> int {
    let r = i / 9;
    let c = i % 9;
    if k < 8 {
        9 * r + if k < c {
            k
        } else {
            k + 1
        }
    } else if k < 16 {
        9 * (if k - 8 < r {
            k - 8
        } else {
            k - 7
        }) + c
    } else {
        9 * (r / 3 * 3 + (r % 3 + 1 + (k - 16) / 2) % 3) + (c / 3 * 3 + (c % 3 + 1 + (k - 16) % 2)
            % 3)
    }
}

/// The place of peer `j` in the count of `peer_at`.
pub open spec fn peer_rank(i: int, j: int) -> int {
    let r = i / 9;
    let c = i % 9;
    let rj = j / 9;
    let cj = j % 9;
    if rj == r {
        if cj < c {
            cj
        } else {
            cj - 1
        }
    } else if cj == c {
        8 + if rj < r {
            rj
        } else {
            rj - 1
        }
    } else {
        16 + 2 * ((rj - r + 2) % 3) + (cj - c + 2) % 3
    }
}

/// Row, column and box of the cell at row `r`, column `c`.
pub proof fn lemma_coordinates(r: int, c: int)
    requires
        0 <= r < 9,
        0 <= c < 9,
    ensures
        is_cell(9 * r + c),
        row_of(9 * r + c) == r,
        column_of(9 * r + c) == c,
        box_of(9 * r + c) == (r / 3) * 3 + c / 3,
{
    let j = 9 * r + c;
    assert(j / 9 == r);
    assert(j % 9 == c);
    assert(j / 27 == r / 3);
}

/// Counting the peers of a cell off reaches peers only, each at its own place.
pub proof fn lemma_peer_at(i: int, k: int)
    requires
        is_cell(i),
        0 <= k < 20,
    ensures
        is_peer(i, peer_at(i, k)),
        peer_rank(i, peer_at(i, k)) == k,
{
    let r = i / 9;
    let c = i % 9;
    lemma_coordinates(r, c);
    if k < 8 {
        let cj = if k < c {
            k
        } else {
            k + 1
        };
        lemma_coordinates(r, cj);
    } else if k < 16 {
        let rj = if k - 8 < r {
            k - 8
        } else {
            k - 7
        };
        lemma_coordinates(rj, c);
    } else {
        let a = (k - 16) / 2;
        let b = (k - 16) % 2;
        let rj = r / 3 * 3 + (r % 3 + 1 + a) % 3;
        let cj = c / 3 * 3 + (c % 3 + 1 + b) % 3;
        lemma_coordinates(rj, cj);
        assert(rj / 3 == r / 3);
        assert(cj / 3 == c / 3);
        assert(rj != r && cj != c);
        assert((rj - r + 2) % 3 == a);
        assert((cj - c + 2) % 3 == b);
    }
}

/// Every peer of a cell is reached by counting its peers off.
pub proof fn lemma_peer_rank(i: int, j: int)
    requires
        is_peer(i, j),
    ensures
        0 <= peer_rank(i, j) < 20,
        peer_at(i, peer_rank(i, j)) == j,
{
    let r = i / 9;
    let c = i % 9;
    let rj = j / 9;
    let cj = j % 9;
    lemma_coordinates(r, c);
    lemma_coordinates(rj, cj);
    assert(i == 9 * r + c && j == 9 * rj + cj);
    if rj == r {
    } else if cj == c {
    } else {
        let a = (rj - r + 2) % 3;
        let b = (cj - c + 2) % 3;
        assert(rj / 3 == r / 3);
        assert(cj / 3 == c / 3);
        lemma_other_third(r, rj);
        lemma_other_third(c, cj);
        let k = 16 + 2 * a + b;
        assert((k - 16) / 2 == a);
        assert((k - 16) % 2 == b);
    }
}

/// Of the three rows of a band, or the three columns of a stack, `y` is the
/// first or the second after `x`, counted round.
proof fn lemma_other_third(x: int, y: int)
    requires
        0 <= x < 9,
        0 <= y < 9,
        x != y,
        x / 3 == y / 3,
    ensures
        0 <= (y - x + 2) % 3 < 2,
        x / 3 * 3 + (x % 3 + 1 + (y - x + 2) % 3) % 3 == y,
{
    assert(y - x == y % 3 - x % 3);
}

/// Every cell has exactly 20 peers, and is not one of them.
pub proof fn lemma_peer_count(i: int)
    requires
        is_cell(i),
    ensures
        peer_set(i).finite(),
        peer_set(i).len() == 20,
        !peer_set(i).contains(i),
{
    let s = Seq::new(20, |k: int| peer_at(i, k));
    assert forall|a: int, b: int| 0 <= a < 20 && 0 <= b < 20 && a != b implies s[a] != s[b] by {
        lemma_peer_at(i, a);
        lemma_peer_at(i, b);
    }
    assert(s.no_duplicates());
    s.unique_seq_to_set();
    assert forall|j: int| s.to_set().contains(j) <==> peer_set(i).contains(j) by {
        if s.contains(j) {
            let k = choose|k: int| 0 <= k < s.len() && s[k] == j;
            lemma_peer_at(i, k);
        }
        if is_peer(i, j) {
            lemma_peer_rank(i, j);
            assert(s[peer_rank(i, j)] == j);
        }
    }
    assert(s.to_set() =~= peer_set(i));
    vstd::seq_lib::seq_to_set_is_finite(s);
}

} // verus!
