//! The board: 81 candidate sets, one for each cell, row by row.
//!
//! In contracts a board is the sequence of its candidate sets.
use vstd::prelude::*;
use crate::cells::{count, lemma_count_within, within, INITIAL_VALUES};

verus! {

/// The board of which nothing is known: every cell allows all nine digits.
pub const GRID: [u16; 81] = [
    0x1ff, 0x1ff, 0x1ff, 0x1ff, 0x1ff, 0x1ff, 0x1ff, 0x1ff, 0x1ff,
    0x1ff, 0x1ff, 0x1ff, 0x1ff, 0x1ff, 0x1ff, 0x1ff, 0x1ff, 0x1ff,
    0x1ff, 0x1ff, 0x1ff, 0x1ff, 0x1ff, 0x1ff, 0x1ff, 0x1ff, 0x1ff,
    0x1ff, 0x1ff, 0x1ff, 0x1ff, 0x1ff, 0x1ff, 0x1ff, 0x1ff, 0x1ff,
    0x1ff, 0x1ff, 0x1ff, 0x1ff, 0x1ff, 0x1ff, 0x1ff, 0x1ff, 0x1ff,
    0x1ff, 0x1ff, 0x1ff, 0x1ff, 0x1ff, 0x1ff, 0x1ff, 0x1ff, 0x1ff,
    0x1ff, 0x1ff, 0x1ff, 0x1ff, 0x1ff, 0x1ff, 0x1ff, 0x1ff, 0x1ff,
    0x1ff, 0x1ff, 0x1ff, 0x1ff, 0x1ff, 0x1ff, 0x1ff, 0x1ff, 0x1ff,
    0x1ff, 0x1ff, 0x1ff, 0x1ff, 0x1ff, 0x1ff, 0x1ff, 0x1ff, 0x1ff,
];

/// The board on which every cell allows all nine digits.
pub open spec fn fresh_board() -> Seq<u16> {
    Seq::new(81, |k: int| INITIAL_VALUES)
}

/// A new board, with all candidates in every cell.
pub fn new_board() -> (grid: [u16; 81])
    ensures
        grid@ == fresh_board(),
{
    let grid: [u16; 81] = GRID;
    assert(grid@ =~= fresh_board());
    grid
}

/// `g` has a candidate set for each of the 81 cells.
pub open spec fn is_grid(g: Seq<u16>) -> bool {
    g.len() == 81
}

/// Cell by cell, `h` allows nothing that `g` does not allow.
pub open spec fn grid_within(h: Seq<u16>, g: Seq<u16>) -> bool {
    &&& is_grid(h)
    &&& is_grid(g)
    &&& forall|k: int| 0 <= k < 81 ==> within(#[trigger] h[k], g[k])
}

/// The number of candidates in the first `n` cells of `g`.
pub open spec fn total_upto(g: Seq<u16>, n: int) -> nat
    decreases n,
{
    if n <= 0 {
        0
    } else {
        total_upto(g, n - 1) + count(g[n - 1])
    }
}

/// The number of candidates on the whole board.
pub open spec fn total(g: Seq<u16>) -> nat {
    total_upto(g, 81)
}

proof fn lemma_total_upto_within(h: Seq<u16>, g: Seq<u16>, n: int)
    requires
        grid_within(h, g),
        0 <= n <= 81,
    ensures
        total_upto(h, n) <= total_upto(g, n),
        (exists|k: int| 0 <= k < n && h[k] != g[k]) ==> total_upto(h, n) < total_upto(g, n),
    decreases n,
{
    if n > 0 {
        lemma_total_upto_within(h, g, n - 1);
        lemma_count_within(h[n - 1], g[n - 1]);
        if exists|k: int| 0 <= k < n && h[k] != g[k] {
            let k = choose|k: int| 0 <= k < n && h[k] != g[k];
            if k < n - 1 {
                assert(0 <= k < n - 1 && h[k] != g[k]);
            }
        }
    }
}

/// A board within another holds no more candidates, and fewer where the two
/// differ in some cell.
pub proof fn lemma_total_within(h: Seq<u16>, g: Seq<u16>, k: int)
    requires
        grid_within(h, g),
    ensures
        total(h) <= total(g),
        0 <= k < 81 && h[k] != g[k] ==> total(h) < total(g),
{
    lemma_total_upto_within(h, g, 81);
}

} // verus!
