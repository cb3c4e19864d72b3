//! Depth-first search over boards, branching on the unsolved cell with the
//! fewest candidates.
use vstd::prelude::*;
use crate::board::{grid_within, is_grid, lemma_total_within, total};
use crate::cells::{allows, count, digit_mask, is_open, lemma_count, within};
use crate::propagate::{
    assign, assigned, is_propagated, lemma_outcome_exists, lemma_within_chain, lemma_within_self,
};
use crate::solution::{
    fits, is_consistent, is_solution, is_solved, lemma_consistent_assigned,
    lemma_consistent_solved, lemma_digit_mask, lemma_fixing_keeps_solution,
};

verus! {

/// `square` is the cell to branch on: of the unsolved cells with the fewest
/// candidates, the first.
pub open spec fn is_first_fewest(g: Seq<u16>, square: int) -> bool {
    &&& 0 <= square < 81
    &&& is_open(g[square])
    &&& forall|k: int|
        0 <= k < 81 && is_open(#[trigger] g[k]) ==> count(g[square]) <= count(g[k])
    &&& forall|k: int|
        0 <= k < square && is_open(#[trigger] g[k]) ==> count(g[square]) < count(g[k])
}

/// The cell to branch on, where the board has an unsolved cell.
pub open spec fn first_fewest(g: Seq<u16>) -> Option<int> {
    if exists|square: int| is_first_fewest(g, square) {
        Some(choose|square: int| is_first_fewest(g, square))
    } else {
        None
    }
}

/// A board has at most one cell to branch on.
pub proof fn lemma_first_fewest(g: Seq<u16>, square: int)
    requires
        is_first_fewest(g, square),
    ensures
        first_fewest(g) == Some(square),
{
    let c = choose|c: int| is_first_fewest(g, c);
    if c < square {
        assert(is_open(g[c]));
    } else if square < c {
        assert(is_open(g[square]));
    }
}

/// Finds the unsolved cell with the fewest candidates, the first of them where
/// there are several. Returns `None` where no cell is unsolved.
pub fn unsolved_square_with_fewest_values(grid: &[u16; 81]) -> (found: Option<usize>)
    ensures
        match found {
            Some(square) => is_first_fewest(grid@, square as int) && first_fewest(grid@) == Some(
                square as int,
            ),
            None => first_fewest(grid@) is None && forall|k: int|
                0 <= k < 81 ==> !is_open(#[trigger] grid@[k]),
        },
{
    let none_found: u16 = 10;
    let mut min_remaining: u16 = none_found;
    let mut min_square: usize = 0;
    let mut square: usize = 0;
    while square < 81
        invariant_except_break
            square <= 81,
            min_remaining != 10 ==> min_square < square && forall|k: int|
                0 <= k < square && is_open(#[trigger] grid@[k]) ==> min_remaining <= count(
                    grid@[k],
                ),
        invariant
            none_found == 10,
            min_remaining == 10 ==> forall|k: int|
                0 <= k < square ==> !is_open(#[trigger] grid@[k]),
            min_remaining != 10 ==> min_square < 81 && min_remaining == count(
                grid@[min_square as int],
            ) && is_open(grid@[min_square as int]) && (forall|k: int|
                0 <= k < min_square && is_open(#[trigger] grid@[k]) ==> min_remaining < count(
                    grid@[k],
                )),
        ensures
            min_remaining == 10 ==> forall|k: int| 0 <= k < 81 ==> !is_open(#[trigger] grid@[k]),
            min_remaining != 10 ==> forall|k: int|
                0 <= k < 81 && is_open(#[trigger] grid@[k]) ==> min_remaining <= count(grid@[k]),
        decreases 81 - square,
    {
        proof {
            lemma_count(grid@[square as int]);
        }
        let values_remaining: u16 = grid[square].count_ones() as u16;
        if values_remaining > 1 && values_remaining < min_remaining {
            min_remaining = values_remaining;
            min_square = square;
            if values_remaining == 2 {
                break ;
            }
        }
        square += 1;
    }
    if min_remaining == none_found {
        proof {
            assert forall|c: int| !is_first_fewest(grid@, c) by {
                if is_first_fewest(grid@, c) {
                    assert(is_open(grid@[c]));
                }
            }
        }
        return None;
    }
    proof {
        lemma_first_fewest(grid@, min_square as int);
    }
    Some(min_square)
}

/// What the search makes of board `g`: `g` itself where no cell is unsolved,
/// else what branching on the cell to branch on gives.
pub open spec fn search_outcome(g: Seq<u16>) -> Option<Seq<u16>>
    decreases total(g), 10int,
{
    match first_fewest(g) {
        None => Some(g),
        Some(square) => branch_outcome(g, square, 1),
    }
}

/// What the search makes of board `g` when it branches on `square` and has
/// the digits from `d` to 9 left to try, in rising order: the outcome of the
/// search on the board that fixing `square` to the first of them leaves, for
/// the first of them that `square` allows, that can be fixed and whose search
/// succeeds.
pub open spec fn branch_outcome(g: Seq<u16>, square: int, d: int) -> Option<Seq<u16>>
    decreases total(g), 10 - d,
    via branch_outcome_decreases
{
    if d < 1 || d > 9 || !is_open(g[square]) || !(0 <= square < 81) || !is_grid(g) {
        None
    } else if !allows(g[square], d) {
        branch_outcome(g, square, d + 1)
    } else {
        match assigned(g, square, digit_mask(d)) {
            None => branch_outcome(g, square, d + 1),
            Some(h) => match search_outcome(h) {
                None => branch_outcome(g, square, d + 1),
                Some(r) => Some(r),
            },
        }
    }
}

#[via_fn]
proof fn branch_outcome_decreases(g: Seq<u16>, square: int, d: int) {
    if 1 <= d <= 9 && is_open(g[square]) && 0 <= square < 81 && is_grid(g) && allows(
        g[square],
        d,
    ) {
        match assigned(g, square, digit_mask(d)) {
            None => {},
            Some(h) => {
                lemma_fixing_shrinks(g, h, square, d);
            },
        }
    }
}

/// Fixing an unsolved cell to one of its candidates leaves a board within the
/// board, with fewer candidates.
pub proof fn lemma_fixing_shrinks(g: Seq<u16>, h: Seq<u16>, square: int, d: int)
    requires
        is_grid(g),
        0 <= square < 81,
        is_open(g[square]),
        1 <= d <= 9,
        allows(g[square], d),
        grid_within(h, g.update(square, digit_mask(d))),
    ensures
        grid_within(h, g),
        total(h) < total(g),
{
    let m = digit_mask(d);
    let g1 = g.update(square, m);
    lemma_digit_mask(d, d, g[square]);
    lemma_count(m);
    lemma_within_self(g);
    assert forall|k: int| 0 <= k < 81 implies within(#[trigger] g1[k], g[k]) by {
        assert(within(g[k], g[k]));
    }
    lemma_within_chain(h, g1, g);
    lemma_total_within(g1, g, square);
    lemma_total_within(h, g1, square);
}

/// Looks through the first `n` cells for the cell to branch on among them.
proof fn lemma_scan(g: Seq<u16>, n: int) -> (best: Option<int>)
    requires
        0 <= n <= 81,
    ensures
        match best {
            None => forall|k: int| 0 <= k < n ==> !is_open(#[trigger] g[k]),
            Some(c) => {
                &&& 0 <= c < n
                &&& is_open(g[c])
                &&& forall|k: int| 0 <= k < n && is_open(#[trigger] g[k]) ==> count(g[c]) <= count(g[k])
                &&& forall|k: int| 0 <= k < c && is_open(#[trigger] g[k]) ==> count(g[c]) < count(g[k])
            },
        },
    decreases n,
{
    if n == 0 {
        None
    } else {
        match lemma_scan(g, n - 1) {
            None => if is_open(g[n - 1]) {
                Some(n - 1)
            } else {
                None
            },
            Some(c) => if is_open(g[n - 1]) && count(g[n - 1]) < count(g[c]) {
                Some(n - 1)
            } else {
                Some(c)
            },
        }
    }
}

/// A board without a cell to branch on has no unsolved cell.
pub proof fn lemma_nothing_open(g: Seq<u16>)
    requires
        first_fewest(g) is None,
    ensures
        forall|k: int| 0 <= k < 81 ==> !is_open(#[trigger] g[k]),
{
    match lemma_scan(g, 81) {
        None => {},
        Some(c) => {
            assert(is_first_fewest(g, c));
        },
    }
}

/// What the search finds on a consistent board is a solved board within the
/// board.
pub proof fn lemma_search_sound(g: Seq<u16>)
    requires
        is_consistent(g),
        search_outcome(g) is Some,
    ensures
        is_solved(search_outcome(g).unwrap()),
        grid_within(search_outcome(g).unwrap(), g),
    decreases total(g), 10int,
{
    match first_fewest(g) {
        None => {
            lemma_nothing_open(g);
            lemma_consistent_solved(g);
            lemma_within_self(g);
        },
        Some(square) => {
            lemma_branch_sound(g, square, 1);
        },
    }
}

/// What a branch of the search finds on a consistent board is a solved board
/// within the board.
pub proof fn lemma_branch_sound(g: Seq<u16>, square: int, d: int)
    requires
        is_consistent(g),
        branch_outcome(g, square, d) is Some,
    ensures
        is_solved(branch_outcome(g, square, d).unwrap()),
        grid_within(branch_outcome(g, square, d).unwrap(), g),
    decreases total(g), 10 - d,
{
    let m = digit_mask(d);
    if !allows(g[square], d) {
        lemma_branch_sound(g, square, d + 1);
    } else {
        match assigned(g, square, m) {
            None => {
                lemma_branch_sound(g, square, d + 1);
            },
            Some(h) => {
                lemma_digit_mask(d, d, m);
                lemma_consistent_assigned(g, h, square, m);
                lemma_fixing_shrinks(g, h, square, d);
                match search_outcome(h) {
                    None => {
                        lemma_branch_sound(g, square, d + 1);
                    },
                    Some(r) => {
                        lemma_search_sound(h);
                        lemma_within_chain(r, h, g);
                    },
                }
            },
        }
    }
}

/// The search finds a solved board on every board that allows a solution.
pub proof fn lemma_search_complete(g: Seq<u16>, s: Seq<int>)
    requires
        is_solution(s),
        fits(s, g),
    ensures
        search_outcome(g) is Some,
    decreases total(g), 10int,
{
    match first_fewest(g) {
        None => {},
        Some(square) => {
            assert(is_first_fewest(g, square));
            assert(allows(g[square], s[square]));
            lemma_branch_complete(g, square, 1, s);
        },
    }
}

/// A branch of the search finds a solved board where the board allows a
/// solution whose digit for the cell of the branch is still to be tried.
pub proof fn lemma_branch_complete(g: Seq<u16>, square: int, d: int, s: Seq<int>)
    requires
        is_solution(s),
        fits(s, g),
        0 <= square < 81,
        is_open(g[square]),
        1 <= d <= s[square],
    ensures
        branch_outcome(g, square, d) is Some,
    decreases total(g), 10 - d,
{
    let m = digit_mask(d);
    assert(allows(g[square], s[square]));
    if d == s[square] {
        lemma_fixing_keeps_solution(g, s, square);
        lemma_outcome_exists(g.update(square, m), square, m);
        let h = assigned(g, square, m).unwrap();
        assert(is_propagated(g.update(square, m), h, square, m));
        lemma_fixing_shrinks(g, h, square, d);
        lemma_search_complete(h, s);
    } else if !allows(g[square], d) {
        lemma_branch_complete(g, square, d + 1, s);
    } else {
        match assigned(g, square, m) {
            None => {
                lemma_branch_complete(g, square, d + 1, s);
            },
            Some(h) => {
                if search_outcome(h) is None {
                    lemma_branch_complete(g, square, d + 1, s);
                }
            },
        }
    }
}

/// Searches for a solved board within the board, depth first: branches on the
/// unsolved cell with the fewest candidates and tries its candidates in rising
/// order, each on a copy of the board. Leaves the first solved board that it
/// finds in `grid` and returns `true`, or returns `false` and leaves `grid` as
/// it was.
///
/// On a consistent board the search finds a solved board within the board
/// exactly where the board allows a solution.
pub fn search(grid: &mut [u16; 81]) -> (found: bool)
    ensures
        search_outcome(old(grid)@) == if found {
            Some(final(grid)@)
        } else {
            None
        },
        !found ==> final(grid)@ == old(grid)@,
        !found ==> forall|s: Seq<int>| !(is_solution(s) && fits(s, old(grid)@)),
        found && is_consistent(old(grid)@) ==> is_solved(final(grid)@) && grid_within(
            final(grid)@,
            old(grid)@,
        ),
    decreases total(old(grid)@),
{
    let ghost g0 = grid@;
    match unsolved_square_with_fewest_values(grid) {
        Some(square) => {
            let values: u16 = grid[square];
            let mut b: u16 = 0;
            while b < 9
                invariant
                    b <= 9,
                    square < 81,
                    grid@ == g0,
                    g0 == old(grid)@,
                    values == g0[square as int],
                    is_open(values),
                    search_outcome(g0) == branch_outcome(g0, square as int, b + 1),
                decreases 9 - b,
            {
                let value: u16 = 1u16 << b;
                let ghost d = b + 1;
                proof {
                    lemma_digit_mask(d, d, values);
                    assert(value == digit_mask(d));
                }
                if values & value != 0 {
                    let mut next: [u16; 81] = *grid;
                    if assign(&mut next, square, value) {
                        proof {
                            lemma_fixing_shrinks(g0, next@, square as int, d);
                        }
                        if search(&mut next) {
                            proof {
                                if is_consistent(g0) {
                                    lemma_search_sound(g0);
                                }
                            }
                            *grid = next;
                            return true;
                        }
                    }
                }
                b += 1;
            }
        },
        None => {
            proof {
                if is_consistent(g0) {
                    lemma_search_sound(g0);
                }
            }
            return true;
        },
    }
    proof {
        assert forall|s: Seq<int>| !(is_solution(s) && fits(s, g0)) by {
            if is_solution(s) && fits(s, g0) {
                lemma_search_complete(g0, s);
            }
        }
    }
    false
}

} // verus!
