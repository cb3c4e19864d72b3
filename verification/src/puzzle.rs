//! Puzzles as text: 81 characters, row by row, a digit from `1` to `9` for a
//! given cell and `.` or `0` for a blank one.
use vstd::prelude::*;
use vstd::string::{is_ascii_spec_bytes, StringSliceAdditionalSpecFns};
use crate::board::{fresh_board, grid_within, is_grid};
use crate::cells::{apart, digit_mask, within};
use crate::peers::is_peer;
use crate::propagate::{assign, assigned, is_propagated, lemma_outcome_exists};
use crate::search::{lemma_search_complete, lemma_search_sound, search, search_outcome};
use crate::solution::{
    fits, is_consistent, is_digit_set, is_solution, is_solved, lemma_consistent_assigned,
    lemma_digit_mask, lemma_digit_of, lemma_fixing_keeps_solution, lemma_fresh_board,
    lemma_solved_board, solution_of,
};

verus! {

/// The text holds a character that stands for no cell: one that is neither a
/// digit nor a blank, or a digit after the 81st place.
#[derive(Debug, Clone, Copy, PartialEq, Eq)]
pub struct InvalidInput;

/// The byte of the character `.`.
const DOT: u8 = 46;

/// The byte of the character `0`.
const ZERO: u8 = 48;

/// The byte of the character `1`.
const ONE: u8 = 49;

/// The byte of the character `9`.
const NINE: u8 = 57;

/// `c` stands for a cell that is not given.
pub open spec fn is_blank(c: char) -> bool {
    c == '.' || c == '0'
}

/// `c` stands for a given cell.
pub open spec fn is_clue(c: char) -> bool {
    '1' <= c <= '9'
}

/// The digit that the character `c` gives.
pub open spec fn clue_digit(c: char) -> int {
    c as int - 48
}

/// `p` is the text of a puzzle: blanks and digits, the digits within the
/// first 81 places.
pub open spec fn is_puzzle(p: Seq<char>) -> bool {
    forall|i: int| 0 <= i < p.len() ==> is_blank(#[trigger] p[i]) || (is_clue(p[i]) && i < 81)
}

/// The board that fixing the given cells among the first `n` places of `p`
/// leaves of `g`, one after the other; `None` where one of them cannot be
/// fixed. Only the first 81 places stand for cells.
pub open spec fn clues_applied(p: Seq<char>, g: Seq<u16>, n: int) -> Option<Seq<u16>>
    decreases n,
{
    if n <= 0 {
        Some(g)
    } else {
        match clues_applied(p, g, n - 1) {
            None => None,
            Some(h) => if is_clue(p[n - 1]) && n <= 81 {
                assigned(h, n - 1, digit_mask(clue_digit(p[n - 1])))
            } else {
                Some(h)
            },
        }
    }
}

/// What solving puzzle `p` on board `g` gives: the outcome of the search on
/// the board that the given cells leave.
pub open spec fn solve_outcome(p: Seq<char>, g: Seq<u16>) -> Option<Seq<u16>> {
    match clues_applied(p, g, p.len() as int) {
        None => None,
        Some(h) => search_outcome(h),
    }
}

/// `s` gives every given cell of `p` the digit that `p` gives it.
pub open spec fn agrees(p: Seq<char>, s: Seq<int>) -> bool {
    forall|i: int| 0 <= i < p.len() && i < 81 && is_clue(#[trigger] p[i]) ==> s[i] == clue_digit(p[i])
}

/// Once a given cell cannot be fixed, the rest of the text changes nothing.
proof fn lemma_clues_failed(p: Seq<char>, g: Seq<u16>, n: int, m: int)
    requires
        0 <= n <= m,
        clues_applied(p, g, n) is None,
    ensures
        clues_applied(p, g, m) is None,
    decreases m,
{
    if n < m {
        lemma_clues_failed(p, g, n, m - 1);
    }
}

proof fn lemma_held(a: u16, b: u16)
    by (bit_vector)
    requires
        within(a, b),
        a != 0,
        b != 0,
        b & ((b - 1) as u16) == 0,
    ensures
        a == b,
{
}

proof fn lemma_gone(a: u16, b: u16)
    by (bit_vector)
    requires
        within(a, b),
        apart(a, b),
    ensures
        a == 0,
{
}

/// Fixing given cells leaves a board.
pub proof fn lemma_clues_grid(p: Seq<char>, g: Seq<u16>, n: int)
    requires
        is_grid(g),
        clues_applied(p, g, n) is Some,
    ensures
        is_grid(clues_applied(p, g, n).unwrap()),
    decreases n,
{
    if n > 0 {
        lemma_clues_grid(p, g, n - 1);
        if is_clue(p[n - 1]) && n <= 81 {
            let h0 = clues_applied(p, g, n - 1).unwrap();
            let v = digit_mask(clue_digit(p[n - 1]));
            assert(is_propagated(h0.update(n - 1, v), clues_applied(p, g, n).unwrap(), n - 1, v));
        }
    }
}

/// A given cell keeps its digit as its only candidate for as long as the
/// given cells after it can be fixed.
pub proof fn lemma_clue_stays(p: Seq<char>, g: Seq<u16>, i: int, n: int)
    requires
        is_grid(g),
        0 <= i < n <= p.len(),
        i < 81,
        is_clue(p[i]),
        clues_applied(p, g, n) is Some,
    ensures
        clues_applied(p, g, n).unwrap()[i] == digit_mask(clue_digit(p[i])),
    decreases n,
{
    lemma_clues_grid(p, g, n - 1);
    let d = clue_digit(p[i]);
    let m = digit_mask(d);
    lemma_digit_mask(d, d, m);
    let h = clues_applied(p, g, n).unwrap();
    let h0 = clues_applied(p, g, n - 1).unwrap();
    if n - 1 > i {
        lemma_clue_stays(p, g, i, n - 1);
    }
    if is_clue(p[n - 1]) && n <= 81 {
        let v = digit_mask(clue_digit(p[n - 1]));
        let h1 = h0.update(n - 1, v);
        assert(is_propagated(h1, h, n - 1, v));
        assert(grid_within(h, h1));
        assert(within(h[i], h1[i]));
        assert(h1[i] == m);
        lemma_held(h[i], m);
    }
}

/// A puzzle that gives two peers the same digit is rejected while its given
/// cells are fixed, whatever the board: no search is made.
pub proof fn lemma_clash_rejected(p: Seq<char>, g: Seq<u16>, i: int, j: int)
    requires
        is_grid(g),
        0 <= i < j < p.len(),
        is_peer(i, j),
        is_clue(p[i]),
        p[j] == p[i],
    ensures
        clues_applied(p, g, p.len() as int) is None,
        solve_outcome(p, g) is None,
{
    let m = digit_mask(clue_digit(p[i]));
    lemma_digit_mask(clue_digit(p[i]), clue_digit(p[i]), m);
    if clues_applied(p, g, j + 1) is Some {
        let h = clues_applied(p, g, j).unwrap();
        let h2 = clues_applied(p, g, j + 1).unwrap();
        lemma_clue_stays(p, g, i, j);
        lemma_clues_grid(p, g, j);
        let h1 = h.update(j, m);
        assert(is_propagated(h1, h2, j, m));
        assert(is_peer(j, i));
        assert(apart(h2[i], m));
        assert(within(h2[i], h1[i]));
        lemma_gone(h2[i], m);
        assert(h2[i] != h1[i]);
    }
    lemma_clues_failed(p, g, j + 1, p.len() as int);
}

/// Fixes cell `cell` to `digit`, as a given cell of a puzzle is fixed.
pub fn apply_clue(grid: &mut [u16; 81], cell: usize, digit: u8) -> (ok: bool)
    requires
        cell < 81,
        1 <= digit <= 9,
    ensures
        grid_within(final(grid)@, old(grid)@.update(cell as int, digit_mask(digit as int))),
        assigned(old(grid)@, cell as int, digit_mask(digit as int)) == if ok {
            Some(final(grid)@)
        } else {
            None
        },
        !ok ==> forall|s: Seq<int>|
            is_solution(s) && fits(s, old(grid)@) ==> s[cell as int] != digit,
        ok ==> forall|s: Seq<int>|
            is_solution(s) && fits(s, old(grid)@) && s[cell as int] == digit ==> fits(
                s,
                final(grid)@,
            ),
        ok && is_consistent(old(grid)@) ==> is_consistent(final(grid)@),
{
    let ghost g0 = grid@;
    let ghost d = digit as int;
    let value: u16 = 1u16 << (digit - 1);
    proof {
        lemma_digit_mask(d, d, value);
        assert(value == digit_mask(d));
    }
    let ok = assign(grid, cell, value);
    proof {
        assert forall|s: Seq<int>|
            is_solution(s) && fits(s, g0) && s[cell as int] == digit implies ok && fits(
            s,
            grid@,
        ) by {
            lemma_fixing_keeps_solution(g0, s, cell as int);
        }
        if ok && is_consistent(g0) {
            lemma_consistent_assigned(g0, grid@, cell as int, value);
        }
    }
    ok
}

/// Fixing the given cells of a puzzle leaves a consistent board consistent.
pub proof fn lemma_clues_consistent(p: Seq<char>, g: Seq<u16>, n: int)
    requires
        is_consistent(g),
        clues_applied(p, g, n) is Some,
    ensures
        is_consistent(clues_applied(p, g, n).unwrap()),
    decreases n,
{
    if n > 0 {
        lemma_clues_consistent(p, g, n - 1);
        if is_clue(p[n - 1]) && n <= 81 {
            let h0 = clues_applied(p, g, n - 1).unwrap();
            let d = clue_digit(p[n - 1]);
            let m = digit_mask(d);
            lemma_digit_mask(d, d, m);
            assert(is_propagated(h0.update(n - 1, m), clues_applied(p, g, n).unwrap(), n - 1, m));
            lemma_consistent_assigned(h0, clues_applied(p, g, n).unwrap(), n - 1, m);
        }
    }
}

/// The given cells of a puzzle can be fixed on every board that allows a
/// solution of the puzzle, and the board that they leave allows it still.
pub proof fn lemma_clues_keep_solution(p: Seq<char>, g: Seq<u16>, s: Seq<int>, n: int)
    requires
        is_solution(s),
        fits(s, g),
        agrees(p, s),
        0 <= n <= p.len(),
    ensures
        clues_applied(p, g, n) is Some,
        fits(s, clues_applied(p, g, n).unwrap()),
    decreases n,
{
    if n > 0 {
        lemma_clues_keep_solution(p, g, s, n - 1);
        if is_clue(p[n - 1]) && n <= 81 {
            let h0 = clues_applied(p, g, n - 1).unwrap();
            let m = digit_mask(clue_digit(p[n - 1]));
            lemma_fixing_keeps_solution(h0, s, n - 1);
            lemma_outcome_exists(h0.update(n - 1, m), n - 1, m);
            assert(is_propagated(h0.update(n - 1, m), assigned(h0, n - 1, m).unwrap(), n - 1, m));
        }
    }
}

/// What solving a puzzle gives on a consistent board is a solved board that
/// has the digits of the puzzle at the given cells.
pub proof fn lemma_solve_sound(p: Seq<char>, g: Seq<u16>)
    requires
        is_consistent(g),
        solve_outcome(p, g) is Some,
    ensures
        is_solved(solve_outcome(p, g).unwrap()),
        agrees(p, solution_of(solve_outcome(p, g).unwrap())),
{
    let h = clues_applied(p, g, p.len() as int).unwrap();
    let r = solve_outcome(p, g).unwrap();
    let s = solution_of(r);
    lemma_clues_consistent(p, g, p.len() as int);
    lemma_search_sound(h);
    assert forall|i: int| 0 <= i < p.len() && i < 81 && is_clue(#[trigger] p[i]) implies s[i]
        == clue_digit(p[i]) by {
        let e = clue_digit(p[i]);
        lemma_clue_stays(p, g, i, p.len() as int);
        assert(within(r[i], h[i]));
        assert(is_digit_set(r[i]));
        lemma_digit_of(r[i]);
        lemma_digit_mask(e, s[i], 0);
        lemma_held(r[i], h[i]);
    }
}

/// Solving a puzzle succeeds on every board that allows a solution of the
/// puzzle.
pub proof fn lemma_solve_complete(p: Seq<char>, g: Seq<u16>, s: Seq<int>)
    requires
        is_solution(s),
        fits(s, g),
        agrees(p, s),
    ensures
        solve_outcome(p, g) is Some,
{
    lemma_clues_keep_solution(p, g, s, p.len() as int);
    lemma_search_complete(clues_applied(p, g, p.len() as int).unwrap(), s);
}

/// On the board with all candidates a puzzle is solved exactly where it has a
/// solution.
pub proof fn lemma_solve_fresh(p: Seq<char>)
    ensures
        solve_outcome(p, fresh_board()) is Some <==> exists|s: Seq<int>|
            is_solution(s) && agrees(p, s),
{
    lemma_fresh_board(Seq::empty());
    if solve_outcome(p, fresh_board()) is Some {
        lemma_solve_sound(p, fresh_board());
        lemma_solved_board(solve_outcome(p, fresh_board()).unwrap());
    }
    if exists|s: Seq<int>| is_solution(s) && agrees(p, s) {
        let s = choose|s: Seq<int>| is_solution(s) && agrees(p, s);
        lemma_fresh_board(s);
        lemma_solve_complete(p, fresh_board(), s);
    }
}

/// What the outcome of solving a puzzle says of the solutions of the puzzle.
proof fn lemma_solve_meaning(p: Seq<char>, g: Seq<u16>)
    ensures
        solve_outcome(p, g) is None ==> forall|s: Seq<int>|
            !(is_solution(s) && fits(s, g) && agrees(p, s)),
        solve_outcome(p, g) is Some && is_consistent(g) ==> is_solved(
            solve_outcome(p, g).unwrap(),
        ) && agrees(p, solution_of(solve_outcome(p, g).unwrap())),
        solve_outcome(p, fresh_board()) is Some <==> exists|s: Seq<int>|
            is_solution(s) && agrees(p, s),
{
    lemma_solve_fresh(p);
    if is_consistent(g) && solve_outcome(p, g) is Some {
        lemma_solve_sound(p, g);
    }
    assert forall|s: Seq<int>| is_solution(s) && fits(s, g) && agrees(p, s) implies solve_outcome(
        p,
        g,
    ) is Some by {
        lemma_solve_complete(p, g, s);
    }
}

/// Solves the puzzle `puzzle` on the board `grid`: fixes the given cells one
/// after the other, then searches.
///
/// Returns `Err` where the text is no puzzle, and leaves `grid` as it was.
/// Returns `Ok(true)` with the solved board in `grid`, and `Ok(false)` where a
/// given cell cannot be fixed or the search finds nothing. Where the search
/// finds nothing, `grid` is the board that the given cells have left; where a
/// given cell cannot be fixed, `grid` is left as the failed clearing left it.
///
/// On a consistent board the solved board has the digits of the puzzle at the
/// given cells. On the board with all candidates the puzzle is solved exactly
/// where it has a solution.
pub fn solve(puzzle: &str, grid: &mut [u16; 81]) -> (r: Result<bool, InvalidInput>)
    ensures
        match r {
            Err(_) => !is_puzzle(puzzle@) && final(grid)@ == old(grid)@,
            Ok(solved) => is_puzzle(puzzle@) && solve_outcome(puzzle@, old(grid)@) == if solved {
                Some(final(grid)@)
            } else {
                None
            },
        },
        r == Ok::<bool, InvalidInput>(false) ==> match clues_applied(
            puzzle@,
            old(grid)@,
            puzzle@.len() as int,
        ) {
            Some(h) => final(grid)@ == h,
            None => true,
        },
        r == Ok::<bool, InvalidInput>(false) ==> forall|s: Seq<int>|
            !(is_solution(s) && fits(s, old(grid)@) && agrees(puzzle@, s)),
        r == Ok::<bool, InvalidInput>(true) && is_consistent(old(grid)@) ==> is_solved(
            final(grid)@,
        ) && agrees(puzzle@, solution_of(final(grid)@)),
        old(grid)@ == fresh_board() && is_puzzle(puzzle@) ==> (r == Ok::<bool, InvalidInput>(true)
            <==> exists|s: Seq<int>| is_solution(s) && agrees(puzzle@, s)),
{
    broadcast use is_ascii_spec_bytes;

    let ghost g0 = grid@;
    let ghost p = puzzle@;
    if !puzzle.is_ascii() {
        return Err(InvalidInput);
    }
    let bytes = puzzle.as_bytes();
    let n = bytes.len();
    let mut i: usize = 0;
    while i < n
        invariant
            i <= n,
            n == p.len(),
            p == puzzle@,
            bytes@ == puzzle.spec_bytes(),
            puzzle.is_ascii(),
            forall|j: int| 0 <= j < i ==> is_blank(#[trigger] p[j]) || (is_clue(p[j]) && j < 81),
        decreases n - i,
    {
        let c = bytes[i];
        proof {
            assert(c == p[i as int] as u8);
            assert('\0' <= p[i as int] <= '\u{7f}');
        }
        if !(c == DOT || c == ZERO || (ONE <= c && c <= NINE && i < 81)) {
            return Err(InvalidInput);
        }
        i += 1;
    }
    let mut i: usize = 0;
    while i < n
        invariant
            i <= n,
            n == p.len(),
            p == puzzle@,
            bytes@ == puzzle.spec_bytes(),
            puzzle.is_ascii(),
            is_puzzle(p),
            g0 == old(grid)@,
            clues_applied(p, g0, i as int) == Some(grid@),
        decreases n - i,
    {
        let c = bytes[i];
        proof {
            assert(c == p[i as int] as u8);
            assert('\0' <= p[i as int] <= '\u{7f}');
            assert(is_blank(p[i as int]) || (is_clue(p[i as int]) && i < 81));
        }
        if ONE <= c && c <= NINE {
            let value: u16 = 1u16 << (c - ONE);
            proof {
                let d = clue_digit(p[i as int]);
                lemma_digit_mask(d, d, value);
                assert(value == digit_mask(d));
            }
            if !assign(grid, i, value) {
                proof {
                    lemma_clues_failed(p, g0, i + 1, n as int);
                    lemma_solve_meaning(p, g0);
                }
                return Ok(false);
            }
        }
        i += 1;
    }
    proof {
        lemma_solve_meaning(p, g0);
    }
    Ok(search(grid))
}

} // verus!
