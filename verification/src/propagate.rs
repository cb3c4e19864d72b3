//! Propagation: a digit that a cell is known to hold leaves the candidate sets
//! of the cell's peers, and a peer left with one candidate passes it on.
use vstd::prelude::*;
use crate::board::{grid_within, is_grid, lemma_total_within, total};
use crate::cells::{apart, is_single, within};
use crate::peers::{is_peer, mask_has, peers};

verus! {

/// Board `h` is a possible outcome of clearing `value` from the peers of
/// `square` on board `g`:
/// it allows nothing that `g` does not allow;
/// no peer of `square` allows a member of `value`;
/// no cell that differs from `g` is empty;
/// and a cell that differs from `g` and has one candidate left shares it with
/// none of its own peers.
pub open spec fn settled(g: Seq<u16>, h: Seq<u16>, square: int, value: u16) -> bool {
    &&& grid_within(h, g)
    &&& forall|p: int| #[trigger] is_peer(square, p) ==> apart(h[p], value)
    &&& forall|k: int| 0 <= k < 81 && #[trigger] h[k] != g[k] ==> h[k] != 0
    &&& forall|k: int, q: int|
        h[k] != g[k] && is_single(h[k]) && #[trigger] is_peer(k, q) ==> apart(h[q], h[k])
}

/// Some outcome exists: clearing `value` from the peers of `square` on `g`
/// empties no cell.
pub open spec fn can_settle(g: Seq<u16>, square: int, value: u16) -> bool {
    exists|h: Seq<u16>| settled(g, h, square, value)
}

/// Board `h` is the outcome that keeps the most: a possible outcome that
/// every possible outcome lies within. There is at most one.
pub open spec fn is_propagated(g: Seq<u16>, h: Seq<u16>, square: int, value: u16) -> bool {
    &&& settled(g, h, square, value)
    &&& forall|x: Seq<u16>| settled(g, x, square, value) ==> grid_within(x, h)
}

/// The board that clearing `value` from the peers of `square` leaves of `g`,
/// where the clearing can be done.
pub open spec fn propagated(g: Seq<u16>, square: int, value: u16) -> Option<Seq<u16>> {
    if exists|h: Seq<u16>| is_propagated(g, h, square, value) {
        Some(choose|h: Seq<u16>| is_propagated(g, h, square, value))
    } else {
        None
    }
}

/// The board that fixing `square` to `value` leaves of `g`: `value` is
/// cleared from the peers of `square` on the board that has `value` at
/// `square`.
pub open spec fn assigned(g: Seq<u16>, square: int, value: u16) -> Option<Seq<u16>> {
    propagated(g.update(square, value), square, value)
}

proof fn lemma_sets(a: u16, b: u16, c: u16)
    by (bit_vector)
    ensures
        within(a, a),
        within(a, b) && within(b, c) ==> within(a, c),
        within(a, b) && within(b, a) ==> a == b,
        within(a & !c, a),
        apart(a & !c, c),
        apart(a, c) <==> a & !c == a,
        within(a, b) && apart(b, c) ==> apart(a, c),
        within(a, b) && apart(c, b) ==> apart(c, a),
        within(a, b) && apart(a, c) ==> within(a, b & !c),
        within(a, b) && is_single(b) && a != 0 ==> a == b,
        within(a, 0) ==> a == 0,
{
}

/// How far clearing `value` from the peers of `square` has come on board
/// `g0` when the cells before `p` are done and the board is `a`.
spec fn progress(g0: Seq<u16>, a: Seq<u16>, square: int, value: u16, p: int) -> bool {
    &&& grid_within(a, g0)
    &&& forall|q: int| #[trigger] is_peer(square, q) && q < p ==> apart(a[q], value)
    &&& forall|k: int| 0 <= k < 81 && #[trigger] a[k] != g0[k] ==> a[k] != 0
    &&& forall|k: int, q: int|
        a[k] != g0[k] && is_single(a[k]) && #[trigger] is_peer(k, q) ==> apart(a[q], a[k])
    &&& forall|x: Seq<u16>| #[trigger] settled(g0, x, square, value) ==> grid_within(x, a)
}

proof fn lemma_progress_start(g0: Seq<u16>, square: int, value: u16)
    requires
        is_grid(g0),
    ensures
        progress(g0, g0, square, value, 0),
{
    lemma_within_self(g0);
}

proof fn lemma_progress_skip(g0: Seq<u16>, a: Seq<u16>, square: int, value: u16, p: int)
    requires
        progress(g0, a, square, value, p),
        is_peer(square, p) ==> apart(a[p], value),
    ensures
        progress(g0, a, square, value, p + 1),
{
}

proof fn lemma_progress_end(g0: Seq<u16>, a: Seq<u16>, square: int, value: u16)
    requires
        progress(g0, a, square, value, 81),
    ensures
        is_propagated(g0, a, square, value),
{
}

/// An outcome on `g0` is an outcome of the cascade that starts at peer `p`.
proof fn lemma_settled_step(
    g0: Seq<u16>,
    a: Seq<u16>,
    x: Seq<u16>,
    square: int,
    value: u16,
    p: int,
)
    requires
        progress(g0, a, square, value, p),
        settled(g0, x, square, value),
        is_peer(square, p),
        !apart(a[p], value),
    ensures
        grid_within(x, a.update(p, a[p] & !value)),
        grid_within(a.update(p, a[p] & !value), g0),
        x[p] != g0[p],
        is_single(a[p] & !value) ==> settled(a.update(p, a[p] & !value), x, p, a[p] & !value),
{
    let w = a[p] & !value;
    let a1 = a.update(p, w);
    assert(grid_within(x, a));
    assert(apart(x[p], value));
    lemma_sets(x[p], a[p], value);
    lemma_sets(a[p], g0[p], value);
    lemma_sets(w, a[p], g0[p]);
    assert(x[p] != g0[p]);
    assert forall|k: int| 0 <= k < 81 implies within(#[trigger] x[k], a1[k]) by {}
    assert forall|k: int| 0 <= k < 81 implies within(#[trigger] a1[k], g0[k]) by {}
    assert forall|k: int| 0 <= k < 81 && x[k] != a1[k] implies x[k] != g0[k] by {
        lemma_sets(x[k], a1[k], 0);
        lemma_sets(a1[k], g0[k], 0);
    }
    if is_single(w) {
        lemma_sets(x[p], w, 0);
        assert(x[p] == w);
        assert forall|q: int| #[trigger] is_peer(p, q) implies apart(x[q], w) by {}
    }
}

/// The cell that lost its last candidate shows that there is no outcome.
proof fn lemma_emptied(g0: Seq<u16>, a: Seq<u16>, square: int, value: u16, p: int)
    requires
        progress(g0, a, square, value, p),
        is_peer(square, p),
        !apart(a[p], value),
        a[p] & !value == 0,
    ensures
        !can_settle(g0, square, value),
{
    if can_settle(g0, square, value) {
        let x = choose|x: Seq<u16>| settled(g0, x, square, value);
        lemma_settled_step(g0, a, x, square, value, p);
        let a1 = a.update(p, a[p] & !value);
        assert(within(x[p], a1[p]));
        lemma_sets(x[p], 0, 0);
    }
}

/// A cascade without outcome shows that there is no outcome at all.
proof fn lemma_cascade_failed(g0: Seq<u16>, a: Seq<u16>, square: int, value: u16, p: int)
    requires
        progress(g0, a, square, value, p),
        is_peer(square, p),
        !apart(a[p], value),
        is_single(a[p] & !value),
        !can_settle(a.update(p, a[p] & !value), p, a[p] & !value),
    ensures
        !can_settle(g0, square, value),
{
    if can_settle(g0, square, value) {
        let x = choose|x: Seq<u16>| settled(g0, x, square, value);
        lemma_settled_step(g0, a, x, square, value, p);
    }
}

/// The board after cell `p` was cleared, and after its cascade where it had one.
proof fn lemma_progress_advance(
    g0: Seq<u16>,
    a: Seq<u16>,
    a2: Seq<u16>,
    square: int,
    value: u16,
    p: int,
)
    requires
        progress(g0, a, square, value, p),
        is_peer(square, p),
        !apart(a[p], value),
        a[p] & !value != 0,
        if is_single(a[p] & !value) {
            is_propagated(a.update(p, a[p] & !value), a2, p, a[p] & !value)
        } else {
            a2 == a.update(p, a[p] & !value)
        },
    ensures
        progress(g0, a2, square, value, p + 1),
{
    let w = a[p] & !value;
    let a1 = a.update(p, w);
    lemma_sets(a[p], g0[p], value);
    lemma_sets(w, a[p], g0[p]);
    assert forall|k: int| 0 <= k < 81 implies within(#[trigger] a1[k], a[k]) by {
        lemma_sets(a[k], 0, 0);
    }
    assert forall|k: int| 0 <= k < 81 implies within(#[trigger] a2[k], a1[k]) by {
        lemma_sets(a1[k], 0, 0);
    }
    assert forall|k: int| 0 <= k < 81 implies within(#[trigger] a2[k], a[k]) && within(
        a2[k],
        g0[k],
    ) by {
        assert(within(a1[k], a[k]));
        lemma_sets(a2[k], a1[k], a[k]);
        lemma_sets(a2[k], a[k], g0[k]);
    }
    assert forall|q: int| #[trigger] is_peer(square, q) && q < p + 1 implies apart(
        a2[q],
        value,
    ) by {
        assert(within(a2[q], a1[q]));
        lemma_sets(a2[q], a1[q], value);
    }
    assert forall|k: int| 0 <= k < 81 && #[trigger] a2[k] != g0[k] implies a2[k] != 0 by {
        if a2[k] == a1[k] && k != p {
            assert(a[k] != g0[k]);
        }
    }
    assert forall|k: int, q: int|
        a2[k] != g0[k] && is_single(a2[k]) && #[trigger] is_peer(k, q) implies apart(
        a2[q],
        a2[k],
    ) by {
        if a2[k] == a1[k] && k != p {
            assert(a[k] != g0[k]);
            assert(apart(a[q], a[k]));
            assert(within(a2[q], a[q]));
            lemma_sets(a2[q], a[q], a[k]);
        }
    }
    assert forall|x: Seq<u16>| #[trigger] settled(g0, x, square, value) implies grid_within(
        x,
        a2,
    ) by {
        lemma_settled_step(g0, a, x, square, value, p);
    }
}

/// Clears `value` from the candidate sets of the peers of `square`. A peer
/// that is left with one candidate has it cleared from its own peers in turn,
/// and so on. Returns `false` as soon as a cell is left with no candidate.
///
/// The result says whether the clearing can be done without emptying a cell.
/// Where it can, the board is left as the outcome that keeps the most
/// candidates. Where it cannot, the board is left with some of the candidates
/// cleared.
pub fn eliminate_value_from_peers(grid: &mut [u16; 81], square: usize, value: u16) -> (ok: bool)
    requires
        square < 81,
    ensures
        grid_within(final(grid)@, old(grid)@),
        ok <==> can_settle(old(grid)@, square as int, value),
        ok ==> is_propagated(old(grid)@, final(grid)@, square as int, value),
        propagated(old(grid)@, square as int, value) == if ok {
            Some(final(grid)@)
        } else {
            None
        },
    decreases total(old(grid)@),
{
    let m: u128 = peers(square as u8);
    let ghost g0 = grid@;
    proof {
        lemma_progress_start(g0, square as int, value);
    }
    let mut p: usize = 0;
    while p < 81
        invariant
            p <= 81,
            square < 81,
            g0 == old(grid)@,
            forall|j: int| #[trigger] mask_has(m, j) <==> is_peer(square as int, j),
            progress(g0, grid@, square as int, value, p as int),
        decreases 81 - p,
    {
        let ghost a = grid@;
        proof {
            assert(mask_has(m, p as int) <==> is_peer(square as int, p as int));
        }
        if m & (1u128 << (p as u128)) != 0 && grid[p] & value != 0 {
            grid[p] = grid[p] & !value;
            if grid[p] == 0 {
                proof {
                    lemma_emptied(g0, a, square as int, value, p as int);
                    lemma_settled_grid(g0, a, p as int, value);
                }
                return false;
            }
            let w: u16 = grid[p];
            if w & (w - 1) == 0 {
                proof {
                    lemma_settled_grid(g0, a, p as int, value);
                    lemma_total_within(a, g0, p as int);
                    lemma_total_within(grid@, a, p as int);
                }
                if !eliminate_value_from_peers(grid, p, w) {
                    proof {
                        lemma_cascade_failed(g0, a, square as int, value, p as int);
                        lemma_within_chain(grid@, a.update(p as int, w), g0);
                    }
                    return false;
                }
            }
            proof {
                lemma_progress_advance(g0, a, grid@, square as int, value, p as int);
            }
        } else {
            proof {
                lemma_progress_skip(g0, a, square as int, value, p as int);
            }
        }
        p += 1;
    }
    proof {
        lemma_progress_end(g0, grid@, square as int, value);
        lemma_propagated(g0, grid@, square as int, value);
    }
    true
}

/// Carries the clearing on from cell `p` to the end, as
/// `eliminate_value_from_peers` does, and gives the outcome that keeps the
/// most, where there is one.
proof fn lemma_progress_run(g0: Seq<u16>, a: Seq<u16>, square: int, value: u16, p: int) -> (r:
    Option<Seq<u16>>)
    requires
        progress(g0, a, square, value, p),
        0 <= p <= 81,
    ensures
        match r {
            Some(h) => is_propagated(g0, h, square, value) && grid_within(h, a),
            None => !can_settle(g0, square, value),
        },
    decreases total(a), 81 - p,
{
    lemma_within_self(a);
    if p == 81 {
        lemma_progress_end(g0, a, square, value);
        Some(a)
    } else if is_peer(square, p) && !apart(a[p], value) {
        let w = a[p] & !value;
        let a1 = a.update(p, w);
        lemma_settled_grid(g0, a, p, value);
        lemma_total_within(a1, a, p);
        if w == 0 {
            lemma_emptied(g0, a, square, value, p);
            None
        } else if is_single(w) {
            lemma_progress_start(a1, p, w);
            match lemma_progress_run(a1, a1, p, w, 0) {
                None => {
                    lemma_cascade_failed(g0, a, square, value, p);
                    None
                },
                Some(a2) => {
                    lemma_progress_advance(g0, a, a2, square, value, p);
                    lemma_total_within(a2, a1, p);
                    let r = lemma_progress_run(g0, a2, square, value, p + 1);
                    if r is Some {
                        lemma_within_chain(r.unwrap(), a2, a1);
                        lemma_within_chain(r.unwrap(), a1, a);
                    }
                    r
                },
            }
        } else {
            lemma_progress_advance(g0, a, a1, square, value, p);
            let r = lemma_progress_run(g0, a1, square, value, p + 1);
            if r is Some {
                lemma_within_chain(r.unwrap(), a1, a);
            }
            r
        }
    } else {
        lemma_progress_skip(g0, a, square, value, p);
        lemma_progress_run(g0, a, square, value, p + 1)
    }
}

/// Where a clearing has a possible outcome it has one that keeps the most:
/// `propagated` gives a board exactly where the clearing can be done.
pub proof fn lemma_outcome_exists(g: Seq<u16>, square: int, value: u16)
    requires
        is_grid(g),
    ensures
        can_settle(g, square, value) <==> propagated(g, square, value) is Some,
{
    lemma_progress_start(g, square, value);
    let r = lemma_progress_run(g, g, square, value, 0);
}

/// The outcome that keeps the most is what `propagated` gives.
pub proof fn lemma_propagated(g: Seq<u16>, h: Seq<u16>, square: int, value: u16)
    requires
        is_propagated(g, h, square, value),
    ensures
        propagated(g, square, value) == Some(h),
{
    let c = choose|c: Seq<u16>| is_propagated(g, c, square, value);
    lemma_propagated_unique(g, h, c, square, value);
}

/// A board with candidates cleared from one cell lies within the board, and
/// within what the board lies within.
proof fn lemma_settled_grid(g0: Seq<u16>, a: Seq<u16>, p: int, value: u16)
    requires
        grid_within(a, g0),
        0 <= p < 81,
    ensures
        grid_within(a.update(p, a[p] & !value), a),
        grid_within(a.update(p, a[p] & !value), g0),
        !apart(a[p], value) ==> a.update(p, a[p] & !value)[p] != a[p],
{
    let a1 = a.update(p, a[p] & !value);
    lemma_sets(a[p], g0[p], value);
    lemma_sets(a[p] & !value, a[p], g0[p]);
    assert forall|k: int| 0 <= k < 81 implies within(#[trigger] a1[k], a[k]) && within(
        a1[k],
        g0[k],
    ) by {
        lemma_sets(a[k], 0, 0);
    }
}

/// A board lies within itself.
pub proof fn lemma_within_self(a: Seq<u16>)
    requires
        is_grid(a),
    ensures
        grid_within(a, a),
{
    assert forall|k: int| 0 <= k < 81 implies within(#[trigger] a[k], a[k]) by {
        lemma_sets(a[k], 0, 0);
    }
}

/// Lying within is passed on from board to board.
pub proof fn lemma_within_chain(a: Seq<u16>, b: Seq<u16>, c: Seq<u16>)
    requires
        grid_within(a, b),
        grid_within(b, c),
    ensures
        grid_within(a, c),
{
    assert forall|k: int| 0 <= k < 81 implies within(#[trigger] a[k], c[k]) by {
        assert(within(a[k], b[k]));
        assert(within(b[k], c[k]));
        lemma_sets(a[k], b[k], c[k]);
    }
}

/// Fixes the candidate set of `square` to `value` and clears `value` from the
/// peers of `square`, cascading as `eliminate_value_from_peers` does.
///
/// The result and the board are those of the clearing on the board that has
/// `value` at `square`.
pub fn assign(grid: &mut [u16; 81], square: usize, value: u16) -> (ok: bool)
    requires
        square < 81,
    ensures
        grid_within(final(grid)@, old(grid)@.update(square as int, value)),
        ok <==> can_settle(old(grid)@.update(square as int, value), square as int, value),
        ok ==> is_propagated(
            old(grid)@.update(square as int, value),
            final(grid)@,
            square as int,
            value,
        ),
        assigned(old(grid)@, square as int, value) == if ok {
            Some(final(grid)@)
        } else {
            None
        },
{
    grid[square] = value;
    eliminate_value_from_peers(grid, square, value)
}

/// Two boards that both keep the most are one board: the outcome of a
/// clearing that succeeds is determined.
pub proof fn lemma_propagated_unique(
    g: Seq<u16>,
    h1: Seq<u16>,
    h2: Seq<u16>,
    square: int,
    value: u16,
)
    requires
        is_propagated(g, h1, square, value),
        is_propagated(g, h2, square, value),
    ensures
        h1 == h2,
{
    assert(grid_within(h1, h2));
    assert(grid_within(h2, h1));
    assert forall|k: int| 0 <= k < 81 implies h1[k] == h2[k] by {
        assert(within(h1[k], h2[k]));
        assert(within(h2[k], h1[k]));
        lemma_sets(h1[k], h2[k], 0);
    }
    assert(h1 =~= h2);
}

/// Board `g` with `value` cleared from the peers of `square` and nothing else
/// changed.
pub open spec fn cleared(g: Seq<u16>, square: int, value: u16) -> Seq<u16> {
    Seq::new(
        81,
        |k: int|
            if is_peer(square, k) {
                g[k] & !value
            } else {
                g[k]
            },
    )
}

/// Where every peer of `square` that loses a candidate keeps two or more, the
/// clearing succeeds and does no more than clear `value` from the 20 peers:
/// no other cell changes.
pub proof fn lemma_clearing_without_cascade(g: Seq<u16>, h: Seq<u16>, square: int, value: u16)
    requires
        is_grid(g),
        forall|p: int|
            #[trigger] is_peer(square, p) && !apart(g[p], value) ==> g[p] & !value != 0
                && !is_single(g[p] & !value),
    ensures
        can_settle(g, square, value),
        is_propagated(g, h, square, value) <==> h == cleared(g, square, value),
{
    let c = cleared(g, square, value);
    assert forall|k: int| 0 <= k < 81 implies within(#[trigger] c[k], g[k]) && (c[k] != g[k]
        ==> is_peer(square, k) && !apart(g[k], value)) by {
        lemma_sets(g[k], 0, value);
    }
    assert forall|p: int| #[trigger] is_peer(square, p) implies apart(c[p], value) by {
        lemma_sets(g[p], 0, value);
    }
    assert(settled(g, c, square, value));
    assert forall|x: Seq<u16>| settled(g, x, square, value) implies grid_within(x, c) by {
        assert forall|k: int| 0 <= k < 81 implies within(#[trigger] x[k], c[k]) by {
            assert(within(x[k], g[k]));
            if is_peer(square, k) {
                lemma_sets(x[k], g[k], value);
            }
        }
    }
    assert(is_propagated(g, c, square, value));
    if is_propagated(g, h, square, value) {
        lemma_propagated_unique(g, h, c, square, value);
    }
}

proof fn lemma_put_back(a: u16, b: u16, m: u16, c: u16)
    by (bit_vector)
    requires
        is_single(m),
    ensures
        m != 0,
        a | m != 0,
        !apart(b, m) && within(a, b) ==> within(a | m, b),
        apart(a, c) && apart(c, m) ==> apart(a | m, c),
        apart(a, c) && apart(m, c) ==> apart(a | m, c),
        apart(a, m) && a != 0 ==> !is_single(a | m),
        apart(a, m) && !apart(b, m) ==> a != b,
        is_single(c) && !apart(m, c) ==> c == m,
        within(a | m, a) ==> !apart(a, m),
{
}

/// Nothing is cleared without cause. A candidate `m` that a successful
/// clearing takes from cell `k` is a member of `value`, and `k` a peer of
/// `square`; or the clearing has left a peer of `k` with `m` as its one
/// candidate.
pub proof fn lemma_cleared_for_cause(
    g: Seq<u16>,
    h: Seq<u16>,
    square: int,
    value: u16,
    k: int,
    m: u16,
)
    requires
        is_propagated(g, h, square, value),
        0 <= k < 81,
        is_single(m),
        !apart(g[k], m),
        apart(h[k], m),
    ensures
        (is_peer(square, k) && !apart(value, m)) || exists|q: int|
            is_peer(k, q) && h[q] == m && h[q] != g[q],
{
    if !((is_peer(square, k) && !apart(value, m)) || exists|q: int|
        is_peer(k, q) && h[q] == m && h[q] != g[q]) {
        // The board with `m` put back at `k` would be an outcome too.
        let x = h.update(k, h[k] | m);
        assert(within(h[k], g[k]));
        lemma_put_back(h[k], g[k], m, value);
        assert forall|j: int| 0 <= j < 81 implies within(#[trigger] x[j], g[j]) by {
            assert(within(h[j], g[j]));
        }
        assert forall|p: int| #[trigger] is_peer(square, p) implies apart(x[p], value) by {
            assert(apart(h[p], value));
            if p == k {
                lemma_sets(value, 0, m);
                lemma_apart_sides(value, m);
            }
        }
        assert forall|j: int| 0 <= j < 81 && #[trigger] x[j] != g[j] implies x[j] != 0 by {}
        assert forall|j: int, q: int|
            x[j] != g[j] && is_single(x[j]) && #[trigger] is_peer(j, q) implies apart(
            x[q],
            x[j],
        ) by {
            if j == k {
                assert(h[k] != g[k]);
                assert(h[k] != 0);
            } else {
                assert(apart(h[q], h[j]));
                if q == k {
                    assert(is_peer(k, j));
                    lemma_put_back(h[k], g[k], m, h[j]);
                    assert(h[j] != m);
                }
            }
        }
        assert(settled(g, x, square, value));
        assert(grid_within(x, h));
        assert(within(x[k], h[k]));
    }
}

proof fn lemma_apart_sides(a: u16, b: u16)
    by (bit_vector)
    ensures
        apart(a, b) <==> apart(b, a),
{
}

} // verus!
