//! Candidate sets: which digits a cell may still hold.
//!
//! A candidate set is a `u16`. Bit `d - 1` set means that digit `d` is still
//! possible, for `d` from 1 to 9.
use vstd::prelude::*;

verus! {

/// The candidate set of a cell of which nothing is known: all nine digits.
pub const INITIAL_VALUES: u16 = 0b0001_1111_1111;

/// The candidate set that holds digit `d` alone.
pub open spec fn digit_mask(d: int) -> u16 {
    1u16 << ((d - 1) as u16)
}

/// Digit `d` is a member of the candidate set `a`.
pub open spec fn allows(a: u16, d: int) -> bool {
    1 <= d <= 9 && a & digit_mask(d) != 0
}

/// Every member of `a` is a member of `b`.
pub open spec fn within(a: u16, b: u16) -> bool {
    a & !b == 0
}

/// `a` and `b` have no member in common.
pub open spec fn apart(a: u16, b: u16) -> bool {
    a & b == 0
}

/// `a` has exactly one member.
pub open spec fn is_single(a: u16) -> bool {
    a != 0 && a & ((a - 1) as u16) == 0
}

/// The number of members of `a`.
pub open spec fn count(a: u16) -> nat {
    ((a & 1) + ((a >> 1) & 1) + ((a >> 2) & 1) + ((a >> 3) & 1) + ((a >> 4) & 1) + ((a >> 5) & 1)
        + ((a >> 6) & 1) + ((a >> 7) & 1) + ((a >> 8) & 1) + ((a >> 9) & 1) + ((a >> 10) & 1) + ((a
        >> 11) & 1) + ((a >> 12) & 1) + ((a >> 13) & 1) + ((a >> 14) & 1) + ((a >> 15) & 1)) as nat
}

/// A cell with candidate set `a` is unsolved: it has from two to nine
/// candidates.
pub open spec fn is_open(a: u16) -> bool {
    2 <= count(a) <= 9
}

/// `u16::count_ones`: the number of bits that are set in `a`.
pub assume_specification[ u16::count_ones ](a: u16) -> (n: u32)
    ensures
        n == count(a),
;

/// What the number of members says of a candidate set.
pub proof fn lemma_count(a: u16)
    by (bit_vector)
    ensures
        count(a) <= 16,
        count(a) == 0 <==> a == 0,
        count(a) == 1 <==> is_single(a),
{
}

/// A part of a candidate set has no more members than the whole, and fewer
/// where it is not the whole.
pub proof fn lemma_count_within(a: u16, b: u16)
    by (bit_vector)
    requires
        within(a, b),
    ensures
        count(a) <= count(b),
        a != b ==> count(a) < count(b),
{
}

} // verus!
