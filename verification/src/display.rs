//! Boards as text, for display.
use vstd::prelude::*;
use vstd::string::StringExecFns;
use crate::cells::{allows, digit_mask};

verus! {

/// The text of digit `d`.
pub open spec fn digit_text(d: int) -> Seq<char> {
    if d == 1 {
        "1"@
    } else if d == 2 {
        "2"@
    } else if d == 3 {
        "3"@
    } else if d == 4 {
        "4"@
    } else if d == 5 {
        "5"@
    } else if d == 6 {
        "6"@
    } else if d == 7 {
        "7"@
    } else if d == 8 {
        "8"@
    } else {
        "9"@
    }
}

/// The digits from `d` to 9 that the candidate set `a` allows, in rising
/// order.
pub open spec fn candidates_text(a: u16, d: int) -> Seq<char>
    decreases 10 - d,
{
    if d < 1 || d > 9 {
        Seq::empty()
    } else if allows(a, d) {
        digit_text(d) + candidates_text(a, d + 1)
    } else {
        candidates_text(a, d + 1)
    }
}

/// The text of the first `n` cells of `g`: for each cell its candidates and a
/// space, and a line end after each ninth cell.
pub open spec fn cells_text(g: Seq<u16>, n: int) -> Seq<char>
    decreases n,
{
    if n <= 0 {
        Seq::empty()
    } else {
        cells_text(g, n - 1) + candidates_text(g[n - 1], 1) + " "@ + if n % 9 == 0 {
            "\n"@
        } else {
            Seq::empty()
        }
    }
}

fn digit_str(d: u16) -> (text: &'static str)
    requires
        1 <= d <= 9,
    ensures
        text@ == digit_text(d as int),
{
    match d {
        1 => "1",
        2 => "2",
        3 => "3",
        4 => "4",
        5 => "5",
        6 => "6",
        7 => "7",
        8 => "8",
        _ => "9",
    }
}

/// The board as text: nine lines of nine cells, each cell the digits that it
/// allows, in rising order, and a space.
pub fn grid_text(grid: &[u16; 81]) -> (text: String)
    ensures
        text@ == cells_text(grid@, 81),
{
    let mut text = String::new();
    let mut i: usize = 0;
    while i < 81
        invariant
            i <= 81,
            text@ == cells_text(grid@, i as int),
        decreases 81 - i,
    {
        let values: u16 = grid[i];
        let ghost before = text@;
        let mut b: u16 = 0;
        while b < 9
            invariant
                b <= 9,
                values == grid@[i as int],
                text@ + candidates_text(values, b + 1) == before + candidates_text(values, 1),
            decreases 9 - b,
        {
            let ghost t = text@;
            proof {
                assert(digit_mask(b + 1) == 1u16 << b);
            }
            if values & 1u16 << b > 0 {
                text.append(digit_str(b + 1));
                proof {
                    assert(text@ + candidates_text(values, b + 2) =~= t + (digit_text(b + 1)
                        + candidates_text(values, b + 2)));
                }
            }
            b += 1;
        }
        proof {
            assert(text@ =~= before + candidates_text(values, 1));
        }
        text.append(" ");
        if (i + 1) % 9 == 0 {
            text.append("\n");
        } else {
            proof {
                assert(text@ + Seq::<char>::empty() =~= text@);
            }
        }
        i += 1;
    }
    text
}

} // verus!
