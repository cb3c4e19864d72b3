//! Timing: how long solving takes, by the system clock.
use vstd::prelude::*;
use std::time::{Duration, SystemTime, UNIX_EPOCH};
use crate::board::{fresh_board, new_board};
use crate::puzzle::{agrees, is_puzzle, solve, solve_outcome};
use crate::solution::is_solution;

verus! {

/// `std::time::SystemTime`, a reading of the system clock.
#[verifier::external_type_specification]
#[verifier::external_body]
pub struct ExSystemTime(SystemTime);

/// `SystemTime::now`: the reading of the system clock at the time of the
/// call. Nothing is claimed of it.
pub assume_specification[ SystemTime::now ]() -> (t: SystemTime)
;

/// `SystemTime::duration_since`, from the Unix epoch: the time between the
/// epoch and `t`, `None` where `t` lies before the epoch. Nothing is claimed
/// of it.
#[verifier::external_body]
fn since_epoch(t: &SystemTime) -> (d: Option<Duration>) {
    t.duration_since(UNIX_EPOCH).ok()
}

/// `Duration::as_millis`: the whole milliseconds of `d`. Nothing is claimed
/// of their number.
pub assume_specification[ Duration::as_millis ](d: &Duration) -> (ms: u128)
;

/// The milliseconds that the system clock counts since the Unix epoch, 0
/// where it is set before the epoch.
pub fn current_millis() -> (ms: u128) {
    match since_epoch(&SystemTime::now()) {
        Some(d) => d.as_millis(),
        None => 0,
    }
}

/// The time from `start` to `end`, 0 where the clock was set back between the
/// two.
pub fn elapsed_millis(start: u128, end: u128) -> (ms: u128)
    ensures
        ms == if end >= start {
            end - start
        } else {
            0
        },
{
    if end >= start {
        end - start
    } else {
        0
    }
}

/// Solves the puzzle as `solve` does and returns the milliseconds that it
/// took, `None` where the puzzle was not solved.
pub fn timed_solve(puzzle: &str, grid: &mut [u16; 81]) -> (elapsed: Option<u128>)
    ensures
        elapsed is Some <==> is_puzzle(puzzle@) && solve_outcome(puzzle@, old(grid)@) is Some,
        elapsed is Some ==> solve_outcome(puzzle@, old(grid)@) == Some(final(grid)@),
        old(grid)@ == fresh_board() ==> (elapsed is Some <==> is_puzzle(puzzle@) && exists|s: Seq<int>|
            is_solution(s) && agrees(puzzle@, s)),
{
    let start_millis = current_millis();
    match solve(puzzle, grid) {
        Ok(true) => {},
        _ => {
            return None;
        },
    }
    let end_millis = current_millis();
    Some(elapsed_millis(start_millis, end_millis))
}

/// The count, the sum and the greatest of the times taken so far.
pub struct Tally {
    pub count: u128,
    pub total_time: u128,
    pub max_time: u128,
}

impl Tally {
    /// The tally of no times.
    pub fn new() -> (tally: Tally)
        ensures
            tally.count == 0,
            tally.total_time == 0,
            tally.max_time == 0,
    {
        Tally { count: 0, total_time: 0, max_time: 0 }
    }

    /// No time of the tally is greater than `max_time`. The sum stops at the
    /// greatest `u128`.
    pub open spec fn is_sound(&self) -> bool {
        self.total_time <= self.count * self.max_time
    }

    /// Takes one more time into the tally.
    pub fn record(&mut self, puzzle_time: u128)
        requires
            old(self).count < u128::MAX,
        ensures
            final(self).count == old(self).count + 1,
            final(self).total_time == if old(self).total_time + puzzle_time <= u128::MAX {
                old(self).total_time + puzzle_time
            } else {
                u128::MAX as int
            },
            final(self).max_time == if puzzle_time > old(self).max_time {
                puzzle_time
            } else {
                old(self).max_time
            },
            old(self).is_sound() ==> final(self).is_sound(),
    {
        proof {
            let c = self.count as int;
            let m = self.max_time as int;
            let t = puzzle_time as int;
            let n = if t > m {
                t
            } else {
                m
            };
            assert(c * m + t <= (c + 1) * n) by (nonlinear_arith)
                requires
                    0 <= c,
                    0 <= m <= n,
                    0 <= t <= n,
            ;
        }
        self.total_time = if puzzle_time > u128::MAX - self.total_time {
            u128::MAX
        } else {
            self.total_time + puzzle_time
        };
        if puzzle_time > self.max_time {
            self.max_time = puzzle_time;
        }
        self.count = self.count + 1;
    }

    /// The count, the mean and the greatest of the times.
    pub fn summary(&self) -> (r: (u128, u128, u128))
        requires
            self.count > 0,
        ensures
            r.0 == self.count,
            r.1 == self.total_time / self.count,
            r.2 == self.max_time,
            self.is_sound() ==> r.1 <= r.2,
    {
        proof {
            let c = self.count as int;
            let m = self.max_time as int;
            let t = self.total_time as int;
            assert(t <= c * m ==> t / c <= m) by (nonlinear_arith)
                requires
                    c > 0,
                    0 <= t,
                    0 <= m,
            ;
        }
        (self.count, self.total_time / self.count, self.max_time)
    }
}

/// Solves each of the puzzles on a new board and returns how many there
/// were, the mean and the greatest of the milliseconds taken; `None` as soon
/// as one of them is not solved.
pub fn profile_puzzles(puzzles: &[&str]) -> (r: Option<(u128, u128, u128)>)
    requires
        puzzles@.len() > 0,
    ensures
        r is Some <==> forall|i: int|
            0 <= i < puzzles@.len() ==> is_puzzle(#[trigger] puzzles@[i]@) && exists|s: Seq<int>|
                is_solution(s) && agrees(puzzles@[i]@, s),
        match r {
            Some((count, mean, greatest)) => count == puzzles@.len() && mean <= greatest,
            None => true,
        },
{
    let mut tally = Tally::new();
    let mut i: usize = 0;
    while i < puzzles.len()
        invariant
            i <= puzzles@.len(),
            tally.count == i,
            tally.is_sound(),
            forall|j: int|
                0 <= j < i ==> is_puzzle(#[trigger] puzzles@[j]@) && exists|s: Seq<int>|
                    is_solution(s) && agrees(puzzles@[j]@, s),
        decreases puzzles@.len() - i,
    {
        let mut grid = new_board();
        match timed_solve(puzzles[i], &mut grid) {
            Some(puzzle_time) => {
                tally.record(puzzle_time);
            },
            None => {
                return None;
            },
        }
        i += 1;
    }
    Some(tally.summary())
}

} // verus!
