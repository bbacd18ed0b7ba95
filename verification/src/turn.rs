//! The rotation engine: applying one turn instruction to the dial.
//!
//! The dial has 100 positions, 0 through 99. A right turn moves the dial
//! forward by `ticks` positions, a left turn moves it backward; the dial
//! wraps around at the boundary. Besides the new position, each turn yields
//! the number of times the dial passed through or landed exactly on
//! position 0 during the movement. A left turn that starts exactly on 0
//! does not count the starting position again: the turn that got the dial
//! there already accounted for it.

use vstd::arithmetic::div_mod::{
    lemma_fundamental_div_mod, lemma_fundamental_div_mod_converse, lemma_mod_multiples_vanish,
    lemma_small_mod,
};
use vstd::prelude::*;

verus! {

/// Which way the dial is rotated.
#[derive(Debug, Clone, Copy, PartialEq, Eq, Structural)]
pub enum Direction {
    Right,
    Left,
}

/// One instruction: rotate the dial `ticks` positions in direction `dir`.
#[derive(Debug, Clone, Copy, PartialEq, Eq, Structural)]
pub struct Turn {
    pub dir: Direction,
    pub ticks: u32,
}

/// The outcome of a single turn: the dial position after the turn and the
/// number of times the dial passed through or landed on position 0.
#[derive(Debug, Clone, Copy, PartialEq, Eq, Structural)]
pub struct TurnResult {
    pub traversals_thru_zero: u32,
    pub dial: i32,
}

/// The signed displacement a turn applies to the dial: positive for a right
/// turn, negative for a left turn.
pub open spec fn turn_delta(t: Turn) -> int {
    match t.dir {
        Direction::Right => t.ticks as int,
        Direction::Left => -(t.ticks as int),
    }
}

/// The dial position after applying turn `t` from position `dial`: the
/// displaced position reduced to the range [0, 99] by wrapping. `%` is the
/// Euclidean remainder, so the result is in [0, 99] wherever `dial` is.
pub open spec fn new_dial_spec(t: Turn, dial: int) -> int {
    (dial + turn_delta(t)) % 100
}

/// How many times the dial passes through or lands on position 0 while turn
/// `t` is applied from position `dial` (for `dial` in [0, 99]).
///
/// A right turn crosses 0 exactly when the displaced position reaches a
/// multiple of 100, so the count is the number of full hundreds in
/// `dial + ticks`. A left turn crosses or reaches 0 once as soon as the
/// displaced position `dial - ticks` falls to 0 or below, plus once more for
/// every further full lap of 100 below zero; a left turn that starts on 0
/// does not count its starting position as a crossing.
pub open spec fn crossings_spec(t: Turn, dial: int) -> int {
    match t.dir {
        Direction::Right => (dial + t.ticks) / 100,
        Direction::Left => {
            let raw = dial - t.ticks;
            if raw > 0 {
                0
            } else if dial == 0 {
                (-raw) / 100
            } else {
                1 + (-raw) / 100
            }
        },
    }
}

/// Applies one turn to the dial.
///
/// Returns the new dial position, always in [0, 99], and the number of
/// traversals through position 0 that the movement produced.
pub fn do_turn(turn: &Turn, dial: i32) -> (r: TurnResult)
    requires
        0 <= dial <= 99,
    ensures
        r.dial == new_dial_spec(*turn, dial as int),
        0 <= r.dial <= 99,
        r.traversals_thru_zero == crossings_spec(*turn, dial as int),
{
    match turn.dir {
        Direction::Right => {
            let raw: u64 = dial as u64 + turn.ticks as u64;
            let traversals: u64 = raw / 100;
            let next_dial: u64 = raw % 100;
            proof {
                // raw is at most 99 + u32::MAX, so raw / 100 fits in a u32.
                lemma_fundamental_div_mod(raw as int, 100);
            }
            TurnResult { traversals_thru_zero: traversals as u32, dial: next_dial as i32 }
        },
        Direction::Left => {
            if turn.ticks as u64 >= dial as u64 {
                // The displaced position dial - ticks is 0 or below; `below`
                // is how far below (or exactly on) 0 it ends up.
                let below: u64 = turn.ticks as u64 - dial as u64;
                let mut traversals: u64 = 1 + below / 100;
                if dial == 0 {
                    // The starting position was already 0: do not count it
                    // as a new crossing.
                    traversals = traversals - 1;
                }
                let rem: u64 = below % 100;
                let next_dial: i32 = if rem == 0 {
                    0
                } else {
                    (100 - rem) as i32
                };
                proof {
                    lemma_fundamental_div_mod(below as int, 100);
                    // dial - ticks == -below == 100 * (-(below/100) - 1) + (100 - rem)
                    // when rem != 0, and 100 * (-(below/100)) + 0 when rem == 0;
                    // either way the Euclidean remainder is next_dial.
                    if rem == 0 {
                        lemma_fundamental_div_mod_converse(
                            dial - turn.ticks,
                            100,
                            -(below as int / 100),
                            0,
                        );
                    } else {
                        lemma_fundamental_div_mod_converse(
                            dial - turn.ticks,
                            100,
                            -(below as int / 100) - 1,
                            100 - rem,
                        );
                    }
                }
                TurnResult { traversals_thru_zero: traversals as u32, dial: next_dial }
            } else {
                // The dial stays above 0: no crossing, no wrap.
                let next_dial: i32 = dial - turn.ticks as i32;
                proof {
                    lemma_small_mod((dial - turn.ticks) as nat, 100);
                }
                TurnResult { traversals_thru_zero: 0, dial: next_dial }
            }
        },
    }
}

/// A right turn of a whole number of laps returns the dial to where it
/// started and crosses 0 once per lap: from any position `d` in [1, 99], a
/// right turn of `100 * k` ticks ends on `d` with exactly `k` traversals.
pub proof fn lemma_right_whole_laps(d: int, k: int)
    requires
        1 <= d <= 99,
        0 <= k,
        100 * k <= u32::MAX,
    ensures
        new_dial_spec(Turn { dir: Direction::Right, ticks: (100 * k) as u32 }, d) == d,
        crossings_spec(Turn { dir: Direction::Right, ticks: (100 * k) as u32 }, d) == k,
{
    let t = Turn { dir: Direction::Right, ticks: (100 * k) as u32 };
    assert(t.ticks as int == 100 * k);
    lemma_fundamental_div_mod_converse(d + 100 * k, 100, k, d);
}

/// A left turn that starts exactly on position 0 does not count the zero it
/// started on: from 0, a left turn of `ticks` crosses 0 exactly
/// `ticks / 100` times, one per full lap completed, and none for the
/// starting position itself.
pub proof fn lemma_left_from_zero_counts_laps(ticks: u32)
    ensures
        crossings_spec(Turn { dir: Direction::Left, ticks }, 0) == ticks as int / 100,
{
}

/// Round trip: a right turn of `ticks` followed at once by a left turn of
/// the same `ticks` returns the dial to its starting position. (The two
/// turns' crossing counts need not be equal: the boundary at 0 is treated
/// asymmetrically.)
pub proof fn lemma_right_then_left_round_trip(d: int, ticks: u32)
    requires
        0 <= d <= 99,
    ensures
        new_dial_spec(
            Turn { dir: Direction::Left, ticks },
            new_dial_spec(Turn { dir: Direction::Right, ticks }, d),
        ) == d,
{
    let mid = (d + ticks) % 100;
    let q = (d + ticks) / 100;
    lemma_fundamental_div_mod(d + ticks, 100);
    // mid - ticks == d - 100 * q, whose remainder is that of d itself.
    lemma_mod_multiples_vanish(-q, d, 100);
    lemma_small_mod(d as nat, 100);
    assert(mid - ticks == 100 * (-q) + d);
}

} // verus!
