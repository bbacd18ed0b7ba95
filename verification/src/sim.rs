//! The simulation driver: folding the rotation engine over an ordered
//! sequence of turns, starting from the dial's midpoint position 50, and
//! accumulating two counters: how many turns end exactly on position 0, and
//! how many traversals through 0 happen over all turns (which includes the
//! end-of-turn zeros).

use crate::turn::{crossings_spec, do_turn, new_dial_spec, Direction, Turn, TurnResult};
use vstd::arithmetic::div_mod::{
    lemma_div_is_ordered, lemma_div_pos_is_pos, lemma_fundamental_div_mod_converse,
};
use vstd::prelude::*;

verus! {

/// The dial position at the start of a run.
pub const INITIAL_DIAL: i32 = 50;

/// A per-turn bound on the traversal count: a turn of at most `u32::MAX`
/// ticks from a position in [0, 99] can cross 0 at most this many times.
pub const MAX_CROSSINGS_PER_TURN: u64 = 42949673;

/// The dial position after applying every turn of `turns` in order,
/// starting from `start`.
pub open spec fn dial_after(turns: Seq<Turn>, start: int) -> int
    decreases turns.len(),
{
    if turns.len() == 0 {
        start
    } else {
        new_dial_spec(turns.last(), dial_after(turns.drop_last(), start))
    }
}

/// The total number of traversals through 0 over all turns of `turns`
/// applied in order from `start`.
pub open spec fn total_crossings(turns: Seq<Turn>, start: int) -> int
    decreases turns.len(),
{
    if turns.len() == 0 {
        0
    } else {
        total_crossings(turns.drop_last(), start) + crossings_spec(
            turns.last(),
            dial_after(turns.drop_last(), start),
        )
    }
}

/// How many of the turns of `turns`, applied in order from `start`, leave
/// the dial exactly on position 0.
pub open spec fn zero_landings(turns: Seq<Turn>, start: int) -> int
    decreases turns.len(),
{
    if turns.len() == 0 {
        0
    } else {
        zero_landings(turns.drop_last(), start) + if dial_after(turns, start) == 0 {
            1int
        } else {
            0int
        }
    }
}

/// The dial never leaves [0, 99]: after any sequence of turns from a
/// position in range, the position is still in range.
pub proof fn lemma_dial_after_in_range(turns: Seq<Turn>, start: int)
    requires
        0 <= start <= 99,
    ensures
        0 <= dial_after(turns, start) <= 99,
    decreases turns.len(),
{
    if turns.len() > 0 {
        lemma_dial_after_in_range(turns.drop_last(), start);
    }
}

/// No single turn from a position in [0, 99] crosses 0 more than
/// `MAX_CROSSINGS_PER_TURN` times.
pub proof fn lemma_crossings_bounded(t: Turn, dial: int)
    requires
        0 <= dial <= 99,
    ensures
        0 <= crossings_spec(t, dial) <= MAX_CROSSINGS_PER_TURN,
{
    match t.dir {
        Direction::Right => {
            lemma_div_pos_is_pos(dial + t.ticks, 100);
            lemma_div_is_ordered(dial + t.ticks, 99 + u32::MAX as int, 100);
            lemma_fundamental_div_mod_converse(99 + u32::MAX as int, 100, 42949673, 94);
        },
        Direction::Left => {
            let raw = dial - t.ticks;
            if raw <= 0 {
                lemma_div_pos_is_pos(-raw, 100);
                lemma_div_is_ordered(-raw, u32::MAX as int, 100);
                lemma_fundamental_div_mod_converse(u32::MAX as int, 100, 42949672, 95);
            }
        },
    }
}

/// The counters of a whole run.
pub struct SimOutcome {
    /// The per-turn results, in the order the turns were applied.
    pub results: Vec<TurnResult>,
    /// How many turns ended with the dial exactly on position 0.
    pub zeros_at_end_of_rotation: u64,
    /// The total number of traversals through 0, during and at the end of
    /// the turns.
    pub zeros_during_rotation: u64,
    /// The dial position after the last turn.
    pub final_dial: i32,
}

/// Runs the whole simulation: applies every turn in order starting from
/// dial position `INITIAL_DIAL` (50), and accumulates the two counters.
#[verifier::rlimit(60)]
pub fn run_simulation(turns: &Vec<Turn>) -> (r: SimOutcome)
    requires
        turns@.len() <= u32::MAX,
    ensures
        r.final_dial == dial_after(turns@, INITIAL_DIAL as int),
        0 <= r.final_dial <= 99,
        forall|i: int| 0 <= i < turns@.len() ==> 0 <= #[trigger] r.results@[i].dial <= 99,
        r.zeros_at_end_of_rotation == zero_landings(turns@, INITIAL_DIAL as int),
        r.zeros_during_rotation == total_crossings(turns@, INITIAL_DIAL as int),
        r.results@.len() == turns@.len(),
        forall|i: int|
            0 <= i < turns@.len() ==> r.results@[i].dial == dial_after(
                turns@.subrange(0, i + 1),
                INITIAL_DIAL as int,
            ),
        forall|i: int|
            0 <= i < turns@.len() ==> r.results@[i].traversals_thru_zero == crossings_spec(
                turns@[i],
                dial_after(turns@.subrange(0, i), INITIAL_DIAL as int),
            ),
{
    let mut results: Vec<TurnResult> = Vec::new();
    let mut zeros_at_end_of_rotation: u64 = 0;
    let mut zeros_during_rotation: u64 = 0;
    let mut dial: i32 = INITIAL_DIAL;
    let mut idx: usize = 0;
    proof {
        assert(turns@.subrange(0, 0) =~= Seq::<Turn>::empty());
    }
    while idx < turns.len()
        invariant
            0 <= idx <= turns@.len(),
            turns@.len() <= u32::MAX,
            0 <= dial <= 99,
            dial == dial_after(turns@.subrange(0, idx as int), INITIAL_DIAL as int),
            zeros_at_end_of_rotation == zero_landings(
                turns@.subrange(0, idx as int),
                INITIAL_DIAL as int,
            ),
            zeros_during_rotation == total_crossings(
                turns@.subrange(0, idx as int),
                INITIAL_DIAL as int,
            ),
            zeros_at_end_of_rotation <= idx,
            zeros_during_rotation <= idx * MAX_CROSSINGS_PER_TURN,
            results@.len() == idx,
            forall|i: int| 0 <= i < idx ==> 0 <= #[trigger] results@[i].dial <= 99,
            forall|i: int|
                0 <= i < idx ==> results@[i].dial == dial_after(
                    turns@.subrange(0, i + 1),
                    INITIAL_DIAL as int,
                ),
            forall|i: int|
                0 <= i < idx ==> results@[i].traversals_thru_zero == crossings_spec(
                    turns@[i],
                    dial_after(turns@.subrange(0, i), INITIAL_DIAL as int),
                ),
        decreases turns@.len() - idx,
    {
        let ghost prefix = turns@.subrange(0, idx as int);
        let ghost extended = turns@.subrange(0, idx as int + 1);
        proof {
            assert(extended.drop_last() =~= prefix);
            assert(extended.last() == turns@[idx as int]);
            lemma_crossings_bounded(turns@[idx as int], dial as int);
        }
        let result = do_turn(&turns[idx], dial);
        dial = result.dial;
        if dial == 0 {
            zeros_at_end_of_rotation = zeros_at_end_of_rotation + 1;
        }
        zeros_during_rotation = zeros_during_rotation + result.traversals_thru_zero as u64;
        results.push(result);
        idx = idx + 1;
    }
    proof {
        assert(turns@.subrange(0, turns@.len() as int) =~= turns@);
    }
    SimOutcome {
        results,
        zeros_at_end_of_rotation,
        zeros_during_rotation,
        final_dial: dial,
    }
}

} // verus!
