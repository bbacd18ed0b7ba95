//! Tests for the simulation driver: whole runs over a sequence of turns.

use dial_sim::parse::parse_lines;
use dial_sim::sim::{run_simulation, INITIAL_DIAL};
use dial_sim::turn::{Direction, Turn};

#[test]
fn end_to_end_r1000_then_l250() {
    // The two input lines R1000 and L250, starting from the midpoint 50.
    let lines = vec![b"R1000".to_vec(), b"L250".to_vec()];
    let turns = parse_lines(&lines).unwrap();
    let outcome = run_simulation(&turns);

    // R1000 from 50: ten full laps, back to 50, 10 traversals.
    assert_eq!(outcome.results[0].dial, 50);
    assert_eq!(outcome.results[0].traversals_thru_zero, 10);
    // L250 from 50: lands exactly on 0 after two and a half laps back,
    // 3 traversals (one reaching 0, two more full laps below).
    assert_eq!(outcome.results[1].dial, 0);
    assert_eq!(outcome.results[1].traversals_thru_zero, 3);

    assert_eq!(outcome.final_dial, 0);
    assert_eq!(outcome.zeros_at_end_of_rotation, 1);
    assert_eq!(outcome.zeros_during_rotation, 13);
}

#[test]
fn empty_run_changes_nothing() {
    let outcome = run_simulation(&Vec::new());
    assert_eq!(outcome.final_dial, INITIAL_DIAL);
    assert_eq!(outcome.final_dial, 50);
    assert_eq!(outcome.zeros_at_end_of_rotation, 0);
    assert_eq!(outcome.zeros_during_rotation, 0);
    assert!(outcome.results.is_empty());
}

#[test]
fn counters_accumulate_over_turns() {
    let turns = vec![
        // 50 -> 0, landing on 0: 1 traversal, 1 end-of-turn zero.
        Turn {
            dir: Direction::Left,
            ticks: 50,
        },
        // 0 -> 0 backward, one full lap: 1 traversal (start not recounted),
        // 1 end-of-turn zero.
        Turn {
            dir: Direction::Left,
            ticks: 100,
        },
        // 0 -> 30 forward: no traversal.
        Turn {
            dir: Direction::Right,
            ticks: 30,
        },
        // 30 -> 29 forward, ten laps: 10 traversals.
        Turn {
            dir: Direction::Right,
            ticks: 999,
        },
    ];
    let outcome = run_simulation(&turns);
    assert_eq!(outcome.results.len(), 4);
    assert_eq!(outcome.results[0].dial, 0);
    assert_eq!(outcome.results[1].dial, 0);
    assert_eq!(outcome.results[2].dial, 30);
    assert_eq!(outcome.results[3].dial, 29);
    assert_eq!(outcome.final_dial, 29);
    assert_eq!(outcome.zeros_at_end_of_rotation, 2);
    assert_eq!(outcome.zeros_during_rotation, 1 + 1 + 0 + 10);
}

#[test]
fn dial_stays_in_range_over_a_long_run() {
    let mut turns = Vec::new();
    for i in 0..500u32 {
        turns.push(Turn {
            dir: if i % 2 == 0 {
                Direction::Right
            } else {
                Direction::Left
            },
            ticks: i.wrapping_mul(2654435761) % 100_000,
        });
    }
    let outcome = run_simulation(&turns);
    for r in &outcome.results {
        assert!((0..=99).contains(&r.dial));
    }
    assert!((0..=99).contains(&outcome.final_dial));
}
