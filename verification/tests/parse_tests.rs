//! Tests for the line parser.

use dial_sim::parse::{parse_line, parse_lines, ParseError};
use dial_sim::turn::{Direction, Turn};

fn bytes(s: &str) -> Vec<u8> {
    s.as_bytes().to_vec()
}

#[test]
fn parses_right_and_left_lines() {
    assert_eq!(
        parse_line(&bytes("R1000")),
        Ok(Turn {
            dir: Direction::Right,
            ticks: 1000,
        })
    );
    assert_eq!(
        parse_line(&bytes("L250")),
        Ok(Turn {
            dir: Direction::Left,
            ticks: 250,
        })
    );
    assert_eq!(
        parse_line(&bytes("L0")),
        Ok(Turn {
            dir: Direction::Left,
            ticks: 0,
        })
    );
}

#[test]
fn leading_zeros_are_plain_decimal() {
    assert_eq!(
        parse_line(&bytes("R007")),
        Ok(Turn {
            dir: Direction::Right,
            ticks: 7,
        })
    );
    assert_eq!(
        parse_line(&bytes("L00000000000000000001")),
        Ok(Turn {
            dir: Direction::Left,
            ticks: 1,
        })
    );
}

#[test]
fn empty_line_is_an_error() {
    assert_eq!(parse_line(&bytes("")), Err(ParseError::EmptyLine));
}

#[test]
fn unknown_direction_is_an_error() {
    assert_eq!(parse_line(&bytes("X10")), Err(ParseError::BadDirection));
    assert_eq!(parse_line(&bytes("r10")), Err(ParseError::BadDirection));
    assert_eq!(parse_line(&bytes("10R")), Err(ParseError::BadDirection));
}

#[test]
fn missing_or_bad_ticks_is_an_error() {
    assert_eq!(parse_line(&bytes("R")), Err(ParseError::BadTicks));
    assert_eq!(parse_line(&bytes("L")), Err(ParseError::BadTicks));
    assert_eq!(parse_line(&bytes("R12a3")), Err(ParseError::BadTicks));
    assert_eq!(parse_line(&bytes("R 10")), Err(ParseError::BadTicks));
    assert_eq!(parse_line(&bytes("L-5")), Err(ParseError::BadTicks));
    assert_eq!(parse_line(&bytes("R+5")), Err(ParseError::BadTicks));
}

#[test]
fn tick_count_must_fit_32_bits() {
    assert_eq!(
        parse_line(&bytes("R4294967295")),
        Ok(Turn {
            dir: Direction::Right,
            ticks: u32::MAX,
        })
    );
    assert_eq!(parse_line(&bytes("R4294967296")), Err(ParseError::BadTicks));
    assert_eq!(
        parse_line(&bytes("L99999999999999999999")),
        Err(ParseError::BadTicks)
    );
}

#[test]
fn parses_lines_in_order() {
    let lines = vec![bytes("R1000"), bytes("L250")];
    let turns = parse_lines(&lines).unwrap();
    assert_eq!(
        turns,
        vec![
            Turn {
                dir: Direction::Right,
                ticks: 1000,
            },
            Turn {
                dir: Direction::Left,
                ticks: 250,
            },
        ]
    );
    assert_eq!(parse_lines(&Vec::new()), Ok(Vec::new()));
}

#[test]
fn first_bad_line_stops_the_parse() {
    // The error reported is the first line's, whatever follows.
    let lines = vec![bytes("X10"), bytes("")];
    assert_eq!(parse_lines(&lines), Err(ParseError::BadDirection));

    let lines = vec![bytes("R5"), bytes(""), bytes("L1")];
    assert_eq!(parse_lines(&lines), Err(ParseError::EmptyLine));

    let lines = vec![bytes("R5"), bytes("L1"), bytes("R")];
    assert_eq!(parse_lines(&lines), Err(ParseError::BadTicks));
}
