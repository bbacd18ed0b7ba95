//! The parser: turning input lines into turn instructions.
//!
//! Each line is a single direction byte, `R` or `L`, immediately followed
//! by a non-negative decimal tick count with no separator, as in `R1000`.
//! An empty line, any other leading byte, a missing or non-numeric tail,
//! or a tick count that does not fit in 32 bits is a parse error, and the
//! first bad line stops the whole parse: no later line is looked at.

use crate::turn::{Direction, Turn};
use vstd::prelude::*;

verus! {

/// Why a line could not be parsed.
#[derive(Debug, Clone, Copy, PartialEq, Eq, Structural)]
pub enum ParseError {
    /// The line is empty.
    EmptyLine,
    /// The leading byte is neither `R` nor `L`.
    BadDirection,
    /// The tick count is missing, holds a non-digit byte, or does not fit
    /// in 32 bits.
    BadTicks,
}

/// Whether byte `b` is an ASCII decimal digit.
pub open spec fn is_ascii_digit(b: u8) -> bool {
    48 <= b <= 57
}

/// Whether every byte of `s` is an ASCII decimal digit.
pub open spec fn all_digits(s: Seq<u8>) -> bool {
    forall|i: int| 0 <= i < s.len() ==> is_ascii_digit(#[trigger] s[i])
}

/// The value of the decimal numeral written by the digit bytes of `s`,
/// most significant first.
pub open spec fn digits_value(s: Seq<u8>) -> int
    decreases s.len(),
{
    if s.len() == 0 {
        0
    } else {
        digits_value(s.drop_last()) * 10 + (s.last() - 48)
    }
}

/// What parsing one line yields: the turn it encodes, or the error that the
/// first offending byte produces. A line is well-formed exactly when it has
/// an `R` or `L` first, at least one byte after that, every later byte an
/// ASCII digit, and a digit value that fits in 32 bits.
pub open spec fn spec_parse_line(s: Seq<u8>) -> Result<Turn, ParseError> {
    if s.len() == 0 {
        Err(ParseError::EmptyLine)
    } else if s[0] != 82 && s[0] != 76 {
        Err(ParseError::BadDirection)
    } else if s.len() < 2 || !all_digits(s.subrange(1, s.len() as int)) || digits_value(
        s.subrange(1, s.len() as int),
    ) > u32::MAX {
        Err(ParseError::BadTicks)
    } else {
        Ok(
            Turn {
                dir: if s[0] == 82 {
                    Direction::Right
                } else {
                    Direction::Left
                },
                ticks: digits_value(s.subrange(1, s.len() as int)) as u32,
            },
        )
    }
}

/// A digit string's value never shrinks when the string is extended on the
/// right: every longer prefix of a digit string is worth at least as much.
pub proof fn lemma_digits_value_prefix_le(s: Seq<u8>, i: int)
    requires
        all_digits(s),
        0 <= i <= s.len(),
    ensures
        0 <= digits_value(s.subrange(0, i)) <= digits_value(s),
    decreases s.len() - i,
{
    if i == s.len() {
        assert(s.subrange(0, i) =~= s);
        lemma_digits_value_nonneg(s);
    } else {
        lemma_digits_value_prefix_le(s, i + 1);
        lemma_digits_value_nonneg(s.subrange(0, i));
        assert(s.subrange(0, i + 1).drop_last() =~= s.subrange(0, i));
        assert(s.subrange(0, i + 1).last() == s[i]);
    }
}

/// A digit string's value is never negative.
pub proof fn lemma_digits_value_nonneg(s: Seq<u8>)
    requires
        all_digits(s),
    ensures
        digits_value(s) >= 0,
    decreases s.len(),
{
    if s.len() > 0 {
        assert(all_digits(s.drop_last()));
        lemma_digits_value_nonneg(s.drop_last());
    }
}

/// Parses one input line.
///
/// Returns the turn the line encodes, or the parse error for the first
/// offending byte, exactly as `spec_parse_line` describes.
#[verifier::loop_isolation(false)]
pub fn parse_line(line: &Vec<u8>) -> (r: Result<Turn, ParseError>)
    ensures
        r == spec_parse_line(line@),
{
    if line.len() == 0 {
        return Err(ParseError::EmptyLine);
    }
    let first: u8 = line[0];
    let dir: Direction = if first == 82 {
        Direction::Right
    } else if first == 76 {
        Direction::Left
    } else {
        return Err(ParseError::BadDirection);
    };
    if line.len() == 1 {
        return Err(ParseError::BadTicks);
    }
    let ghost tail = line@.subrange(1, line@.len() as int);
    let mut ticks: u32 = 0;
    let mut idx: usize = 1;
    proof {
        assert(tail.subrange(0, 0) =~= Seq::<u8>::empty());
    }
    while idx < line.len()
        invariant
            1 <= idx <= line@.len(),
            2 <= line@.len(),
            tail == line@.subrange(1, line@.len() as int),
            all_digits(tail.subrange(0, idx - 1)),
            ticks == digits_value(tail.subrange(0, idx - 1)),
        decreases line@.len() - idx,
    {
        let b: u8 = line[idx];
        if b < 48 || b > 57 {
            // A non-digit byte anywhere in the tail spoils the whole line.
            assert(tail[idx - 1] == b);
            return Err(ParseError::BadTicks);
        }
        let ghost prefix = tail.subrange(0, idx - 1);
        let ghost extended = tail.subrange(0, idx as int);
        proof {
            assert(extended.drop_last() =~= prefix);
            assert(extended.last() == tail[idx - 1]);
        }
        let digit: u32 = (b - 48) as u32;
        let scaled: u32 = match ticks.checked_mul(10) {
            Some(v) => v,
            None => {
                proof {
                    lemma_overflow_spoils_line(line@, idx as int);
                }
                return Err(ParseError::BadTicks);
            },
        };
        ticks = match scaled.checked_add(digit) {
            Some(v) => v,
            None => {
                proof {
                    lemma_overflow_spoils_line(line@, idx as int);
                }
                return Err(ParseError::BadTicks);
            },
        };
        idx = idx + 1;
    }
    proof {
        assert(tail.subrange(0, idx - 1) =~= tail);
    }
    Ok(Turn { dir, ticks })
}

/// If the digit value accumulated through byte `idx` of a line already
/// exceeds `u32::MAX`, the line cannot parse: either a later byte is not a
/// digit, or the full tick value is at least as large and overflows too.
proof fn lemma_overflow_spoils_line(s: Seq<u8>, idx: int)
    requires
        2 <= s.len(),
        1 <= idx < s.len(),
        all_digits(s.subrange(1, s.len() as int).subrange(0, idx - 1)),
        is_ascii_digit(s[idx]),
        digits_value(s.subrange(1, s.len() as int).subrange(0, idx)) > u32::MAX,
    ensures
        s.len() < 2 || !all_digits(s.subrange(1, s.len() as int)) || digits_value(
            s.subrange(1, s.len() as int),
        ) > u32::MAX,
{
    let tail = s.subrange(1, s.len() as int);
    if all_digits(tail) {
        lemma_digits_value_prefix_le(tail, idx);
    }
}

/// Parses a whole input, one line per element, stopping at the first bad
/// line.
///
/// On success every line parsed, in order; on failure the returned error is
/// the one of the first line that does not parse, and no turn is returned.
pub fn parse_lines(lines: &Vec<Vec<u8>>) -> (r: Result<Vec<Turn>, ParseError>)
    ensures
        match r {
            Ok(turns) => {
                &&& turns@.len() == lines@.len()
                &&& forall|i: int|
                    0 <= i < lines@.len() ==> spec_parse_line(#[trigger] lines@[i]@) == Ok::<
                        Turn,
                        ParseError,
                    >(turns@[i])
            },
            Err(e) => exists|i: int|
                {
                    &&& 0 <= i < lines@.len()
                    &&& spec_parse_line(#[trigger] lines@[i]@) == Err::<Turn, ParseError>(e)
                    &&& forall|j: int| 0 <= j < i ==> spec_parse_line(#[trigger] lines@[j]@) is Ok
                },
        },
{
    let mut turns: Vec<Turn> = Vec::new();
    let mut idx: usize = 0;
    while idx < lines.len()
        invariant
            0 <= idx <= lines@.len(),
            turns@.len() == idx,
            forall|i: int|
                0 <= i < idx ==> spec_parse_line(#[trigger] lines@[i]@) == Ok::<Turn, ParseError>(
                    turns@[i],
                ),
        decreases lines@.len() - idx,
    {
        match parse_line(&lines[idx]) {
            Ok(turn) => {
                turns.push(turn);
            },
            Err(e) => {
                return Err(e);
            },
        }
        idx = idx + 1;
    }
    Ok(turns)
}

} // verus!
