//! The grammar of a duration literal, stated over its bytes.
//!
//! A literal is one or more pairs of an integer and a unit, such as `9 hrs` or `250ms`.
//! Spaces (U+0020 only) may appear before, between and after the pairs and between a
//! number and its unit. Repeated units add up. The value is a number of nanoseconds, and
//! a literal is refused where that number exceeds the largest `Duration`.
use vstd::prelude::*;

use crate::units::unit_value;
use crate::units::is_unit_byte_spec;

verus! {

/// Why a literal is refused.
#[derive(Debug, Clone, Copy, PartialEq, Eq, Structural)]
pub enum Error {
    /// The literal holds no pair: it is empty or only spaces.
    Empty,
    /// A pair does not start with a digit.
    ExpectedNumber,
    /// A number is not followed by a unit.
    ExpectedUnit,
    /// A unit is not one of the spellings of the table.
    UnknownUnit,
    /// A number, or the total, is larger than the parser can hold.
    Overflow,
}

impl Error {
    /// The message with which a refused literal is reported.
    pub fn message(self) -> (r: &'static str)
        ensures
            r@ == (match self {
                Error::Empty => "empty duration"@,
                Error::ExpectedNumber => "expected a number"@,
                Error::ExpectedUnit => "expected a unit"@,
                Error::UnknownUnit => "unknown duration unit"@,
                Error::Overflow => "duration exceeds Duration::MAX"@,
            }),
    {
        match self {
            Error::Empty => "empty duration",
            Error::ExpectedNumber => "expected a number",
            Error::ExpectedUnit => "expected a unit",
            Error::UnknownUnit => "unknown duration unit",
            Error::Overflow => "duration exceeds Duration::MAX",
        }
    }
}

/// The byte of a space, U+0020.
pub const SPACE: u8 = 32;

/// The byte of the digit zero.
pub const ZERO: u8 = 48;

/// The byte of the digit nine.
pub const NINE: u8 = 57;

/// The largest number of nanoseconds that a `Duration` holds: `u64::MAX` seconds and
/// 999 999 999 nanoseconds.
pub open spec fn max_duration_nanos() -> int {
    u64::MAX as int * 1_000_000_000 + 999_999_999
}

/// Whether `byte` is an ASCII digit.
pub open spec fn is_digit_spec(byte: u8) -> bool {
    ZERO <= byte <= NINE
}

/// The first index at or after `i` whose byte is not a space (or the length of `b`).
pub open spec fn skip_spaces(b: Seq<u8>, i: int) -> int
    decreases b.len() - i,
{
    if 0 <= i < b.len() && b[i] == SPACE {
        skip_spaces(b, i + 1)
    } else {
        i
    }
}

/// The first index at or after `i` whose byte is not a digit (or the length of `b`).
pub open spec fn digits_end(b: Seq<u8>, i: int) -> int
    decreases b.len() - i,
{
    if 0 <= i < b.len() && is_digit_spec(b[i]) {
        digits_end(b, i + 1)
    } else {
        i
    }
}

/// The first index at or after `i` whose byte cannot belong to a unit (or the length of
/// `b`).
pub open spec fn unit_end(b: Seq<u8>, i: int) -> int
    decreases b.len() - i,
{
    if 0 <= i < b.len() && is_unit_byte_spec(b[i]) {
        unit_end(b, i + 1)
    } else {
        i
    }
}

/// The value of a run of decimal digits, read most significant first.
pub open spec fn digits_value(s: Seq<u8>) -> int
    decreases s.len(),
{
    if s.len() == 0 {
        0
    } else {
        digits_value(s.drop_last()) * 10 + (s.last() - ZERO)
    }
}

/// The outcome for a literal whose pairs add up to `total` nanoseconds.
pub open spec fn total_result(total: int) -> Result<int, Error> {
    if total > max_duration_nanos() {
        Err(Error::Overflow)
    } else {
        Ok(total)
    }
}

/// Each scan stops at or after where it starts, and within the bytes.
pub proof fn lemma_scans_advance(b: Seq<u8>, i: int)
    requires
        0 <= i <= b.len(),
    ensures
        i <= skip_spaces(b, i) <= b.len(),
        i <= digits_end(b, i) <= b.len(),
        i <= unit_end(b, i) <= b.len(),
    decreases b.len() - i,
{
    if i < b.len() {
        lemma_scans_advance(b, i + 1);
    }
}

/// Every byte from `i` up to `digits_end(b, i)` is a digit.
pub proof fn lemma_digits_run(b: Seq<u8>, i: int)
    requires
        0 <= i <= b.len(),
    ensures
        forall|j: int| i <= j < digits_end(b, i) ==> is_digit_spec(#[trigger] b[j]),
    decreases b.len() - i,
{
    if i < b.len() && is_digit_spec(b[i]) {
        lemma_digits_run(b, i + 1);
    }
}

/// The value of a run of digits is at least that of each of its prefixes, and is not
/// negative.
pub proof fn lemma_digits_value_prefix(s: Seq<u8>, k: int)
    requires
        0 <= k <= s.len(),
        forall|j: int| 0 <= j < s.len() ==> is_digit_spec(#[trigger] s[j]),
    ensures
        0 <= digits_value(s.subrange(0, k)) <= digits_value(s),
    decreases s.len(),
{
    if s.len() > 0 {
        let t = s.drop_last();
        if k == s.len() {
            assert(s.subrange(0, k) =~= s);
            lemma_digits_value_prefix(t, t.len() as int);
            assert(t.subrange(0, t.len() as int) =~= t);
        } else {
            lemma_digits_value_prefix(t, k);
            assert(t.subrange(0, k) =~= s.subrange(0, k));
            lemma_digits_value_prefix(t, t.len() as int);
            assert(t.subrange(0, t.len() as int) =~= t);
        }
    } else {
        assert(s.subrange(0, k) =~= s);
    }
}

/// The pairs of `b` from index `i` on, added to `acc` nanoseconds already read.
///
/// Each pair is: spaces, a run of digits, spaces, a run of unit bytes that spells a unit
/// of the table. The number is held in 128 bits and so is the running total: a number
/// or a running total past `u128::MAX` is refused as soon as it is read. Once the bytes
/// are used up, the total is checked against the largest `Duration`. (A start outside
/// the bytes is never asked for.)
pub open spec fn parse_pairs(b: Seq<u8>, i: int, acc: int) -> Result<int, Error>
    decreases b.len() - i,
{
    if i < 0 || i > b.len() {
        Err(Error::Empty)
    } else {
        proof {
            lemma_scans_advance(b, i);
        }
        let p = skip_spaces(b, i);
        if p == b.len() {
            total_result(acc)
        } else {
            let d = digits_end(b, p);
            if d == p {
                Err(Error::ExpectedNumber)
            } else {
                let n = digits_value(b.subrange(p, d));
                if n > u128::MAX {
                    Err(Error::Overflow)
                } else {
                    proof {
                        lemma_scans_advance(b, p);
                        lemma_scans_advance(b, d);
                    }
                    let u = skip_spaces(b, d);
                    proof {
                        lemma_scans_advance(b, u);
                    }
                    let e = unit_end(b, u);
                    if e == u {
                        Err(Error::ExpectedUnit)
                    } else {
                        match unit_value(b.subrange(u, e)) {
                            None => Err(Error::UnknownUnit),
                            Some(per) => if acc + n * per > u128::MAX {
                                Err(Error::Overflow)
                            } else {
                                parse_pairs(b, e, acc + n * per)
                            },
                        }
                    }
                }
            }
        }
    }
}

/// What a literal, given as its UTF-8 bytes, means: its number of nanoseconds, or why it
/// is refused.
pub open spec fn spec_parse(b: Seq<u8>) -> Result<int, Error> {
    if skip_spaces(b, 0) == b.len() {
        Err(Error::Empty)
    } else {
        parse_pairs(b, 0, 0)
    }
}

} // verus!
