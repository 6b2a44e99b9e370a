//! The parser: from the bytes of a literal to a `core::time::Duration`.
use vstd::prelude::*;

use core::time::Duration;
use vstd::string::StringSliceAdditionalSpecFns;

use crate::grammar::Error;
use crate::grammar::SPACE;
use crate::grammar::NINE;
use crate::grammar::ZERO;
use crate::grammar::digits_end;
use crate::grammar::digits_value;
use crate::grammar::is_digit_spec;
use crate::grammar::lemma_digits_run;
use crate::grammar::lemma_digits_value_prefix;
use crate::grammar::lemma_scans_advance;
use crate::grammar::max_duration_nanos;
use crate::grammar::parse_pairs;
use crate::grammar::skip_spaces;
use crate::grammar::spec_parse;
use crate::grammar::total_result;
use crate::grammar::unit_end;
use crate::units::is_unit_byte;
use crate::units::unit_nanos;
use crate::units::SECOND;

verus! {

/// What `core::time::Duration::new` returns for these seconds and nanoseconds.
pub uninterp spec fn duration_new_result(secs: u64, nanos: u32) -> Duration;

/// Calls `core::time::Duration::new(secs, nanos)`, which std documents as the duration of
/// `secs` whole seconds and `nanos` nanoseconds, carrying whole seconds out of `nanos`,
/// and as panicking when that carry overflows the seconds. The contract leaves out the
/// inputs that panic and names the result; it says nothing of the fields of the
/// `Duration`, which this library never reads back.
#[verifier::external_body]
fn new_duration(secs: u64, nanos: u32) -> (d: Duration)
    requires
        secs + nanos / 1_000_000_000 <= u64::MAX,
    ensures
        d == duration_new_result(secs, nanos),
{
    Duration::new(secs, nanos)
}

/// `a * b + c`, or `Error::Overflow` where that does not fit in 128 bits.
pub fn mul_add(a: u128, b: u128, c: u128) -> (r: Result<u128, Error>)
    ensures
        r == (if a * b + c > u128::MAX {
            Err(Error::Overflow)
        } else {
            Ok((a * b + c) as u128)
        }),
{
    match a.checked_mul(b) {
        Some(product) => match product.checked_add(c) {
            Some(sum) => Ok(sum),
            None => Err(Error::Overflow),
        },
        None => Err(Error::Overflow),
    }
}

/// The outcome of `spec_parse`, with a number of nanoseconds given as the `Duration` that
/// `Duration::new` makes of its whole seconds and the nanoseconds left over.
pub open spec fn duration_result(outcome: Result<int, Error>) -> Result<Duration, Error> {
    match outcome {
        Ok(n) => Ok(duration_new_result((n / 1_000_000_000) as u64, (n % 1_000_000_000) as u32)),
        Err(e) => Err(e),
    }
}

/// Parses the bytes of a literal into its number of nanoseconds.
pub fn parse_nanos(b: &[u8]) -> (r: Result<u128, Error>)
    ensures
        match r {
            Ok(n) => spec_parse(b@) == Ok::<int, Error>(n as int),
            Err(e) => spec_parse(b@) == Err::<int, Error>(e),
        },
{
    let mut nanos: u128 = 0;
    let mut i: usize = 0;
    let mut parts: usize = 0;
    while i < b.len()
        invariant_except_break
            i <= b@.len(),
            parts <= i,
            parts == 0 ==> i == 0 && nanos == 0,
            parts > 0 ==> spec_parse(b@) == parse_pairs(b@, i as int, nanos as int),
        ensures
            parts > 0 ==> spec_parse(b@) == total_result(nanos as int),
            parts == 0 ==> spec_parse(b@) == Err::<int, Error>(Error::Empty),
        decreases b@.len() - i,
    {
        let ghost start = i;
        proof {
            lemma_scans_advance(b@, start as int);
        }
        while i < b.len() && b[i] == SPACE
            invariant
                start <= i <= b@.len(),
                skip_spaces(b@, start as int) == skip_spaces(b@, i as int),
            decreases b@.len() - i,
        {
            i += 1;
        }
        if i == b.len() {
            break;
        }
        assert(spec_parse(b@) == parse_pairs(b@, start as int, nanos as int));
        let digits = i;
        let mut n: u128 = 0;
        proof {
            lemma_scans_advance(b@, digits as int);
            lemma_digits_run(b@, digits as int);
        }
        while i < b.len() && ZERO <= b[i] && b[i] <= NINE
            invariant
                digits <= i <= b@.len(),
                start <= digits,
                skip_spaces(b@, start as int) == digits,
                spec_parse(b@) == parse_pairs(b@, start as int, nanos as int),
                i <= digits_end(b@, digits as int),
                digits_end(b@, digits as int) == digits_end(b@, i as int),
                n == digits_value(b@.subrange(digits as int, i as int)),
                forall|j: int| digits <= j < digits_end(b@, digits as int) ==> is_digit_spec(#[trigger] b@[j]),
            decreases b@.len() - i,
        {
            let ghost before = b@.subrange(digits as int, i as int);
            proof {
                lemma_scans_advance(b@, i + 1);
                assert(b@.subrange(digits as int, i + 1).drop_last() =~= before);
            }
            n = match mul_add(n, 10, (b[i] - ZERO) as u128) {
                Ok(n) => n,
                Err(e) => {
                    proof {
                        let d = digits_end(b@, digits as int);
                        let run = b@.subrange(digits as int, d);
                        lemma_digits_value_prefix(run, i + 1 - digits);
                        assert(run.subrange(0, i + 1 - digits) =~= b@.subrange(digits as int, i + 1));
                    }
                    return Err(e);
                },
            };
            i += 1;
        }
        if i == digits {
            return Err(Error::ExpectedNumber);
        }
        let ghost after_digits = i;
        proof {
            lemma_scans_advance(b@, i as int);
        }
        while i < b.len() && b[i] == SPACE
            invariant
                after_digits <= i <= b@.len(),
                skip_spaces(b@, after_digits as int) == skip_spaces(b@, i as int),
            decreases b@.len() - i,
        {
            i += 1;
        }
        let unit = i;
        proof {
            lemma_scans_advance(b@, unit as int);
        }
        while i < b.len() && is_unit_byte(b[i])
            invariant
                unit <= i <= b@.len(),
                unit_end(b@, unit as int) == unit_end(b@, i as int),
            decreases b@.len() - i,
        {
            i += 1;
        }
        if i == unit {
            return Err(Error::ExpectedUnit);
        }
        let per = match unit_nanos(b, unit, i) {
            Ok(per) => per,
            Err(e) => return Err(e),
        };
        nanos = match mul_add(n, per as u128, nanos) {
            Ok(nanos) => nanos,
            Err(e) => return Err(e),
        };
        parts += 1;
    }
    if parts == 0 {
        return Err(Error::Empty);
    }
    let secs = nanos / SECOND as u128;
    proof {
        lemma_seconds_fit(nanos as int);
    }
    if secs > u64::MAX as u128 {
        return Err(Error::Overflow);
    }
    Ok(nanos)
}

/// Whether `d` is the `Duration` that `Duration::new` makes of some whole seconds and
/// fewer than 10^9 nanoseconds that together make `total` nanoseconds.
pub open spec fn holds_total(d: Duration, total: int) -> bool {
    exists|secs: u64, nanos: u32|
        {
            &&& d == #[trigger] duration_new_result(secs, nanos)
            &&& secs * 1_000_000_000 + nanos == total
            &&& nanos < 1_000_000_000
        }
}

/// Parses the bytes of a literal into a `Duration`.
pub fn try_parse(b: &[u8]) -> (r: Result<Duration, Error>)
    ensures
        r == duration_result(spec_parse(b@)),
        r is Ok <==> spec_parse(b@) is Ok,
        r matches Ok(d) ==> holds_total(d, spec_parse(b@)->Ok_0),
        r matches Err(e) ==> spec_parse(b@) == Err::<int, Error>(e),
{
    match parse_nanos(b) {
        Ok(nanos) => {
            proof {
                lemma_seconds_fit(nanos as int);
                law_duration_holds_total(b@);
            }
            let secs = nanos / SECOND as u128;
            Ok(new_duration(secs as u64, (nanos % SECOND as u128) as u32))
        },
        Err(e) => Err(e),
    }
}

/// The `Duration` that the literal `s` stands for.
///
/// A literal that is refused is left out by `requires`; `try_parse` reports it as an
/// `Error` instead. Called from unchecked code on such a literal, this function panics
/// with the error's message.
pub fn parse_duration(s: &str) -> (d: Duration)
    requires
        spec_parse(s.spec_bytes()) is Ok,
    ensures
        Ok::<Duration, Error>(d) == duration_result(spec_parse(s.spec_bytes())),
        holds_total(d, spec_parse(s.spec_bytes())->Ok_0),
{
    let r = try_parse(s.as_bytes());
    let message = match r {
        Ok(_) => "",
        Err(e) => e.message(),
    };
    r.ok().expect(message)
}

/// The `Duration` given for an accepted literal holds exactly its total: it is what
/// `Duration::new` makes of whole seconds and fewer than 10^9 nanoseconds that together
/// make the literal's number of nanoseconds.
pub proof fn law_duration_holds_total(b: Seq<u8>)
    requires
        spec_parse(b) is Ok,
    ensures
        duration_result(spec_parse(b)) matches Ok(d) && holds_total(d, spec_parse(b)->Ok_0),
{
    let n = spec_parse(b)->Ok_0;
    crate::laws::law_within_duration(b);
    lemma_seconds_fit(n);
    let secs = (n / 1_000_000_000) as u64;
    let nanos = (n % 1_000_000_000) as u32;
    assert(secs * 1_000_000_000 + nanos == n);
    let d = duration_new_result(secs, nanos);
    assert(duration_result(spec_parse(b)) == Ok::<Duration, Error>(d));
}

/// A number of nanoseconds fits in a `Duration` exactly when its whole seconds fit in a
/// `u64`.
proof fn lemma_seconds_fit(n: int)
    requires
        n >= 0,
    ensures
        n / 1_000_000_000 > u64::MAX <==> n > max_duration_nanos(),
{
}

} // verus!
