//! What holds of every literal.
use vstd::prelude::*;

use crate::grammar::Error;
use crate::grammar::SPACE;
use crate::grammar::ZERO;
use crate::grammar::digits_end;
use crate::grammar::digits_value;
use crate::grammar::is_digit_spec;
use crate::grammar::lemma_digits_run;
use crate::grammar::lemma_digits_value_prefix;
use crate::grammar::lemma_scans_advance;
use crate::grammar::max_duration_nanos;
use crate::grammar::parse_pairs;
use crate::grammar::skip_spaces;
use crate::grammar::spec_parse;
use crate::grammar::total_result;
use crate::grammar::unit_end;
use crate::units::DAY;
use crate::units::HOUR;
use crate::units::MICROSECOND;
use crate::units::MILLISECOND;
use crate::units::MINUTE;
use crate::units::MONTH;
use crate::units::NANOSECOND;
use crate::units::SECOND;
use crate::units::WEEK;
use crate::units::YEAR;
use crate::units::is_unit_byte_spec;
use crate::units::lemma_known_spelling;
use crate::units::unit_value;

verus! {

/// Scanning after a prefix is scanning without it, moved by the prefix's length.
pub(crate) proof fn lemma_shift_scans(pre: Seq<u8>, x: Seq<u8>, i: int)
    requires
        0 <= i <= x.len(),
    ensures
        skip_spaces(pre + x, pre.len() + i) == pre.len() + skip_spaces(x, i),
        digits_end(pre + x, pre.len() + i) == pre.len() + digits_end(x, i),
        unit_end(pre + x, pre.len() + i) == pre.len() + unit_end(x, i),
    decreases x.len() - i,
{
    let y = pre + x;
    if i < x.len() {
        assert(y[pre.len() + i] == x[i]);
        lemma_shift_scans(pre, x, i + 1);
    }
}

/// The pairs after a prefix read as they do without it.
proof fn lemma_shift_parse(pre: Seq<u8>, x: Seq<u8>, i: int, acc: int)
    requires
        0 <= i <= x.len(),
    ensures
        parse_pairs(pre + x, pre.len() + i, acc) == parse_pairs(x, i, acc),
    decreases x.len() - i,
{
    let y = pre + x;
    let o = pre.len() as int;
    lemma_scans_advance(x, i);
    lemma_shift_scans(pre, x, i);
    let p = skip_spaces(x, i);
    if p < x.len() {
        lemma_scans_advance(x, p);
        lemma_shift_scans(pre, x, p);
        let d = digits_end(x, p);
        assert(y.subrange(o + p, o + d) =~= x.subrange(p, d));
        lemma_scans_advance(x, d);
        lemma_shift_scans(pre, x, d);
        let u = skip_spaces(x, d);
        lemma_scans_advance(x, u);
        lemma_shift_scans(pre, x, u);
        let e = unit_end(x, u);
        assert(y.subrange(o + u, o + e) =~= x.subrange(u, e));
        if d > p && u < e {
            let n = digits_value(x.subrange(p, d));
            match unit_value(x.subrange(u, e)) {
                Some(per) => {
                    lemma_shift_parse(pre, x, e, acc + n * per);
                },
                None => {},
            }
        }
    }
}

/// Two starting points from which the same first non-space byte is reached read the
/// same pairs.
proof fn lemma_same_start(b: Seq<u8>, i: int, j: int, acc: int)
    requires
        0 <= i <= b.len(),
        0 <= j <= b.len(),
        skip_spaces(b, i) == skip_spaces(b, j),
    ensures
        parse_pairs(b, i, acc) == parse_pairs(b, j, acc),
{
}

/// Spaces before a literal do not change what it means.
pub proof fn law_leading_space(x: Seq<u8>)
    ensures
        spec_parse(seq![SPACE] + x) == spec_parse(x),
{
    let pre = seq![SPACE];
    let y = pre + x;
    lemma_shift_scans(pre, x, 0);
    lemma_shift_parse(pre, x, 0, 0);
    assert(y[0] == SPACE);
    assert(skip_spaces(y, 0) == skip_spaces(y, 1));
    lemma_scans_advance(y, 1);
    lemma_same_start(y, 0, 1, 0);
}

/// Whether every byte of `s` is a space.
pub open spec fn all_spaces(s: Seq<u8>) -> bool {
    forall|j: int| 0 <= j < s.len() ==> #[trigger] s[j] == SPACE
}

/// From inside a run of spaces that ends the bytes, skipping spaces reaches the end.
proof fn lemma_skip_trailing(b: Seq<u8>, i: int)
    requires
        0 <= i <= b.len(),
        forall|j: int| i <= j < b.len() ==> #[trigger] b[j] == SPACE,
    ensures
        skip_spaces(b, i) == b.len(),
    decreases b.len() - i,
{
    if i < b.len() {
        lemma_skip_trailing(b, i + 1);
    }
}

/// Scanning within `x` is unchanged by bytes after it that start with a space, except
/// that a run of spaces reaching the end of `x` goes on into them.
proof fn lemma_suffix_scans(x: Seq<u8>, s: Seq<u8>, i: int)
    requires
        0 <= i <= x.len(),
        s.len() > 0 ==> s[0] == SPACE,
    ensures
        digits_end(x + s, i) == digits_end(x, i),
        unit_end(x + s, i) == unit_end(x, i),
        skip_spaces(x + s, i) == (if skip_spaces(x, i) < x.len() {
            skip_spaces(x, i)
        } else {
            skip_spaces(x + s, x.len() as int)
        }),
    decreases x.len() - i,
{
    let y = x + s;
    if i < x.len() {
        assert(y[i] == x[i]);
        lemma_suffix_scans(x, s, i + 1);
    } else if s.len() > 0 {
        assert(y[i] == s[0]);
    }
}

/// The pairs within `x` read the same with spaces after `x`.
proof fn lemma_suffix_parse(x: Seq<u8>, s: Seq<u8>, i: int, acc: int)
    requires
        0 <= i <= x.len(),
        all_spaces(s),
    ensures
        parse_pairs(x + s, i, acc) == parse_pairs(x, i, acc),
    decreases x.len() - i,
{
    let y = x + s;
    assert forall|j: int| x.len() <= j < y.len() implies #[trigger] y[j] == SPACE by {
        assert(y[j] == s[j - x.len()]);
    }
    lemma_skip_trailing(y, x.len() as int);
    lemma_scans_advance(x, i);
    lemma_suffix_scans(x, s, i);
    let p = skip_spaces(x, i);
    if p < x.len() {
        lemma_scans_advance(x, p);
        lemma_suffix_scans(x, s, p);
        let d = digits_end(x, p);
        assert(y.subrange(p, d) =~= x.subrange(p, d));
        lemma_scans_advance(x, d);
        lemma_suffix_scans(x, s, d);
        let u = skip_spaces(x, d);
        lemma_scans_advance(x, u);
        lemma_suffix_scans(x, s, u);
        if u < x.len() {
            let e = unit_end(x, u);
            assert(y.subrange(u, e) =~= x.subrange(u, e));
            if d > p && u < e {
                let n = digits_value(x.subrange(p, d));
                match unit_value(x.subrange(u, e)) {
                    Some(per) => {
                        lemma_suffix_parse(x, s, e, acc + n * per);
                    },
                    None => {},
                }
            }
        } else {
            lemma_scans_advance(y, y.len() as int);
        }
    } else {
        lemma_scans_advance(y, i);
    }
}

/// Spaces after a literal do not change what it means.
pub proof fn law_trailing_space(x: Seq<u8>)
    ensures
        spec_parse(x + seq![SPACE]) == spec_parse(x),
{
    let s = seq![SPACE];
    let y = x + s;
    assert(all_spaces(s));
    assert(y[x.len() as int] == SPACE);
    lemma_skip_trailing(y, x.len() as int);
    lemma_suffix_scans(x, s, 0);
    lemma_suffix_parse(x, s, 0, 0);
}

/// Pairs that read to the end of `x` read the same when a space and more bytes follow,
/// and leave the reading at the end of `x` with their total.
proof fn lemma_continue_past(x: Seq<u8>, w: Seq<u8>, i: int, acc: int, t: int)
    requires
        0 <= i <= x.len(),
        w.len() > 0,
        w[0] == SPACE,
        parse_pairs(x, i, acc) == Ok::<int, Error>(t),
    ensures
        parse_pairs(x + w, i, acc) == parse_pairs(x + w, x.len() as int, t),
    decreases x.len() - i,
{
    let y = x + w;
    lemma_scans_advance(x, i);
    lemma_suffix_scans(x, w, i);
    lemma_scans_advance(y, x.len() as int);
    let p = skip_spaces(x, i);
    if p < x.len() {
        lemma_scans_advance(x, p);
        lemma_suffix_scans(x, w, p);
        let d = digits_end(x, p);
        assert(y.subrange(p, d) =~= x.subrange(p, d));
        lemma_scans_advance(x, d);
        lemma_suffix_scans(x, w, d);
        let u = skip_spaces(x, d);
        lemma_scans_advance(x, u);
        lemma_suffix_scans(x, w, u);
        let e = unit_end(x, u);
        assert(y.subrange(u, e) =~= x.subrange(u, e));
        let n = digits_value(x.subrange(p, d));
        let per = unit_value(x.subrange(u, e))->Some_0;
        lemma_continue_past(x, w, e, acc + n * per, t);
    } else {
        lemma_same_start(y, i, x.len() as int, acc);
    }
}

/// The value of the run of digits starting at `p` is not negative.
proof fn lemma_run_value_nonneg(b: Seq<u8>, p: int)
    requires
        0 <= p <= b.len(),
    ensures
        0 <= digits_value(b.subrange(p, digits_end(b, p))),
{
    lemma_scans_advance(b, p);
    lemma_digits_run(b, p);
    let run = b.subrange(p, digits_end(b, p));
    lemma_digits_value_prefix(run, run.len() as int);
}

/// Reading pairs from a larger running total gives the larger total, or refuses it where
/// it is too large. The running total never decreases.
proof fn lemma_offset_total(z: Seq<u8>, j: int, acc: int, t: int, c: int)
    requires
        0 <= j <= z.len(),
        0 <= acc,
        0 <= t,
        parse_pairs(z, j, acc) == Ok::<int, Error>(c),
    ensures
        acc <= c,
        parse_pairs(z, j, acc + t) == total_result(c + t),
    decreases z.len() - j,
{
    lemma_scans_advance(z, j);
    let p = skip_spaces(z, j);
    if p < z.len() {
        lemma_scans_advance(z, p);
        let d = digits_end(z, p);
        lemma_scans_advance(z, d);
        let u = skip_spaces(z, d);
        lemma_scans_advance(z, u);
        let e = unit_end(z, u);
        let n = digits_value(z.subrange(p, d));
        let per = unit_value(z.subrange(u, e))->Some_0;
        lemma_run_value_nonneg(z, p);
        assert(n * per >= 0) by (nonlinear_arith)
            requires
                n >= 0,
                per >= 0,
        ;
        lemma_offset_total(z, e, acc + n * per, t, c);
    }
}

/// Two literals written one after the other, with a space between, mean the sum of what
/// each means, or are refused as too large where that sum exceeds the largest
/// `Duration`.
pub proof fn law_concatenation(x: Seq<u8>, z: Seq<u8>)
    requires
        spec_parse(x) is Ok,
        spec_parse(z) is Ok,
    ensures
        spec_parse(x + seq![SPACE] + z) == total_result(
            spec_parse(x)->Ok_0 + spec_parse(z)->Ok_0,
        ),
{
    let a = spec_parse(x)->Ok_0;
    let c = spec_parse(z)->Ok_0;
    let pre = x + seq![SPACE];
    let w = seq![SPACE] + z;
    let y = x + seq![SPACE] + z;
    assert(y =~= x + w);
    assert(y =~= pre + z);
    lemma_suffix_scans(x, w, 0);
    lemma_continue_past(x, w, 0, 0, a);
    lemma_offset_total(x, 0, 0, 0, a);
    assert(y[x.len() as int] == SPACE);
    lemma_scans_advance(y, x.len() + 1int);
    lemma_same_start(y, x.len() as int, x.len() + 1int, a);
    lemma_shift_parse(pre, z, 0, a);
    lemma_offset_total(z, 0, 0, a, c);
}

/// The order of two literals written one after the other does not matter.
pub proof fn law_order_irrelevant(x: Seq<u8>, z: Seq<u8>)
    requires
        spec_parse(x) is Ok,
        spec_parse(z) is Ok,
    ensures
        spec_parse(x + seq![SPACE] + z) == spec_parse(z + seq![SPACE] + x),
{
    law_concatenation(x, z);
    law_concatenation(z, x);
}

/// A run of spaces from `i` up to `k` that stops there ends where scanning for spaces
/// from `i` does.
proof fn lemma_space_run(b: Seq<u8>, i: int, k: int)
    requires
        0 <= i <= k <= b.len(),
        forall|j: int| i <= j < k ==> #[trigger] b[j] == SPACE,
        k < b.len() ==> b[k] != SPACE,
    ensures
        skip_spaces(b, i) == k,
    decreases k - i,
{
    if i < k {
        lemma_space_run(b, i + 1, k);
    }
}

/// A run of digits from `i` up to `k` that stops there ends where scanning for digits
/// from `i` does.
proof fn lemma_digit_run(b: Seq<u8>, i: int, k: int)
    requires
        0 <= i <= k <= b.len(),
        forall|j: int| i <= j < k ==> is_digit_spec(#[trigger] b[j]),
        k < b.len() ==> !is_digit_spec(b[k]),
    ensures
        digits_end(b, i) == k,
    decreases k - i,
{
    if i < k {
        lemma_digit_run(b, i + 1, k);
    }
}

/// One pair, a number and a unit of the table with any spaces between them, means the
/// number times the unit, or is refused as too large where that exceeds the largest
/// `Duration`.
pub proof fn law_single_pair(digits: Seq<u8>, spaces: Seq<u8>, unit: Seq<u8>)
    requires
        digits.len() > 0,
        forall|j: int| 0 <= j < digits.len() ==> is_digit_spec(#[trigger] digits[j]),
        all_spaces(spaces),
        unit_value(unit) is Some,
    ensures
        spec_parse(digits + spaces + unit) == total_result(
            digits_value(digits) * unit_value(unit)->Some_0,
        ),
{
    let p = (digits, spaces, unit);
    let pairs = seq![p];
    assert(is_pair(pairs[0]));
    law_literal_of_pairs(pairs);
    assert(literal_of(pairs) == pair_bytes(p));
    assert(sum_of(pairs.drop_first()) == 0);
}

/// Reading pairs never ends in `Error::Empty`, and ends in `Ok` only where every byte
/// from `i` on is a space, a digit or a unit byte.
proof fn lemma_pairs_shape(b: Seq<u8>, i: int, acc: int)
    requires
        0 <= i <= b.len(),
    ensures
        parse_pairs(b, i, acc) != Err::<int, Error>(Error::Empty),
        parse_pairs(b, i, acc) is Ok ==> forall|j: int|
            i <= j < b.len() ==> #[trigger] b[j] == SPACE || is_digit_spec(b[j])
                || is_unit_byte_spec(b[j]),
    decreases b.len() - i,
{
    lemma_scans_advance(b, i);
    let p = skip_spaces(b, i);
    lemma_space_stop(b, i);
    if p < b.len() {
        lemma_scans_advance(b, p);
        let d = digits_end(b, p);
        lemma_digits_run(b, p);
        lemma_scans_advance(b, d);
        let u = skip_spaces(b, d);
        lemma_space_stop(b, d);
        lemma_scans_advance(b, u);
        let e = unit_end(b, u);
        lemma_unit_stop(b, u);
        let n = digits_value(b.subrange(p, d));
        if d > p && u < e {
            match unit_value(b.subrange(u, e)) {
                Some(per) => {
                    lemma_pairs_shape(b, e, acc + n * per);
                },
                None => {},
            }
        }
    }
}

/// Every byte that scanning for spaces passes over is a space.
proof fn lemma_space_stop(b: Seq<u8>, i: int)
    requires
        0 <= i <= b.len(),
    ensures
        forall|j: int| i <= j < skip_spaces(b, i) ==> #[trigger] b[j] == SPACE,
    decreases b.len() - i,
{
    if i < b.len() && b[i] == SPACE {
        lemma_space_stop(b, i + 1);
    }
}

/// Every byte that scanning for a unit passes over is a unit byte.
pub(crate) proof fn lemma_unit_stop(b: Seq<u8>, i: int)
    requires
        0 <= i <= b.len(),
    ensures
        forall|j: int| i <= j < unit_end(b, i) ==> is_unit_byte_spec(#[trigger] b[j]),
    decreases b.len() - i,
{
    if i < b.len() && is_unit_byte_spec(b[i]) {
        lemma_unit_stop(b, i + 1);
    }
}

/// A literal is refused as empty exactly when it is nothing but spaces.
pub proof fn law_empty(b: Seq<u8>)
    ensures
        spec_parse(b) == Err::<int, Error>(Error::Empty) <==> all_spaces(b),
{
    lemma_space_stop(b, 0);
    lemma_scans_advance(b, 0);
    lemma_pairs_shape(b, 0, 0);
    if all_spaces(b) {
        lemma_skip_trailing(b, 0);
    }
}

/// A literal that is accepted holds nothing but spaces, digits and unit bytes: any other
/// byte (a sign, a point, a comma, a tab) makes it refused.
pub proof fn law_accepted_bytes(b: Seq<u8>)
    requires
        spec_parse(b) is Ok,
    ensures
        forall|j: int|
            0 <= j < b.len() ==> #[trigger] b[j] == SPACE || is_digit_spec(b[j])
                || is_unit_byte_spec(b[j]),
{
    lemma_pairs_shape(b, 0, 0);
}

/// What a literal that is accepted means lies between zero and the largest `Duration`.
pub proof fn law_within_duration(b: Seq<u8>)
    requires
        spec_parse(b) is Ok,
    ensures
        0 <= spec_parse(b)->Ok_0 <= max_duration_nanos(),
{
    lemma_offset_total(b, 0, 0, 0, spec_parse(b)->Ok_0);
}

/// Twelve months make exactly one year, a year is 31 556 952 seconds, and the fixed units
/// are the multiples that their names say.
pub proof fn law_unit_lengths()
    ensures
        MICROSECOND == 1_000 * NANOSECOND,
        MILLISECOND == 1_000 * MICROSECOND,
        SECOND == 1_000_000_000 * NANOSECOND,
        MINUTE == 60 * SECOND,
        HOUR == 60 * MINUTE,
        DAY == 24 * HOUR,
        WEEK == 7 * DAY,
        YEAR == 31_556_952 * SECOND,
        MONTH == 2_629_746 * SECOND,
        12 * MONTH == YEAR,
{
    assert(DAY == 86_400_000_000_000);
    assert(YEAR == 31_556_952_000_000_000) by (nonlinear_arith)
        requires
            YEAR == (400 * 365 + 97) * DAY / 400,
            DAY == 86_400_000_000_000,
    ;
    assert(MONTH == 2_629_746_000_000_000) by (nonlinear_arith)
        requires
            MONTH == YEAR / 12,
            YEAR == 31_556_952_000_000_000,
    ;
}

/// Scanning within `x` is unchanged by bytes after it that start with a digit, except
/// that a run of digits reaching the end of `x` goes on into them.
proof fn lemma_digit_suffix_scans(x: Seq<u8>, w: Seq<u8>, i: int)
    requires
        0 <= i <= x.len(),
        w.len() > 0,
        is_digit_spec(w[0]),
    ensures
        skip_spaces(x + w, i) == skip_spaces(x, i),
        unit_end(x + w, i) == unit_end(x, i),
        digits_end(x, i) < x.len() ==> digits_end(x + w, i) == digits_end(x, i),
    decreases x.len() - i,
{
    let y = x + w;
    if i < x.len() {
        assert(y[i] == x[i]);
        lemma_digit_suffix_scans(x, w, i + 1);
    } else {
        assert(y[i] == w[0]);
    }
}

/// Pairs that read to the end of `x` read the same when bytes starting with a digit
/// follow, and leave the reading at the end of `x` with their total.
proof fn lemma_continue_adjacent(x: Seq<u8>, w: Seq<u8>, i: int, acc: int, t: int)
    requires
        0 <= i <= x.len(),
        w.len() > 0,
        is_digit_spec(w[0]),
        parse_pairs(x, i, acc) == Ok::<int, Error>(t),
    ensures
        parse_pairs(x + w, i, acc) == parse_pairs(x + w, x.len() as int, t),
    decreases x.len() - i,
{
    let y = x + w;
    lemma_scans_advance(x, i);
    lemma_digit_suffix_scans(x, w, i);
    lemma_scans_advance(y, x.len() as int);
    let p = skip_spaces(x, i);
    if p < x.len() {
        lemma_scans_advance(x, p);
        lemma_digit_suffix_scans(x, w, p);
        let d = digits_end(x, p);
        lemma_scans_advance(x, d);
        lemma_digit_suffix_scans(x, w, d);
        let u = skip_spaces(x, d);
        lemma_scans_advance(x, u);
        lemma_digit_suffix_scans(x, w, u);
        let e = unit_end(x, u);
        assert(d < x.len());
        assert(y.subrange(p, d) =~= x.subrange(p, d));
        assert(y.subrange(u, e) =~= x.subrange(u, e));
        let n = digits_value(x.subrange(p, d));
        let per = unit_value(x.subrange(u, e))->Some_0;
        lemma_continue_adjacent(x, w, e, acc + n * per, t);
    } else {
        lemma_same_start(y, i, x.len() as int, acc);
    }
}

/// Two literals written one right after the other, the second starting with its number,
/// mean the sum of what each means, as with a space between them: spaces between pairs
/// are optional.
pub proof fn law_adjacent(x: Seq<u8>, z: Seq<u8>)
    requires
        spec_parse(x) is Ok,
        spec_parse(z) is Ok,
        z.len() > 0,
        is_digit_spec(z[0]),
    ensures
        spec_parse(x + z) == total_result(spec_parse(x)->Ok_0 + spec_parse(z)->Ok_0),
        spec_parse(x + z) == spec_parse(x + seq![SPACE] + z),
{
    let a = spec_parse(x)->Ok_0;
    let c = spec_parse(z)->Ok_0;
    let y = x + z;
    lemma_digit_suffix_scans(x, z, 0);
    lemma_continue_adjacent(x, z, 0, 0, a);
    lemma_offset_total(x, 0, 0, 0, a);
    lemma_shift_parse(x, z, 0, a);
    lemma_offset_total(z, 0, 0, a, c);
    law_concatenation(x, z);
}

/// A number, spaces, and a run of unit bytes that the table does not know is refused as
/// an unknown unit (where the number itself fits in 128 bits).
pub proof fn law_unknown_unit(digits: Seq<u8>, spaces: Seq<u8>, unit: Seq<u8>, rest: Seq<u8>)
    requires
        digits.len() > 0,
        forall|j: int| 0 <= j < digits.len() ==> is_digit_spec(#[trigger] digits[j]),
        digits_value(digits) <= u128::MAX,
        all_spaces(spaces),
        unit.len() > 0,
        forall|j: int| 0 <= j < unit.len() ==> is_unit_byte_spec(#[trigger] unit[j]),
        unit_value(unit) is None,
        rest.len() > 0 ==> !is_unit_byte_spec(rest[0]),
    ensures
        spec_parse(digits + spaces + unit + rest) == Err::<int, Error>(Error::UnknownUnit),
{
    let b = digits + spaces + unit + rest;
    let dl = digits.len() as int;
    let ul = dl + spaces.len();
    let el = ul + unit.len();
    assert forall|j: int| 0 <= j < dl implies is_digit_spec(#[trigger] b[j]) by {
        assert(b[j] == digits[j]);
    }
    assert forall|j: int| dl <= j < ul implies #[trigger] b[j] == SPACE by {
        assert(b[j] == spaces[j - dl]);
    }
    assert forall|j: int| ul <= j < el implies is_unit_byte_spec(#[trigger] b[j]) by {
        assert(b[j] == unit[j - ul]);
    }
    assert(b[ul] == unit[0]);
    lemma_space_run(b, 0, 0);
    lemma_digit_run(b, 0, dl);
    lemma_space_run(b, dl, ul);
    lemma_unit_stop_at(b, ul, el);
    assert(b.subrange(0, dl) =~= digits);
    assert(b.subrange(ul, el) =~= unit);
    assert(skip_spaces(b, 0) == 0);
    assert(spec_parse(b) == parse_pairs(b, 0, 0));
}

/// A run of unit bytes from `i` up to `k` that stops there ends where scanning for a
/// unit from `i` does.
proof fn lemma_unit_stop_at(b: Seq<u8>, i: int, k: int)
    requires
        0 <= i <= k <= b.len(),
        forall|j: int| i <= j < k ==> is_unit_byte_spec(#[trigger] b[j]),
        k < b.len() ==> !is_unit_byte_spec(b[k]),
    ensures
        unit_end(b, i) == k,
    decreases k - i,
{
    if i < k {
        lemma_unit_stop_at(b, i + 1, k);
    }
}

/// A literal whose first byte after any spaces is not a digit is refused as lacking a
/// number.
pub proof fn law_expected_number(b: Seq<u8>)
    requires
        skip_spaces(b, 0) < b.len(),
        !is_digit_spec(b[skip_spaces(b, 0)]),
    ensures
        spec_parse(b) == Err::<int, Error>(Error::ExpectedNumber),
{
    lemma_scans_advance(b, 0);
}

/// A number followed by spaces and then by the end of the literal or by a byte that
/// cannot start a unit is refused as lacking a unit (where the number fits in 128 bits).
pub proof fn law_expected_unit(digits: Seq<u8>, spaces: Seq<u8>, rest: Seq<u8>)
    requires
        digits.len() > 0,
        forall|j: int| 0 <= j < digits.len() ==> is_digit_spec(#[trigger] digits[j]),
        digits_value(digits) <= u128::MAX,
        all_spaces(spaces),
        rest.len() > 0 ==> !is_unit_byte_spec(rest[0]) && rest[0] != SPACE && !is_digit_spec(
            rest[0],
        ),
    ensures
        spec_parse(digits + spaces + rest) == Err::<int, Error>(Error::ExpectedUnit),
{
    let b = digits + spaces + rest;
    let dl = digits.len() as int;
    let ul = dl + spaces.len();
    assert forall|j: int| 0 <= j < dl implies is_digit_spec(#[trigger] b[j]) by {
        assert(b[j] == digits[j]);
    }
    assert forall|j: int| dl <= j < ul implies #[trigger] b[j] == SPACE by {
        assert(b[j] == spaces[j - dl]);
    }
    if rest.len() > 0 {
        assert(b[ul] == rest[0]);
    }
    if spaces.len() > 0 {
        assert(b[dl] == spaces[0]);
    } else if rest.len() > 0 {
        assert(b[dl] == rest[0]);
    }
    lemma_space_run(b, 0, 0);
    lemma_digit_run(b, 0, dl);
    lemma_space_run(b, dl, ul);
    lemma_unit_stop_at(b, ul, ul);
    assert(b.subrange(0, dl) =~= digits);
    assert(skip_spaces(b, 0) == 0);
    assert(spec_parse(b) == parse_pairs(b, 0, 0));
}

/// A pair as written in a literal: its digits, the spaces after them, and its unit.
pub type PairText = (Seq<u8>, Seq<u8>, Seq<u8>);

/// Whether `p` is a pair of the grammar: at least one digit, only spaces between number
/// and unit, and a unit that the table knows.
pub open spec fn is_pair(p: PairText) -> bool {
    &&& p.0.len() > 0
    &&& forall|j: int| 0 <= j < p.0.len() ==> is_digit_spec(#[trigger] p.0[j])
    &&& all_spaces(p.1)
    &&& unit_value(p.2) is Some
}

/// The bytes of a pair.
pub open spec fn pair_bytes(p: PairText) -> Seq<u8> {
    p.0 + p.1 + p.2
}

/// What a pair stands for: its number times its unit, in nanoseconds.
pub open spec fn pair_nanos(p: PairText) -> int {
    digits_value(p.0) * unit_value(p.2)->Some_0
}

/// The literal that writes the pairs in order, one space between each two.
pub open spec fn literal_of(pairs: Seq<PairText>) -> Seq<u8>
    decreases pairs.len(),
{
    if pairs.len() == 0 {
        Seq::empty()
    } else if pairs.len() == 1 {
        pair_bytes(pairs[0])
    } else {
        pair_bytes(pairs[0]) + seq![SPACE] + literal_of(pairs.drop_first())
    }
}

/// The sum of what the pairs stand for.
pub open spec fn sum_of(pairs: Seq<PairText>) -> int
    decreases pairs.len(),
{
    if pairs.len() == 0 {
        0
    } else {
        pair_nanos(pairs[0]) + sum_of(pairs.drop_first())
    }
}

/// What a pair stands for is not negative.
proof fn lemma_pair_nanos_nonneg(p: PairText)
    requires
        is_pair(p),
    ensures
        0 <= digits_value(p.0),
        digits_value(p.0) <= pair_nanos(p),
{
    lemma_known_spelling(p.2, 0);
    lemma_digits_value_prefix(p.0, p.0.len() as int);
    assert(p.0.subrange(0, p.0.len() as int) =~= p.0);
    let n = digits_value(p.0);
    let per = unit_value(p.2)->Some_0;
    assert(n <= n * per) by (nonlinear_arith)
        requires
            n >= 0,
            per >= 1,
    ;
}

/// The sum of what pairs stand for is not negative.
proof fn lemma_sum_nonneg(pairs: Seq<PairText>)
    requires
        forall|i: int| 0 <= i < pairs.len() ==> is_pair(#[trigger] pairs[i]),
    ensures
        0 <= sum_of(pairs),
    decreases pairs.len(),
{
    if pairs.len() > 0 {
        lemma_pair_nanos_nonneg(pairs[0]);
        assert(forall|i: int| 0 <= i < pairs.drop_first().len() ==> #[trigger] pairs.drop_first()[i] == pairs[i + 1]);
        lemma_sum_nonneg(pairs.drop_first());
    }
}

/// Reading a pair at the start of the bytes, followed by the end or by a space: its
/// number and unit are read, and reading goes on after it with the running total grown
/// by what the pair stands for.
proof fn lemma_read_pair(p: PairText, rest: Seq<u8>, acc: int)
    requires
        is_pair(p),
        rest.len() > 0 ==> rest[0] == SPACE,
    ensures
        ({
            let b = pair_bytes(p) + rest;
            let n = digits_value(p.0);
            parse_pairs(b, 0, acc) == (if n > u128::MAX {
                Err(Error::Overflow)
            } else if acc + pair_nanos(p) > u128::MAX {
                Err(Error::Overflow)
            } else {
                parse_pairs(b, pair_bytes(p).len() as int, acc + pair_nanos(p))
            })
        }),
{
    let (digits, spaces, unit) = p;
    let b = pair_bytes(p) + rest;
    let dl = digits.len() as int;
    let ul = dl + spaces.len();
    let el = ul + unit.len();
    lemma_known_spelling(unit, 0);
    assert forall|j: int| 0 <= j < dl implies is_digit_spec(#[trigger] b[j]) by {
        assert(b[j] == digits[j]);
    }
    assert forall|j: int| dl <= j < ul implies #[trigger] b[j] == SPACE by {
        assert(b[j] == spaces[j - dl]);
    }
    assert forall|j: int| ul <= j < el implies is_unit_byte_spec(#[trigger] b[j]) by {
        assert(b[j] == unit[j - ul]);
    }
    assert(b[ul] == unit[0]);
    if rest.len() > 0 {
        assert(b[el] == rest[0]);
    }
    lemma_space_run(b, 0, 0);
    lemma_digit_run(b, 0, dl);
    lemma_space_run(b, dl, ul);
    lemma_unit_stop_at(b, ul, el);
    assert(b.subrange(0, dl) =~= digits);
    assert(b.subrange(ul, el) =~= unit);
}

/// Reading the literal of some pairs with a running total `acc` gives the running total
/// grown by their sum, or refuses it where that is too large.
proof fn lemma_read_pairs(pairs: Seq<PairText>, acc: int)
    requires
        pairs.len() > 0,
        forall|i: int| 0 <= i < pairs.len() ==> is_pair(#[trigger] pairs[i]),
        acc >= 0,
    ensures
        parse_pairs(literal_of(pairs), 0, acc) == total_result(acc + sum_of(pairs)),
    decreases pairs.len(),
{
    let p = pairs[0];
    let tail = pairs.drop_first();
    assert(forall|i: int| 0 <= i < tail.len() ==> #[trigger] tail[i] == pairs[i + 1]);
    lemma_sum_nonneg(tail);
    lemma_pair_nanos_nonneg(p);
    assert(u128::MAX > max_duration_nanos());
    let lit = literal_of(pairs);
    let pl = pair_bytes(p).len() as int;
    if pairs.len() == 1 {
        assert(lit =~= pair_bytes(p) + Seq::<u8>::empty());
        lemma_read_pair(p, Seq::empty(), acc);
        lemma_scans_advance(lit, pl);
        assert(sum_of(tail) == 0);
    } else {
        let rest = seq![SPACE] + literal_of(tail);
        assert(lit =~= pair_bytes(p) + rest);
        lemma_read_pair(p, rest, acc);
        let next = acc + pair_nanos(p);
        if digits_value(p.0) <= u128::MAX && next <= u128::MAX {
            let pre = pair_bytes(p) + seq![SPACE];
            assert(lit =~= pre + literal_of(tail));
            assert(lit[pl] == SPACE);
            lemma_scans_advance(lit, pl + 1);
            lemma_same_start(lit, pl, pl + 1, next);
            lemma_shift_parse(pre, literal_of(tail), 0, next);
            lemma_read_pairs(tail, next);
        }
    }
}

/// A literal written as one or more pairs of the grammar, one space between each two,
/// means the sum of what its pairs stand for (each its number times its unit), or is
/// refused as too large where that sum exceeds the largest `Duration`.
pub proof fn law_literal_of_pairs(pairs: Seq<PairText>)
    requires
        pairs.len() > 0,
        forall|i: int| 0 <= i < pairs.len() ==> is_pair(#[trigger] pairs[i]),
    ensures
        spec_parse(literal_of(pairs)) == total_result(sum_of(pairs)),
{
    let lit = literal_of(pairs);
    let p = pairs[0];
    let rest = if pairs.len() == 1 {
        Seq::<u8>::empty()
    } else {
        seq![SPACE] + literal_of(pairs.drop_first())
    };
    assert(lit =~= pair_bytes(p) + rest);
    assert(lit[0] == p.0[0]);
    assert(skip_spaces(lit, 0) == 0);
    lemma_read_pairs(pairs, 0);
}

/// A leading zero does not change the value of a run of digits, so `007 s` means seven
/// seconds.
pub proof fn law_leading_zero(digits: Seq<u8>)
    ensures
        digits_value(seq![ZERO] + digits) == digits_value(digits),
    decreases digits.len(),
{
    let z = seq![ZERO] + digits;
    if digits.len() == 0 {
        assert(z.drop_last() =~= Seq::<u8>::empty());
        assert(z.last() == ZERO);
        assert(digits_value(Seq::<u8>::empty()) == 0);
    } else {
        assert(z.drop_last() =~= seq![ZERO] + digits.drop_last());
        assert(z.last() == digits.last());
        law_leading_zero(digits.drop_last());
    }
}

/// A run of digits means its decimal value: the empty run is zero, and a digit after a
/// run makes ten times the run's value plus the digit's value. So `1500us` is 1500
/// microseconds.
pub proof fn law_decimal_value(s: Seq<u8>, c: u8)
    requires
        is_digit_spec(c),
    ensures
        digits_value(Seq::<u8>::empty()) == 0,
        digits_value(s.push(c)) == 10 * digits_value(s) + (c - ZERO),
        0 <= c - ZERO <= 9,
{
    assert(s.push(c).drop_last() =~= s);
}

/// The largest total accepted is `Duration::MAX`: a total is accepted exactly when its
/// whole seconds fit in a `u64`, and then it is given back unchanged.
pub proof fn law_largest_total(n: int)
    requires
        n >= 0,
    ensures
        total_result(n) is Ok <==> n / 1_000_000_000 <= u64::MAX,
        total_result(n) is Ok ==> total_result(n) == Ok::<int, Error>(n),
        max_duration_nanos() == 18_446_744_073_709_551_615_999_999_999,
{
}

} // verus!
