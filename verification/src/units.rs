//! The unit table: every spelling the grammar accepts and how many nanoseconds it stands
//! for, with the byte-level tests that find and look up a unit in a literal.
use vstd::prelude::*;

use crate::grammar::Error;

verus! {

/// One nanosecond, in nanoseconds.
pub const NANOSECOND: u64 = 1;

/// One microsecond, in nanoseconds.
pub const MICROSECOND: u64 = 1_000 * NANOSECOND;

/// One millisecond, in nanoseconds.
pub const MILLISECOND: u64 = 1_000 * MICROSECOND;

/// One second, in nanoseconds.
pub const SECOND: u64 = 1_000 * MILLISECOND;

/// One minute, in nanoseconds.
pub const MINUTE: u64 = 60 * SECOND;

/// One hour, in nanoseconds.
pub const HOUR: u64 = 60 * MINUTE;

/// One day of 24 hours, in nanoseconds.
pub const DAY: u64 = 24 * HOUR;

/// One week of 7 days, in nanoseconds.
pub const WEEK: u64 = 7 * DAY;

/// The mean Gregorian year, 365.2425 days (31 556 952 seconds), in nanoseconds.
pub const YEAR: u64 = (400 * 365 + 97) * DAY / 400;

/// One twelfth of a mean year, 30.436875 days (2 629 746 seconds), in nanoseconds.
pub const MONTH: u64 = YEAR / 12;

/// How many spellings the unit table holds.
pub const UNIT_COUNT: usize = 45;

/// Entry `k` of the unit table: a spelling, as the UTF-8 bytes of the literal, and the
/// nanoseconds it stands for.
pub open spec fn unit_entry(k: int) -> (Seq<u8>, u64) {
    if k == 0 {
        // `ns`
        (seq![110u8, 115], NANOSECOND)
    } else if k == 1 {
        // `nsec`
        (seq![110u8, 115, 101, 99], NANOSECOND)
    } else if k == 2 {
        // `nanosecond`
        (seq![110u8, 97, 110, 111, 115, 101, 99, 111, 110, 100], NANOSECOND)
    } else if k == 3 {
        // `nanoseconds`
        (seq![110u8, 97, 110, 111, 115, 101, 99, 111, 110, 100, 115], NANOSECOND)
    } else if k == 4 {
        // `us`
        (seq![117u8, 115], MICROSECOND)
    } else if k == 5 {
        // `µs`, with the micro sign U+00B5
        (seq![194u8, 181, 115], MICROSECOND)
    } else if k == 6 {
        // `μs`, with the Greek small mu U+03BC
        (seq![206u8, 188, 115], MICROSECOND)
    } else if k == 7 {
        // `usec`
        (seq![117u8, 115, 101, 99], MICROSECOND)
    } else if k == 8 {
        // `microsecond`
        (seq![109u8, 105, 99, 114, 111, 115, 101, 99, 111, 110, 100], MICROSECOND)
    } else if k == 9 {
        // `microseconds`
        (seq![109u8, 105, 99, 114, 111, 115, 101, 99, 111, 110, 100, 115], MICROSECOND)
    } else if k == 10 {
        // `ms`
        (seq![109u8, 115], MILLISECOND)
    } else if k == 11 {
        // `msec`
        (seq![109u8, 115, 101, 99], MILLISECOND)
    } else if k == 12 {
        // `millisecond`
        (seq![109u8, 105, 108, 108, 105, 115, 101, 99, 111, 110, 100], MILLISECOND)
    } else if k == 13 {
        // `milliseconds`
        (seq![109u8, 105, 108, 108, 105, 115, 101, 99, 111, 110, 100, 115], MILLISECOND)
    } else if k == 14 {
        // `s`
        (seq![115u8], SECOND)
    } else if k == 15 {
        // `sec`
        (seq![115u8, 101, 99], SECOND)
    } else if k == 16 {
        // `secs`
        (seq![115u8, 101, 99, 115], SECOND)
    } else if k == 17 {
        // `second`
        (seq![115u8, 101, 99, 111, 110, 100], SECOND)
    } else if k == 18 {
        // `seconds`
        (seq![115u8, 101, 99, 111, 110, 100, 115], SECOND)
    } else if k == 19 {
        // `m`
        (seq![109u8], MINUTE)
    } else if k == 20 {
        // `min`
        (seq![109u8, 105, 110], MINUTE)
    } else if k == 21 {
        // `mins`
        (seq![109u8, 105, 110, 115], MINUTE)
    } else if k == 22 {
        // `minute`
        (seq![109u8, 105, 110, 117, 116, 101], MINUTE)
    } else if k == 23 {
        // `minutes`
        (seq![109u8, 105, 110, 117, 116, 101, 115], MINUTE)
    } else if k == 24 {
        // `h`
        (seq![104u8], HOUR)
    } else if k == 25 {
        // `hr`
        (seq![104u8, 114], HOUR)
    } else if k == 26 {
        // `hrs`
        (seq![104u8, 114, 115], HOUR)
    } else if k == 27 {
        // `hour`
        (seq![104u8, 111, 117, 114], HOUR)
    } else if k == 28 {
        // `hours`
        (seq![104u8, 111, 117, 114, 115], HOUR)
    } else if k == 29 {
        // `d`
        (seq![100u8], DAY)
    } else if k == 30 {
        // `day`
        (seq![100u8, 97, 121], DAY)
    } else if k == 31 {
        // `days`
        (seq![100u8, 97, 121, 115], DAY)
    } else if k == 32 {
        // `w`
        (seq![119u8], WEEK)
    } else if k == 33 {
        // `wk`
        (seq![119u8, 107], WEEK)
    } else if k == 34 {
        // `wks`
        (seq![119u8, 107, 115], WEEK)
    } else if k == 35 {
        // `week`
        (seq![119u8, 101, 101, 107], WEEK)
    } else if k == 36 {
        // `weeks`
        (seq![119u8, 101, 101, 107, 115], WEEK)
    } else if k == 37 {
        // `M`
        (seq![77u8], MONTH)
    } else if k == 38 {
        // `month`
        (seq![109u8, 111, 110, 116, 104], MONTH)
    } else if k == 39 {
        // `months`
        (seq![109u8, 111, 110, 116, 104, 115], MONTH)
    } else if k == 40 {
        // `y`
        (seq![121u8], YEAR)
    } else if k == 41 {
        // `yr`
        (seq![121u8, 114], YEAR)
    } else if k == 42 {
        // `yrs`
        (seq![121u8, 114, 115], YEAR)
    } else if k == 43 {
        // `year`
        (seq![121u8, 101, 97, 114], YEAR)
    } else if k == 44 {
        // `years`
        (seq![121u8, 101, 97, 114, 115], YEAR)
    } else {
        (Seq::empty(), 0)
    }
}

/// The nanoseconds that the unit spelled `name` stands for, looking through the table
/// from entry `k` on: the first entry spelled exactly `name`, byte for byte.
pub open spec fn unit_lookup_from(name: Seq<u8>, k: int) -> Option<u64>
    decreases UNIT_COUNT - k,
{
    if k < 0 || k >= UNIT_COUNT {
        None
    } else if unit_entry(k).0 == name {
        Some(unit_entry(k).1)
    } else {
        unit_lookup_from(name, k + 1)
    }
}

/// The nanoseconds that the unit spelled `name` stands for, or `None` when the table has
/// no such spelling. Matching is exact and case-sensitive.
pub open spec fn unit_value(name: Seq<u8>) -> Option<u64> {
    unit_lookup_from(name, 0)
}

/// A byte that can belong to a unit: an ASCII letter, or any byte of a non-ASCII
/// character.
pub open spec fn is_unit_byte_spec(byte: u8) -> bool {
    (65 <= byte <= 90) || (97 <= byte <= 122) || byte >= 128
}

/// Entry `k` of the unit table, as executable data.
pub fn unit_at(k: usize) -> (r: (&'static [u8], u64))
    requires
        k < UNIT_COUNT,
    ensures
        r.0@ == unit_entry(k as int).0,
        r.1 == unit_entry(k as int).1,
{
    if k == 0 {
        // `ns`
        (&[110u8, 115], NANOSECOND)
    } else if k == 1 {
        // `nsec`
        (&[110u8, 115, 101, 99], NANOSECOND)
    } else if k == 2 {
        // `nanosecond`
        (&[110u8, 97, 110, 111, 115, 101, 99, 111, 110, 100], NANOSECOND)
    } else if k == 3 {
        // `nanoseconds`
        (&[110u8, 97, 110, 111, 115, 101, 99, 111, 110, 100, 115], NANOSECOND)
    } else if k == 4 {
        // `us`
        (&[117u8, 115], MICROSECOND)
    } else if k == 5 {
        // `µs`, with the micro sign U+00B5
        (&[194u8, 181, 115], MICROSECOND)
    } else if k == 6 {
        // `μs`, with the Greek small mu U+03BC
        (&[206u8, 188, 115], MICROSECOND)
    } else if k == 7 {
        // `usec`
        (&[117u8, 115, 101, 99], MICROSECOND)
    } else if k == 8 {
        // `microsecond`
        (&[109u8, 105, 99, 114, 111, 115, 101, 99, 111, 110, 100], MICROSECOND)
    } else if k == 9 {
        // `microseconds`
        (&[109u8, 105, 99, 114, 111, 115, 101, 99, 111, 110, 100, 115], MICROSECOND)
    } else if k == 10 {
        // `ms`
        (&[109u8, 115], MILLISECOND)
    } else if k == 11 {
        // `msec`
        (&[109u8, 115, 101, 99], MILLISECOND)
    } else if k == 12 {
        // `millisecond`
        (&[109u8, 105, 108, 108, 105, 115, 101, 99, 111, 110, 100], MILLISECOND)
    } else if k == 13 {
        // `milliseconds`
        (&[109u8, 105, 108, 108, 105, 115, 101, 99, 111, 110, 100, 115], MILLISECOND)
    } else if k == 14 {
        // `s`
        (&[115u8], SECOND)
    } else if k == 15 {
        // `sec`
        (&[115u8, 101, 99], SECOND)
    } else if k == 16 {
        // `secs`
        (&[115u8, 101, 99, 115], SECOND)
    } else if k == 17 {
        // `second`
        (&[115u8, 101, 99, 111, 110, 100], SECOND)
    } else if k == 18 {
        // `seconds`
        (&[115u8, 101, 99, 111, 110, 100, 115], SECOND)
    } else if k == 19 {
        // `m`
        (&[109u8], MINUTE)
    } else if k == 20 {
        // `min`
        (&[109u8, 105, 110], MINUTE)
    } else if k == 21 {
        // `mins`
        (&[109u8, 105, 110, 115], MINUTE)
    } else if k == 22 {
        // `minute`
        (&[109u8, 105, 110, 117, 116, 101], MINUTE)
    } else if k == 23 {
        // `minutes`
        (&[109u8, 105, 110, 117, 116, 101, 115], MINUTE)
    } else if k == 24 {
        // `h`
        (&[104u8], HOUR)
    } else if k == 25 {
        // `hr`
        (&[104u8, 114], HOUR)
    } else if k == 26 {
        // `hrs`
        (&[104u8, 114, 115], HOUR)
    } else if k == 27 {
        // `hour`
        (&[104u8, 111, 117, 114], HOUR)
    } else if k == 28 {
        // `hours`
        (&[104u8, 111, 117, 114, 115], HOUR)
    } else if k == 29 {
        // `d`
        (&[100u8], DAY)
    } else if k == 30 {
        // `day`
        (&[100u8, 97, 121], DAY)
    } else if k == 31 {
        // `days`
        (&[100u8, 97, 121, 115], DAY)
    } else if k == 32 {
        // `w`
        (&[119u8], WEEK)
    } else if k == 33 {
        // `wk`
        (&[119u8, 107], WEEK)
    } else if k == 34 {
        // `wks`
        (&[119u8, 107, 115], WEEK)
    } else if k == 35 {
        // `week`
        (&[119u8, 101, 101, 107], WEEK)
    } else if k == 36 {
        // `weeks`
        (&[119u8, 101, 101, 107, 115], WEEK)
    } else if k == 37 {
        // `M`
        (&[77u8], MONTH)
    } else if k == 38 {
        // `month`
        (&[109u8, 111, 110, 116, 104], MONTH)
    } else if k == 39 {
        // `months`
        (&[109u8, 111, 110, 116, 104, 115], MONTH)
    } else if k == 40 {
        // `y`
        (&[121u8], YEAR)
    } else if k == 41 {
        // `yr`
        (&[121u8, 114], YEAR)
    } else if k == 42 {
        // `yrs`
        (&[121u8, 114, 115], YEAR)
    } else if k == 43 {
        // `year`
        (&[121u8, 101, 97, 114], YEAR)
    } else {
        // `years`
        (&[121u8, 101, 97, 114, 115], YEAR)
    }
}

/// Whether `byte` can belong to a unit: an ASCII letter, or a byte of a non-ASCII
/// character.
pub fn is_unit_byte(byte: u8) -> (r: bool)
    ensures
        r == is_unit_byte_spec(byte),
{
    (65 <= byte && byte <= 90) || (97 <= byte && byte <= 122) || byte >= 128
}

/// Whether the bytes `b[start..end]` spell exactly `name`.
pub fn is_unit(b: &[u8], start: usize, end: usize, name: &[u8]) -> (r: bool)
    requires
        start <= end <= b@.len(),
    ensures
        r == (b@.subrange(start as int, end as int) == name@),
{
    if name.len() != end - start {
        return false;
    }
    let mut k: usize = 0;
    while k < name.len() && name[k] == b[start + k]
        invariant
            name@.len() == end - start,
            start <= end <= b@.len(),
            k <= name@.len(),
            forall|j: int| 0 <= j < k ==> name@[j] == b@[start + j],
        decreases name@.len() - k,
    {
        k += 1;
    }
    proof {
        if k == name@.len() {
            assert(b@.subrange(start as int, end as int) =~= name@);
        } else {
            assert(b@.subrange(start as int, end as int)[k as int] != name@[k as int]);
        }
    }
    k == name.len()
}

/// The nanoseconds of the unit spelled by `b[start..end]`, or `Error::UnknownUnit`.
pub fn unit_nanos(b: &[u8], start: usize, end: usize) -> (r: Result<u64, Error>)
    requires
        start <= end <= b@.len(),
    ensures
        r == (match unit_value(b@.subrange(start as int, end as int)) {
            Some(nanos) => Ok(nanos),
            None => Err(Error::UnknownUnit),
        }),
{
    let ghost name = b@.subrange(start as int, end as int);
    let mut u: usize = 0;
    while u < UNIT_COUNT
        invariant
            start <= end <= b@.len(),
            name == b@.subrange(start as int, end as int),
            u <= UNIT_COUNT,
            unit_value(name) == unit_lookup_from(name, u as int),
        decreases UNIT_COUNT - u,
    {
        let (spelling, nanos) = unit_at(u);
        if is_unit(b, start, end, spelling) {
            return Ok(nanos);
        }
        u += 1;
    }
    Err(Error::UnknownUnit)
}

/// Every spelling of the table is made of unit bytes, and every unit is at least a
/// nanosecond.
pub proof fn lemma_entry_spelling(k: int)
    requires
        0 <= k < UNIT_COUNT,
    ensures
        unit_entry(k).0.len() > 0,
        forall|j: int| 0 <= j < unit_entry(k).0.len() ==> is_unit_byte_spec(#[trigger] unit_entry(k).0[j]),
        unit_entry(k).1 >= 1,
{
}

/// A spelling that the table knows is made of unit bytes and stands for at least a
/// nanosecond.
pub proof fn lemma_known_spelling(name: Seq<u8>, k: int)
    requires
        0 <= k,
        unit_lookup_from(name, k) is Some,
    ensures
        name.len() > 0,
        forall|j: int| 0 <= j < name.len() ==> is_unit_byte_spec(#[trigger] name[j]),
        unit_lookup_from(name, k)->Some_0 >= 1,
    decreases UNIT_COUNT - k,
{
    if k < UNIT_COUNT {
        lemma_entry_spelling(k);
        if unit_entry(k).0 != name {
            lemma_known_spelling(name, k + 1);
        }
    }
}

/// No two entries of the table share a spelling.
pub proof fn lemma_spellings_distinct(j: int, k: int)
    requires
        0 <= j < k < UNIT_COUNT,
    ensures
        unit_entry(j).0 != unit_entry(k).0,
{
    let a = unit_entry(j).0;
    let b = unit_entry(k).0;
    assert(a.len() != b.len() || a[0] != b[0] || a[1] != b[1] || a[2] != b[2]);
}

/// Looking a spelling of the table up from an entry at or before its own finds its own
/// entry.
proof fn lemma_lookup_reaches(k: int, j: int)
    requires
        0 <= j <= k < UNIT_COUNT,
    ensures
        unit_lookup_from(unit_entry(k).0, j) == Some(unit_entry(k).1),
    decreases k - j,
{
    if j < k {
        lemma_spellings_distinct(j, k);
        lemma_lookup_reaches(k, j + 1);
    }
}

/// Each spelling of the table stands for the unit of its own entry: since no two entries
/// share a spelling, the order of the table does not matter.
pub proof fn law_each_spelling(k: int)
    requires
        0 <= k < UNIT_COUNT,
    ensures
        unit_value(unit_entry(k).0) == Some(unit_entry(k).1),
{
    lemma_lookup_reaches(k, 0);
}

/// A spelling is found looking from entry `j` on exactly when one of the entries from
/// `j` on is spelled so, and what is found is that entry's length.
proof fn lemma_lookup_finds_entry(name: Seq<u8>, j: int)
    requires
        0 <= j,
    ensures
        unit_lookup_from(name, j) is Some <==> exists|k: int|
            j <= k < UNIT_COUNT && #[trigger] unit_entry(k).0 == name,
        unit_lookup_from(name, j) is Some ==> exists|k: int|
            j <= k < UNIT_COUNT && #[trigger] unit_entry(k).0 == name && unit_lookup_from(
                name,
                j,
            ) == Some(unit_entry(k).1),
    decreases UNIT_COUNT - j,
{
    if j < UNIT_COUNT {
        lemma_lookup_finds_entry(name, j + 1);
        if unit_entry(j).0 == name {
            assert(unit_entry(j).0 == name);
        }
    }
}

/// The units are the table's and no others: a spelling is known exactly when some entry
/// of the table is spelled so, byte for byte, and it then stands for that entry's
/// length. Every other run of unit bytes is unknown.
pub proof fn law_unit_value_is_table(name: Seq<u8>)
    ensures
        unit_value(name) is Some <==> exists|k: int|
            0 <= k < UNIT_COUNT && #[trigger] unit_entry(k).0 == name,
        forall|k: int|
            0 <= k < UNIT_COUNT && #[trigger] unit_entry(k).0 == name ==> unit_value(name) == Some(
                unit_entry(k).1,
            ),
{
    lemma_lookup_finds_entry(name, 0);
    assert forall|k: int| 0 <= k < UNIT_COUNT && #[trigger] unit_entry(k).0 == name implies unit_value(
        name,
    ) == Some(unit_entry(k).1) by {
        law_each_spelling(k);
    }
}

/// Whether `byte` is an ASCII capital letter.
pub open spec fn is_ascii_upper(byte: u8) -> bool {
    65 <= byte <= 90
}

/// The only spelling of the table with a capital letter is `M`, for months: every other
/// spelling is lower case (or holds the non-ASCII micro sign or mu).
pub proof fn law_spellings_lower_case(k: int)
    requires
        0 <= k < UNIT_COUNT,
        unit_entry(k).0 != seq![77u8],
    ensures
        forall|j: int| 0 <= j < unit_entry(k).0.len() ==> !is_ascii_upper(#[trigger] unit_entry(k).0[j]),
{
}

/// Units are matched case-sensitively: a spelling that holds a capital letter and is not
/// `M` is unknown, so `Min`, `Hrs` or `S` are refused.
pub proof fn law_capitals_unknown(name: Seq<u8>, j: int)
    requires
        0 <= j < name.len(),
        is_ascii_upper(name[j]),
        name != seq![77u8],
    ensures
        unit_value(name) is None,
{
    law_unit_value_is_table(name);
    if unit_value(name) is Some {
        let k = choose|k: int| 0 <= k < UNIT_COUNT && #[trigger] unit_entry(k).0 == name;
        law_spellings_lower_case(k);
        assert(unit_entry(k).0[j] == name[j]);
    }
}

} // verus!
