//! Edits that leave a literal's meaning unchanged: spaces put in or taken out between
//! tokens, and zeros put in front of a number. These hold of every literal, refused ones
//! included.
use vstd::prelude::*;

use crate::grammar::SPACE;
use crate::grammar::ZERO;
use crate::grammar::digits_end;
use crate::grammar::digits_value;
use crate::grammar::is_digit_spec;
use crate::grammar::lemma_digits_run;
use crate::grammar::lemma_scans_advance;
use crate::grammar::parse_pairs;
use crate::grammar::skip_spaces;
use crate::grammar::spec_parse;
use crate::grammar::unit_end;
use crate::laws::all_spaces;
use crate::laws::law_leading_zero;
use crate::laws::lemma_shift_scans;
use crate::laws::lemma_unit_stop;
use crate::units::is_unit_byte_spec;
use crate::units::unit_value;

verus! {

/// `b` with the bytes `s` put in at index `k`.
pub open spec fn insert_at(b: Seq<u8>, k: int, s: Seq<u8>) -> Seq<u8> {
    b.take(k) + s + b.skip(k)
}

/// `b` with the byte at index `k` taken out.
pub open spec fn remove_at(b: Seq<u8>, k: int) -> Seq<u8> {
    b.take(k) + b.skip(k + 1)
}

/// Whether index `k` of `b` lies between two tokens: not between two digits of one
/// number, nor between two bytes of one unit.
pub open spec fn between_tokens(b: Seq<u8>, k: int) -> bool {
    !(0 < k < b.len() && ((is_digit_spec(b[k - 1]) && is_digit_spec(b[k])) || (
    is_unit_byte_spec(b[k - 1]) && is_unit_byte_spec(b[k]))))
}

/// Whether index `k` of `b` starts a number: its byte is a digit and the byte before it,
/// if any, is not.
pub open spec fn starts_number(b: Seq<u8>, k: int) -> bool {
    &&& 0 <= k < b.len()
    &&& is_digit_spec(b[k])
    &&& (k == 0 || !is_digit_spec(b[k - 1]))
}

/// Where a byte of `b` lands once one byte is put in at `k`.
spec fn moved(k: int, i: int) -> int {
    if i < k {
        i
    } else {
        i + 1
    }
}

/// The bytes of `b` with one byte `c` put in at `k`.
proof fn lemma_insert_bytes(b: Seq<u8>, k: int, c: u8)
    requires
        0 <= k <= b.len(),
    ensures
        insert_at(b, k, seq![c]).len() == b.len() + 1,
        insert_at(b, k, seq![c])[k] == c,
        forall|x: int| 0 <= x < k ==> #[trigger] insert_at(b, k, seq![c])[x] == b[x],
        forall|x: int| k < x <= b.len() ==> #[trigger] insert_at(b, k, seq![c])[x] == b[x - 1],
{
    let b2 = insert_at(b, k, seq![c]);
    assert forall|x: int| k < x <= b.len() implies #[trigger] b2[x] == b[x - 1] by {
        assert(b2[x] == b.skip(k)[x - k - 1]);
    }
}

/// From `k` on, scanning with one byte put in at `k` is scanning without it, one index
/// further on.
proof fn lemma_insert_tail(b: Seq<u8>, k: int, c: u8, i: int)
    requires
        0 <= k <= i <= b.len(),
    ensures
        skip_spaces(insert_at(b, k, seq![c]), i + 1) == skip_spaces(b, i) + 1,
        digits_end(insert_at(b, k, seq![c]), i + 1) == digits_end(b, i) + 1,
        unit_end(insert_at(b, k, seq![c]), i + 1) == unit_end(b, i) + 1,
{
    let rest = b.skip(k);
    let pre1 = b.take(k);
    let pre2 = b.take(k) + seq![c];
    assert(b =~= pre1 + rest);
    assert(insert_at(b, k, seq![c]) =~= pre2 + rest);
    lemma_shift_scans(pre1, rest, i - k);
    lemma_shift_scans(pre2, rest, i - k);
}

/// Up to `k`, scanning with a space put in at `k` is scanning without it, except that a
/// run of digits or of unit bytes stops at the space.
proof fn lemma_space_head(b: Seq<u8>, k: int, i: int)
    requires
        0 <= i <= k <= b.len(),
    ensures
        skip_spaces(insert_at(b, k, seq![SPACE]), i) == moved(k, skip_spaces(b, i)),
        digits_end(insert_at(b, k, seq![SPACE]), i) == (if digits_end(b, i) >= k {
            k
        } else {
            digits_end(b, i)
        }),
        unit_end(insert_at(b, k, seq![SPACE]), i) == (if unit_end(b, i) >= k {
            k
        } else {
            unit_end(b, i)
        }),
    decreases k - i,
{
    let b2 = insert_at(b, k, seq![SPACE]);
    lemma_insert_bytes(b, k, SPACE);
    lemma_scans_advance(b, i);
    if i < k {
        assert(b2[i] == b[i]);
        lemma_space_head(b, k, i + 1);
    } else {
        lemma_insert_tail(b, k, SPACE, k);
    }
}

/// Reading pairs with a space put in at a place between tokens: from corresponding
/// places, the same pairs are read to the same outcome.
proof fn lemma_space_parse(b: Seq<u8>, k: int, i: int, j: int, acc: int)
    requires
        0 <= k <= b.len(),
        between_tokens(b, k),
        0 <= i <= b.len(),
        (i <= k && j == i) || (i >= k && j == i + 1),
    ensures
        parse_pairs(insert_at(b, k, seq![SPACE]), j, acc) == parse_pairs(b, i, acc),
    decreases b.len() - i,
{
    let b2 = insert_at(b, k, seq![SPACE]);
    lemma_insert_bytes(b, k, SPACE);
    lemma_scans_advance(b, i);
    lemma_scans_advance(b2, j);
    if j == i {
        lemma_space_head(b, k, i);
    } else {
        lemma_insert_tail(b, k, SPACE, i);
    }
    let p = skip_spaces(b, i);
    if p < b.len() {
        lemma_scans_advance(b, p);
        lemma_digits_run(b, p);
        let d = digits_end(b, p);
        lemma_scans_advance(b, d);
        let u = skip_spaces(b, d);
        lemma_scans_advance(b, u);
        lemma_unit_stop(b, u);
        let e = unit_end(b, u);
        let n = digits_value(b.subrange(p, d));
        if p < k {
            lemma_space_head(b, k, p);
            if d > k {
                assert(is_digit_spec(b[k - 1]) && is_digit_spec(b[k]));
            }
            lemma_space_head(b, k, d);
            assert(b2.subrange(p, d) =~= b.subrange(p, d));
            if u < k {
                lemma_space_head(b, k, u);
                if e > k {
                    assert(is_unit_byte_spec(b[k - 1]) && is_unit_byte_spec(b[k]));
                }
                assert(b2.subrange(u, e) =~= b.subrange(u, e));
                if d > p && e > u && unit_value(b.subrange(u, e)) is Some {
                    let per = unit_value(b.subrange(u, e))->Some_0;
                    lemma_space_parse(b, k, e, e, acc + n * per);
                }
            } else {
                lemma_insert_tail(b, k, SPACE, u);
                assert(b2.subrange(u + 1, e + 1) =~= b.subrange(u, e));
                if d > p && e > u && unit_value(b.subrange(u, e)) is Some {
                    let per = unit_value(b.subrange(u, e))->Some_0;
                    lemma_space_parse(b, k, e, e + 1, acc + n * per);
                }
            }
        } else {
            lemma_insert_tail(b, k, SPACE, p);
            lemma_insert_tail(b, k, SPACE, d);
            lemma_insert_tail(b, k, SPACE, u);
            assert(b2.subrange(p + 1, d + 1) =~= b.subrange(p, d));
            assert(b2.subrange(u + 1, e + 1) =~= b.subrange(u, e));
            if d > p && e > u && unit_value(b.subrange(u, e)) is Some {
                let per = unit_value(b.subrange(u, e))->Some_0;
                lemma_space_parse(b, k, e, e + 1, acc + n * per);
            }
        }
    }
}

/// A space put in between two tokens does not change what a literal means.
proof fn lemma_one_space(b: Seq<u8>, k: int)
    requires
        0 <= k <= b.len(),
        between_tokens(b, k),
    ensures
        spec_parse(insert_at(b, k, seq![SPACE])) == spec_parse(b),
{
    lemma_insert_bytes(b, k, SPACE);
    lemma_space_parse(b, k, 0, 0, 0);
    lemma_scans_advance(b, 0);
    if k == 0 {
        lemma_insert_tail(b, k, SPACE, 0);
    } else {
        lemma_space_head(b, k, 0);
    }
}

/// Spaces put in between two tokens (before or after the literal, between a number and
/// its unit, between pairs, or next to any other byte) do not change what a literal
/// means, whether it is accepted or refused.
pub proof fn law_spaces_inserted(b: Seq<u8>, k: int, spaces: Seq<u8>)
    requires
        0 <= k <= b.len(),
        between_tokens(b, k),
        all_spaces(spaces),
    ensures
        spec_parse(insert_at(b, k, spaces)) == spec_parse(b),
    decreases spaces.len(),
{
    if spaces.len() == 0 {
        assert(insert_at(b, k, spaces) =~= b);
    } else {
        let rest = spaces.drop_first();
        let b1 = insert_at(b, k, rest);
        law_spaces_inserted(b, k, rest);
        assert(b1.len() == b.len() + rest.len());
        if k > 0 {
            assert(b1[k - 1] == b[k - 1]);
        }
        if rest.len() > 0 {
            assert(b1[k] == rest[0]);
        } else {
            assert(b1 =~= b);
        }
        lemma_one_space(b1, k);
        assert(insert_at(b1, k, seq![SPACE]) =~= insert_at(b, k, spaces));
    }
}

/// A space taken out from between two tokens does not change what a literal means,
/// whether it is accepted or refused.
pub proof fn law_space_removed(b: Seq<u8>, k: int)
    requires
        0 <= k < b.len(),
        b[k] == SPACE,
        between_tokens(remove_at(b, k), k),
    ensures
        spec_parse(remove_at(b, k)) == spec_parse(b),
{
    let r = remove_at(b, k);
    lemma_one_space(r, k);
    assert(insert_at(r, k, seq![SPACE]) =~= b);
}

/// Where a byte of `b` lands once a zero is put in at `k`, the start of a number: the
/// number's first digit is then read from the zero.
spec fn moved_past_zero(k: int, i: int) -> int {
    if i <= k {
        i
    } else {
        i + 1
    }
}

/// Up to `k`, scanning with a zero put in at `k`, where a number starts, is scanning
/// without it, except that the number's run of digits is one longer.
proof fn lemma_zero_head(b: Seq<u8>, k: int, i: int)
    requires
        starts_number(b, k),
        0 <= i <= k,
    ensures
        skip_spaces(insert_at(b, k, seq![ZERO]), i) == skip_spaces(b, i),
        skip_spaces(b, i) <= k,
        unit_end(insert_at(b, k, seq![ZERO]), i) == unit_end(b, i),
        unit_end(b, i) <= k,
        digits_end(insert_at(b, k, seq![ZERO]), i) == moved_past_zero(k, digits_end(b, i)),
    decreases k - i,
{
    let b2 = insert_at(b, k, seq![ZERO]);
    lemma_insert_bytes(b, k, ZERO);
    lemma_scans_advance(b, i);
    if i < k {
        assert(b2[i] == b[i]);
        lemma_zero_head(b, k, i + 1);
    } else {
        lemma_insert_tail(b, k, ZERO, k);
        lemma_scans_advance(b, k + 1);
    }
}

/// Reading pairs with a zero put in where a number starts: from corresponding places,
/// the same pairs are read to the same outcome.
proof fn lemma_zero_parse(b: Seq<u8>, k: int, i: int, acc: int)
    requires
        starts_number(b, k),
        0 <= i <= b.len(),
    ensures
        parse_pairs(insert_at(b, k, seq![ZERO]), moved_past_zero(k, i), acc) == parse_pairs(
            b,
            i,
            acc,
        ),
    decreases b.len() - i,
{
    let b2 = insert_at(b, k, seq![ZERO]);
    let j = moved_past_zero(k, i);
    lemma_insert_bytes(b, k, ZERO);
    lemma_scans_advance(b, i);
    lemma_scans_advance(b2, j);
    if i <= k {
        lemma_zero_head(b, k, i);
    } else {
        lemma_insert_tail(b, k, ZERO, i);
    }
    let p = skip_spaces(b, i);
    if p < b.len() {
        lemma_scans_advance(b, p);
        lemma_digits_run(b, p);
        let d = digits_end(b, p);
        lemma_scans_advance(b, d);
        let u = skip_spaces(b, d);
        lemma_scans_advance(b, u);
        let e = unit_end(b, u);
        if p < k {
            if d >= k {
                assert(is_digit_spec(b[k - 1]));
            }
            lemma_zero_head(b, k, p);
            lemma_zero_head(b, k, d);
            lemma_zero_head(b, k, u);
            assert(b2.subrange(p, d) =~= b.subrange(p, d));
            assert(b2.subrange(u, e) =~= b.subrange(u, e));
            let n = digits_value(b.subrange(p, d));
            if d > p && e > u && unit_value(b.subrange(u, e)) is Some {
                let per = unit_value(b.subrange(u, e))->Some_0;
                lemma_zero_parse(b, k, e, acc + n * per);
            }
        } else {
            if p == k {
                lemma_zero_head(b, k, p);
                lemma_scans_advance(b, k + 1);
                assert(b2.subrange(k, d + 1) =~= seq![ZERO] + b.subrange(k, d));
                law_leading_zero(b.subrange(k, d));
            } else {
                lemma_insert_tail(b, k, ZERO, p);
                assert(b2.subrange(p + 1, d + 1) =~= b.subrange(p, d));
            }
            lemma_insert_tail(b, k, ZERO, d);
            lemma_insert_tail(b, k, ZERO, u);
            assert(b2.subrange(u + 1, e + 1) =~= b.subrange(u, e));
            let n = digits_value(b.subrange(p, d));
            if d > p && e > u && unit_value(b.subrange(u, e)) is Some {
                let per = unit_value(b.subrange(u, e))->Some_0;
                lemma_zero_parse(b, k, e, acc + n * per);
            }
        }
    }
}

/// A zero put in front of a number does not change what a literal means, whether it is
/// accepted or refused.
proof fn lemma_one_zero(b: Seq<u8>, k: int)
    requires
        starts_number(b, k),
    ensures
        spec_parse(insert_at(b, k, seq![ZERO])) == spec_parse(b),
{
    lemma_insert_bytes(b, k, ZERO);
    lemma_zero_parse(b, k, 0, 0);
    lemma_zero_head(b, k, 0);
}

/// Zeros put in front of a number do not change what a literal means, whether it is
/// accepted or refused: `007 s` means what `7 s` means.
pub proof fn law_leading_zeros(b: Seq<u8>, k: int, zeros: Seq<u8>)
    requires
        starts_number(b, k),
        forall|x: int| 0 <= x < zeros.len() ==> #[trigger] zeros[x] == ZERO,
    ensures
        spec_parse(insert_at(b, k, zeros)) == spec_parse(b),
    decreases zeros.len(),
{
    if zeros.len() == 0 {
        assert(insert_at(b, k, zeros) =~= b);
    } else {
        let rest = zeros.drop_first();
        let b1 = insert_at(b, k, rest);
        law_leading_zeros(b, k, rest);
        assert(b1.len() == b.len() + rest.len());
        if k > 0 {
            assert(b1[k - 1] == b[k - 1]);
        }
        if rest.len() > 0 {
            assert(b1[k] == rest[0]);
        } else {
            assert(b1 =~= b);
        }
        lemma_one_zero(b1, k);
        assert(insert_at(b1, k, seq![ZERO]) =~= insert_at(b, k, zeros));
    }
}

} // verus!
