use const_duration_macro::parse_duration;
use core::time::Duration;

#[test]
fn every_spelling() {
    let cases: &[(&str, Duration)] = &[
        ("250ns", Duration::from_nanos(250)),
        ("250 nsec", Duration::from_nanos(250)),
        ("250 nanosecond", Duration::from_nanos(250)),
        ("250 nanoseconds", Duration::from_nanos(250)),
        ("250us", Duration::from_micros(250)),
        ("250µs", Duration::from_micros(250)),
        ("250μs", Duration::from_micros(250)),
        ("250 usec", Duration::from_micros(250)),
        ("250 microsecond", Duration::from_micros(250)),
        ("250 microseconds", Duration::from_micros(250)),
        ("250ms", Duration::from_millis(250)),
        ("250 msec", Duration::from_millis(250)),
        ("250 millisecond", Duration::from_millis(250)),
        ("250 milliseconds", Duration::from_millis(250)),
        ("10 s", Duration::from_secs(10)),
        ("10 sec", Duration::from_secs(10)),
        ("10 secs", Duration::from_secs(10)),
        ("10 second", Duration::from_secs(10)),
        ("10 seconds", Duration::from_secs(10)),
        ("3 m", Duration::from_secs(180)),
        ("3 min", Duration::from_secs(180)),
        ("3 mins", Duration::from_secs(180)),
        ("3 minute", Duration::from_secs(180)),
        ("3 minutes", Duration::from_secs(180)),
        ("9 h", Duration::from_secs(32_400)),
        ("9 hr", Duration::from_secs(32_400)),
        ("9 hrs", Duration::from_secs(32_400)),
        ("9 hour", Duration::from_secs(32_400)),
        ("9 hours", Duration::from_secs(32_400)),
        ("2 d", Duration::from_secs(172_800)),
        ("2 day", Duration::from_secs(172_800)),
        ("2 days", Duration::from_secs(172_800)),
        ("2 w", Duration::from_secs(1_209_600)),
        ("2 wk", Duration::from_secs(1_209_600)),
        ("2 wks", Duration::from_secs(1_209_600)),
        ("2 week", Duration::from_secs(1_209_600)),
        ("2 weeks", Duration::from_secs(1_209_600)),
        ("1M", Duration::from_secs(2_629_746)),
        ("1 month", Duration::from_secs(2_629_746)),
        ("1 months", Duration::from_secs(2_629_746)),
        ("1 y", Duration::from_secs(31_556_952)),
        ("1 yr", Duration::from_secs(31_556_952)),
        ("1 yrs", Duration::from_secs(31_556_952)),
        ("1 year", Duration::from_secs(31_556_952)),
        ("1 years", Duration::from_secs(31_556_952)),
    ];
    for (literal, expected) in cases {
        assert_eq!(parse_duration(literal), *expected, "{literal}");
    }
}

#[test]
fn compound_and_spacing() {
    assert_eq!(parse_duration("1h 30m"), Duration::from_secs(5400));
    assert_eq!(parse_duration("1h30m"), Duration::from_secs(5400));
    assert_eq!(parse_duration("  1 h   30 m  "), Duration::from_secs(5400));
    assert_eq!(
        parse_duration("1y 1w 1d 2h 3m 4s 5ms"),
        Duration::from_millis(31_556_952_000 + 604_800_000 + 93_784_005)
    );
    assert_eq!(parse_duration("12 M"), parse_duration("1 y"));
    assert_eq!(
        parse_duration("1s 500ms 250us 1ns"),
        Duration::new(1, 500_250_001)
    );
    assert_eq!(parse_duration("30m 1h"), Duration::from_secs(5400));
    assert_eq!(parse_duration("1h 1h"), Duration::from_secs(7200));
}

#[test]
fn zero_and_leading_zeros() {
    assert_eq!(parse_duration("0s"), Duration::ZERO);
    assert_eq!(parse_duration("007 s"), Duration::from_secs(7));
}

#[test]
fn largest_representable() {
    assert_eq!(
        parse_duration("18446744073709551615 s 999999999 ns"),
        Duration::MAX
    );
    assert_eq!(
        parse_duration("18446744073709551615999999999 ns"),
        Duration::MAX
    );
    assert_eq!(
        parse_duration("18446744073709551615 s 999 ms 999 us 999 ns"),
        Duration::MAX
    );
}

#[test]
#[should_panic(expected = "duration exceeds Duration::MAX")]
fn rejects_seconds_overflow() {
    parse_duration("18446744073709551616 s");
}

#[test]
#[should_panic(expected = "duration exceeds Duration::MAX")]
fn rejects_carry_overflow() {
    parse_duration("18446744073709551615 s 1000000000 ns");
}

#[test]
#[should_panic(expected = "duration exceeds Duration::MAX")]
fn rejects_product_overflow() {
    parse_duration("1000000000000000000000000 y");
}

#[test]
#[should_panic(expected = "duration exceeds Duration::MAX")]
fn rejects_number_overflow() {
    parse_duration("1000000000000000000000000000000000000000 ns");
}

#[test]
#[should_panic(expected = "unknown duration unit")]
fn rejects_unknown_unit() {
    parse_duration("9 fortnights");
}

#[test]
#[should_panic(expected = "unknown duration unit")]
fn rejects_case_variants() {
    parse_duration("9 Hrs");
}

#[test]
#[should_panic(expected = "unknown duration unit")]
fn rejects_truncated_unit() {
    parse_duration("9 hou");
}

#[test]
#[should_panic(expected = "unknown duration unit")]
fn rejects_other_non_ascii_unit() {
    parse_duration("9 ſ");
}

#[test]
#[should_panic(expected = "expected a unit")]
fn rejects_bare_number() {
    parse_duration("9");
}

#[test]
#[should_panic(expected = "expected a number")]
fn rejects_bare_unit() {
    parse_duration("hrs");
}

#[test]
#[should_panic(expected = "expected a number")]
fn rejects_negative() {
    parse_duration("-9 hrs");
}

#[test]
#[should_panic(expected = "expected a unit")]
fn rejects_fraction() {
    parse_duration("1.5 h");
}

#[test]
#[should_panic(expected = "expected a number")]
fn rejects_separator() {
    parse_duration("1h, 30m");
}

#[test]
#[should_panic(expected = "empty duration")]
fn rejects_empty() {
    parse_duration("");
}

#[test]
#[should_panic(expected = "empty duration")]
fn rejects_whitespace_only() {
    parse_duration("   ");
}
