use const_duration_macro::grammar::Error;
use const_duration_macro::parse::mul_add;
use const_duration_macro::try_parse;
use const_duration_macro::units::is_unit;
use const_duration_macro::units::is_unit_byte;
use const_duration_macro::units::unit_at;
use const_duration_macro::units::unit_nanos;
use const_duration_macro::units::DAY;
use const_duration_macro::units::HOUR;
use const_duration_macro::units::MICROSECOND;
use const_duration_macro::units::MILLISECOND;
use const_duration_macro::units::MINUTE;
use const_duration_macro::units::MONTH;
use const_duration_macro::units::NANOSECOND;
use const_duration_macro::units::SECOND;
use const_duration_macro::units::UNIT_COUNT;
use const_duration_macro::units::WEEK;
use const_duration_macro::units::YEAR;
use core::time::Duration;

fn parse(text: &str) -> Result<Duration, Error> {
    try_parse(text.as_bytes())
}

#[test]
fn each_error_has_an_input() {
    assert_eq!(parse(""), Err(Error::Empty));
    assert_eq!(parse("    "), Err(Error::Empty));
    assert_eq!(parse("h"), Err(Error::ExpectedNumber));
    assert_eq!(parse("1h -"), Err(Error::ExpectedNumber));
    assert_eq!(parse("9"), Err(Error::ExpectedUnit));
    assert_eq!(parse("9 ."), Err(Error::ExpectedUnit));
    assert_eq!(parse("9 parsecs"), Err(Error::UnknownUnit));
    assert_eq!(parse("9 S"), Err(Error::UnknownUnit));
    assert_eq!(parse("18446744073709551616 s"), Err(Error::Overflow));
    assert_eq!(parse("340282366920938463463374607431768211456 ns"), Err(Error::Overflow));
    assert_eq!(parse("340282366920938463463374607431768211455 s"), Err(Error::Overflow));
}

#[test]
fn first_error_wins() {
    // The number overflows before the unknown unit is read.
    assert_eq!(parse("1000000000000000000000000000000000000000 xyz"), Err(Error::Overflow));
    // The product overflows before the later bad unit is read.
    assert_eq!(parse("1000000000000000000000000 y 1 xyz"), Err(Error::Overflow));
    // A total that only exceeds a Duration is found at the end, after the bad unit.
    assert_eq!(parse("18446744073709551616 s 1 xyz"), Err(Error::UnknownUnit));
    assert_eq!(parse("1 xyz 9"), Err(Error::UnknownUnit));
}

#[test]
fn messages() {
    assert_eq!(Error::Empty.message(), "empty duration");
    assert_eq!(Error::ExpectedNumber.message(), "expected a number");
    assert_eq!(Error::ExpectedUnit.message(), "expected a unit");
    assert_eq!(Error::UnknownUnit.message(), "unknown duration unit");
    assert_eq!(Error::Overflow.message(), "duration exceeds Duration::MAX");
}

#[test]
fn mul_add_values() {
    assert_eq!(mul_add(7, 10, 3), Ok(73));
    assert_eq!(mul_add(0, 0, 0), Ok(0));
    assert_eq!(mul_add(u128::MAX, 1, 0), Ok(u128::MAX));
    assert_eq!(mul_add(u128::MAX, 1, 1), Err(Error::Overflow));
    assert_eq!(mul_add(u128::MAX / 2 + 1, 2, 0), Err(Error::Overflow));
    assert_eq!(mul_add(u128::MAX / 10, 10, 5), Ok(u128::MAX));
}

#[test]
fn unit_bytes() {
    assert!(is_unit_byte(b'a'));
    assert!(is_unit_byte(b'Z'));
    assert!(is_unit_byte(0xC2));
    assert!(!is_unit_byte(b'0'));
    assert!(!is_unit_byte(b' '));
    assert!(!is_unit_byte(b'.'));
    assert!(!is_unit_byte(b'\t'));
    assert!(!is_unit_byte(b'@'));
    assert!(!is_unit_byte(b'['));
}

#[test]
fn unit_lookup() {
    let b = "9 hrs".as_bytes();
    assert!(is_unit(b, 2, 5, b"hrs"));
    assert!(!is_unit(b, 2, 5, b"hr"));
    assert!(!is_unit(b, 2, 4, b"hrs"));
    assert_eq!(unit_nanos(b, 2, 5), Ok(HOUR));
    assert_eq!(unit_nanos(b, 2, 4), Ok(HOUR));
    assert_eq!(unit_nanos(b, 2, 3), Ok(HOUR));
    assert_eq!(unit_nanos(b, 3, 5), Err(Error::UnknownUnit));
    assert_eq!(unit_nanos(b, 2, 2), Err(Error::UnknownUnit));
    let mu = "µs μs".as_bytes();
    assert_eq!(unit_nanos(mu, 0, 3), Ok(MICROSECOND));
    assert_eq!(unit_nanos(mu, 4, 7), Ok(MICROSECOND));
}

#[test]
fn each_spelling_stands_for_its_own_entry() {
    let mut seen: Vec<&[u8]> = Vec::new();
    for k in 0..UNIT_COUNT {
        let (name, nanos) = unit_at(k);
        assert!(!seen.contains(&name), "{name:?} twice");
        seen.push(name);
        assert_eq!(unit_nanos(name, 0, name.len()), Ok(nanos));
        let text = format!("1 {}", std::str::from_utf8(name).unwrap());
        assert_eq!(parse(&text), Ok(Duration::from_nanos(nanos)), "{text:?}");
    }
    assert_eq!(seen.len(), 45);
}

#[test]
fn unit_lengths() {
    assert_eq!(NANOSECOND, 1);
    assert_eq!(MICROSECOND, 1_000);
    assert_eq!(MILLISECOND, 1_000_000);
    assert_eq!(SECOND, 1_000_000_000);
    assert_eq!(MINUTE, 60 * SECOND);
    assert_eq!(HOUR, 3_600 * SECOND);
    assert_eq!(DAY, 86_400 * SECOND);
    assert_eq!(WEEK, 604_800 * SECOND);
    assert_eq!(YEAR, 31_556_952 * SECOND);
    assert_eq!(MONTH, 2_629_746 * SECOND);
    assert_eq!(12 * MONTH, YEAR);
    assert_eq!(parse("12 M"), parse("1 y"));
    assert_eq!(parse("24 M"), parse("2 years"));
}

#[test]
fn leading_and_trailing_spaces() {
    for text in ["9h", "1h 30m", "", "9", "9 hou", "hrs", "18446744073709551616 s", "  5 s"] {
        let lead = format!(" {text}");
        let trail = format!("{text} ");
        assert_eq!(parse(&lead), parse(text), "{lead:?}");
        assert_eq!(parse(&trail), parse(text), "{trail:?}");
    }
}

#[test]
fn concatenation_adds_up() {
    assert_eq!(parse("1h 30m"), Ok(Duration::from_secs(5400)));
    assert_eq!(parse("2d 3w"), Ok(Duration::from_secs(2 * 86_400 + 21 * 86_400)));
    assert_eq!(parse("1s 500ms"), Ok(Duration::new(1, 500_000_000)));
    assert_eq!(
        parse("18446744073709551615 s 999999999 ns"),
        Ok(Duration::MAX)
    );
    assert_eq!(
        parse("18446744073709551615 s 999999999 ns 1 ns"),
        Err(Error::Overflow)
    );
    assert_eq!(
        parse("10000000000000000000 s 10000000000000000000 s"),
        Err(Error::Overflow)
    );
}

#[test]
fn order_does_not_matter() {
    assert_eq!(parse("2h 37min"), parse("37min 2h"));
    assert_eq!(parse("1y 1ns"), parse("1ns 1y"));
    assert_eq!(parse("5 weeks 3 days"), parse("3 days 5 weeks"));
}

#[test]
fn single_pair_is_number_times_unit() {
    assert_eq!(parse("0s"), Ok(Duration::ZERO));
    assert_eq!(parse("7h"), Ok(Duration::from_secs(7 * 3600)));
    assert_eq!(parse("7    h"), Ok(Duration::from_secs(7 * 3600)));
    assert_eq!(parse("0007 weeks"), Ok(Duration::from_secs(7 * 604_800)));
    assert_eq!(parse("584554049253 y"), Ok(Duration::from_secs(584_554_049_253 * 31_556_952)));
    assert_eq!(parse("584554049254 y"), Err(Error::Overflow));
}

#[test]
fn adjacent_pairs_need_no_space() {
    assert_eq!(parse("1h30m"), parse("1h 30m"));
    assert_eq!(parse("1d2h3m4s"), Ok(Duration::from_secs(86_400 + 7_200 + 180 + 4)));
    assert_eq!(parse("1s500ms"), Ok(Duration::from_millis(1_500)));
}

#[test]
fn empty_exactly_when_only_spaces() {
    assert_eq!(parse(""), Err(Error::Empty));
    assert_eq!(parse(" "), Err(Error::Empty));
    assert_eq!(parse("\t"), Err(Error::ExpectedNumber));
    assert_eq!(parse(" 1 s "), Ok(Duration::from_secs(1)));
}

#[test]
fn other_bytes_are_refused() {
    for text in ["1\ts", "1s,2s", "+1 s", "1_000 s", "1.0 s", "1 s;", "1 s\n"] {
        assert!(parse(text).is_err(), "{text:?}");
    }
}

#[test]
fn refused_pairs() {
    assert_eq!(parse("12 fortnights"), Err(Error::UnknownUnit));
    assert_eq!(parse("12 seconds."), Err(Error::ExpectedNumber));
    assert_eq!(parse("12 secondsx"), Err(Error::UnknownUnit));
    assert_eq!(parse("12"), Err(Error::ExpectedUnit));
    assert_eq!(parse("12   "), Err(Error::ExpectedUnit));
    assert_eq!(parse("12 -s"), Err(Error::ExpectedUnit));
    assert_eq!(parse(" seconds"), Err(Error::ExpectedNumber));
}

#[test]
fn within_a_duration() {
    assert_eq!(parse("18446744073709551615999999999 ns"), Ok(Duration::MAX));
    assert_eq!(parse("18446744073709551616000000000 ns"), Err(Error::Overflow));
}

#[test]
fn leading_zeros_do_not_count() {
    assert_eq!(parse("007 s"), parse("7 s"));
    assert_eq!(parse("0000000000000000000000000000000000000000001 ns"), Ok(Duration::from_nanos(1)));
    assert_eq!(parse("00 h"), Ok(Duration::ZERO));
}

#[test]
fn literal_of_pairs_is_their_sum() {
    assert_eq!(
        parse("1y 1w 1d 2h 3m 4s 5ms 6us 7ns"),
        Ok(Duration::new(31_556_952 + 604_800 + 86_400 + 7_200 + 180 + 4, 5_006_007))
    );
    assert_eq!(parse("1 M 1 M 1 M"), Ok(Duration::from_secs(3 * 2_629_746)));
}

fn insert_at(text: &str, k: usize, s: &str) -> String {
    let mut out = String::from(&text[..k]);
    out.push_str(s);
    out.push_str(&text[k..]);
    out
}

#[test]
fn spaces_between_tokens_change_nothing() {
    // Every place in these literals that is not inside a number or a unit.
    for text in ["1h30m", "9 hrs", "1h, 30m", "9", "hrs", "9 fortnights", "1.5h", "18446744073709551616s", "-9h", ""] {
        let b = text.as_bytes();
        for k in 0..=b.len() {
            let digit = |c: u8| c.is_ascii_digit();
            let unit = |c: u8| c.is_ascii_alphabetic() || c >= 0x80;
            if 0 < k && k < b.len()
                && ((digit(b[k - 1]) && digit(b[k])) || (unit(b[k - 1]) && unit(b[k])))
            {
                continue;
            }
            for spaces in [" ", "   "] {
                let edited = insert_at(text, k, spaces);
                assert_eq!(parse(&edited), parse(text), "{edited:?} against {text:?}");
            }
        }
    }
    assert_eq!(parse("1h30m"), parse("  1 h   30 m  "));
    assert_eq!(parse("1 0 s"), Err(Error::ExpectedUnit));
    assert_eq!(parse("10 s"), Ok(Duration::from_secs(10)));
}

#[test]
fn zeros_before_a_number_change_nothing() {
    for (text, k) in [("7 s", 0), ("1h 30m", 3), ("1h30m", 2), ("9", 0), ("9 hou", 0), ("x 9 s", 2), ("18446744073709551616 s", 0)] {
        for zeros in ["0", "000"] {
            let edited = insert_at(text, k, zeros);
            assert_eq!(parse(&edited), parse(text), "{edited:?} against {text:?}");
        }
    }
    assert_eq!(parse("007 s"), Ok(Duration::from_secs(7)));
}
