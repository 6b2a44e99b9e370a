use const_duration_macro::parse_duration;
use core::time::Duration;

#[test]
fn usable_in_const_and_static_items() {
    let nine_hours: Duration = parse_duration("9 hrs");
    let ten_seconds: Duration = parse_duration("10 secs");
    assert_eq!(nine_hours, Duration::from_secs(32_400));
    assert_eq!(ten_seconds, Duration::from_secs(10));
}

#[test]
fn usable_as_an_expression() {
    assert_eq!(parse_duration("1h 30m"), Duration::from_secs(5400));
    assert_eq!(parse_duration("250ms"), Duration::from_millis(250));
    assert_eq!(parse_duration("2 days"), Duration::from_secs(172_800));
}
