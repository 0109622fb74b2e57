use tika::dates::{format_epoch, parse_date, MAX_EPOCH};

fn chars(s: &str) -> Vec<char> {
    s.chars().collect()
}

#[test]
fn rfc3339_and_fallback_give_the_same_instant() {
    let a = parse_date(&chars("2021-06-22T12:48:16-04:00")).unwrap();
    let b = parse_date(&chars("2021-06-22T12:48:16-0400")).unwrap();
    let c = parse_date(&chars("2021-06-22T16:48:16Z")).unwrap();
    assert_eq!(a, 1624380496);
    assert_eq!(b, 1624380496);
    assert_eq!(c, 1624380496);
}

#[test]
fn format_renders_utc() {
    assert_eq!(format_epoch(1624380496), "2021-06-22T16:48:16Z");
    assert_eq!(format_epoch(0), "1970-01-01T00:00:00Z");
    assert_eq!(format_epoch(MAX_EPOCH), "9999-12-31T23:59:59Z");
}

#[test]
fn format_then_parse_round_trips() {
    let t = 1624380496;
    let s = format_epoch(t);
    let back = parse_date(&chars(&s)).unwrap();
    assert_eq!(back, t);
}

#[test]
fn positive_offset_subtracts() {
    let t = parse_date(&chars("2021-06-22T16:48:16+0230")).unwrap();
    assert_eq!(t, 1624380496 - 2 * 3600 - 30 * 60);
}

#[test]
fn fractional_seconds_are_accepted_with_colon_offset() {
    let t = parse_date(&chars("2021-06-22T12:48:16.250-04:00")).unwrap();
    assert_eq!(t, 1624380496);
}

#[test]
fn leap_day_is_accepted_and_bad_days_are_not() {
    assert!(parse_date(&chars("2020-02-29T00:00:00Z")).is_some());
    assert!(parse_date(&chars("2021-02-29T00:00:00Z")).is_none());
    assert!(parse_date(&chars("2021-04-31T00:00:00Z")).is_none());
}

#[test]
fn a_leap_second_is_the_last_instant_of_its_minute() {
    let leap = parse_date(&chars("1998-12-31T23:59:60Z")).unwrap();
    let last = parse_date(&chars("1998-12-31T23:59:59Z")).unwrap();
    assert_eq!(leap, last);
    assert!(parse_date(&chars("1998-12-31T23:59:61Z")).is_none());
}

#[test]
fn malformed_dates_are_rejected() {
    assert!(parse_date(&chars("")).is_none());
    assert!(parse_date(&chars("yesterday")).is_none());
    assert!(parse_date(&chars("2021-06-22 12:48:16")).is_none());
    assert!(parse_date(&chars("2021-06-22T12:48:16")).is_none());
    assert!(parse_date(&chars("2021-06-22T25:48:16Z")).is_none());
    assert!(parse_date(&chars("2021-06-22T12:48:16-04:0")).is_none());
    // a fractional part demands a colon in the offset
    assert!(parse_date(&chars("2021-06-22T12:48:16.5-0400")).is_none());
}
