use scoop::calendar::{leap_year, month_length, Timestamp, MAX_SECONDS, MIN_SECONDS};
use scoop::stamp::{format_time, parse_stamp};
use scoop::text::{chars_of, find_dot, read_digits, read_integer, MAX_INTEGER};
use scoop::timeline::MAX_SHIFT;

fn at(year: i32, month: u32, day: u32, hour: u32, minute: u32, second: u32) -> Timestamp {
    Timestamp::new(year, month, day, hour, minute, second).expect("a valid timestamp")
}

#[test]
fn leap_years() {
    assert!(leap_year(2024));
    assert!(leap_year(2000));
    assert!(leap_year(0));
    assert!(!leap_year(1900));
    assert!(!leap_year(2023));
    assert_eq!(month_length(2024, 2), 29);
    assert_eq!(month_length(2023, 2), 28);
    assert_eq!(month_length(2023, 4), 30);
    assert_eq!(month_length(2023, 12), 31);
}

#[test]
fn timestamps_are_validated() {
    assert!(Timestamp::new(2024, 2, 29, 0, 0, 0).is_some());
    assert!(Timestamp::new(2023, 2, 29, 0, 0, 0).is_none());
    assert!(Timestamp::new(2023, 0, 1, 0, 0, 0).is_none());
    assert!(Timestamp::new(2023, 13, 1, 0, 0, 0).is_none());
    assert!(Timestamp::new(2023, 1, 0, 0, 0, 0).is_none());
    assert!(Timestamp::new(2023, 4, 31, 0, 0, 0).is_none());
    assert!(Timestamp::new(2023, 1, 1, 24, 0, 0).is_none());
    assert!(Timestamp::new(2023, 1, 1, 0, 60, 0).is_none());
    assert!(Timestamp::new(2023, 1, 1, 0, 0, 60).is_none());
    assert!(Timestamp::new(-1, 1, 1, 0, 0, 0).is_none());
    assert!(Timestamp::new(10000, 1, 1, 0, 0, 0).is_none());
    assert!(Timestamp::new(0, 1, 1, 0, 0, 0).is_some());
    assert!(Timestamp::new(9999, 12, 31, 23, 59, 59).is_some());
    let loose = Timestamp { year: 2023, month: 2, day: 30, hour: 0, minute: 0, second: 0 };
    assert!(!loose.check_valid());
}

#[test]
fn timestamps_are_ordered_by_their_fields() {
    let a = at(2024, 1, 31, 23, 59, 59);
    let b = at(2024, 2, 1, 0, 0, 0);
    assert!(a.is_before(&b));
    assert!(!b.is_before(&a));
    assert!(!a.is_before(&a));
    assert!(at(2023, 12, 31, 23, 59, 59).is_before(&at(2024, 1, 1, 0, 0, 0)));
    assert!(at(2024, 1, 1, 0, 0, 0).is_before(&at(2024, 1, 1, 0, 0, 1)));
}

#[test]
fn seconds_between_timestamps() {
    let epoch = at(1970, 1, 1, 0, 0, 0);
    assert_eq!(epoch.seconds_until(&at(1970, 1, 2, 0, 0, 0)), 86_400);
    assert_eq!(epoch.seconds_until(&at(2024, 1, 1, 0, 0, 0)), 1_704_067_200);
    assert_eq!(epoch.seconds_until(&at(0, 1, 1, 0, 0, 0)), MIN_SECONDS);
    assert_eq!(epoch.seconds_until(&at(9999, 12, 31, 23, 59, 59)), MAX_SECONDS);
    assert_eq!(at(2024, 3, 1, 0, 0, 0).seconds_until(&at(2024, 2, 28, 0, 0, 0)), -172_800);
    assert_eq!(epoch.seconds_until(&epoch), 0);
}

#[test]
fn adding_seconds_follows_the_calendar() {
    let t = at(2023, 2, 28, 23, 59, 59);
    assert_eq!(t.checked_add_seconds(1), Some(at(2023, 3, 1, 0, 0, 0)));
    assert_eq!(at(2024, 2, 28, 23, 59, 59).checked_add_seconds(1), Some(at(2024, 2, 29, 0, 0, 0)));
    assert_eq!(at(2024, 3, 1, 0, 0, 0).checked_add_seconds(-1), Some(at(2024, 2, 29, 23, 59, 59)));
    assert_eq!(t.checked_add_seconds(0), Some(t));
    assert_eq!(
        at(1970, 1, 1, 0, 0, 0).checked_add_seconds(1_704_067_200),
        Some(at(2024, 1, 1, 0, 0, 0))
    );
}

#[test]
fn adding_seconds_stops_at_the_ends_of_the_range() {
    let first = at(0, 1, 1, 0, 0, 0);
    let last = at(9999, 12, 31, 23, 59, 59);
    assert_eq!(first.checked_add_seconds(MAX_SECONDS - MIN_SECONDS), Some(last));
    assert_eq!(last.checked_add_seconds(MIN_SECONDS - MAX_SECONDS), Some(first));
    assert_eq!(first.checked_add_seconds(MAX_SHIFT), None);
    assert_eq!(first.checked_add_seconds(-1), None);
    assert_eq!(last.checked_add_seconds(1), None);
    assert_eq!(last.checked_add_seconds(-MAX_SHIFT), None);
    assert_eq!(last.checked_add_seconds(i64::MAX), None);
    assert_eq!(first.checked_add_seconds(i64::MIN), None);
}

#[test]
fn stamps_are_written_in_the_stored_form() {
    assert_eq!(format_time(&at(2024, 1, 2, 3, 4, 5)), "2024-01-02 03:04:05");
    assert_eq!(format_time(&at(0, 1, 1, 0, 0, 0)), "0000-01-01 00:00:00");
    assert_eq!(format_time(&at(9999, 12, 31, 23, 59, 59)), "9999-12-31 23:59:59");
    assert_eq!(format_time(&at(987, 10, 20, 13, 40, 50)), "0987-10-20 13:40:50");
}

#[test]
fn stamps_are_read_back() {
    assert_eq!(parse_stamp("2024-01-02 03:04:05"), Some(at(2024, 1, 2, 3, 4, 5)));
    assert_eq!(parse_stamp("0000-01-01 00:00:00"), Some(at(0, 1, 1, 0, 0, 0)));
    let t = at(1999, 12, 31, 23, 59, 59);
    assert_eq!(parse_stamp(&format_time(&t)), Some(t));
}

#[test]
fn malformed_stamps_are_refused() {
    assert_eq!(parse_stamp(""), None);
    assert_eq!(parse_stamp("2024-01-02"), None);
    assert_eq!(parse_stamp("2024-1-2 3:4:5"), None);
    assert_eq!(parse_stamp("2024-01-02T03:04:05"), None);
    assert_eq!(parse_stamp("2024/01/02 03:04:05"), None);
    assert_eq!(parse_stamp("2024-01-02 03.04.05"), None);
    assert_eq!(parse_stamp("2024-01-02 03:04:05 "), None);
    assert_eq!(parse_stamp("+024-01-02 03:04:05"), None);
    assert_eq!(parse_stamp("2024-02-30 03:04:05"), None);
    assert_eq!(parse_stamp("2023-02-29 03:04:05"), None);
    assert_eq!(parse_stamp("2024-13-01 03:04:05"), None);
    assert_eq!(parse_stamp("2024-00-01 03:04:05"), None);
    assert_eq!(parse_stamp("2024-01-02 24:04:05"), None);
    assert_eq!(parse_stamp("2024-01-02 03:60:05"), None);
    assert_eq!(parse_stamp("2024-01-02 03:04:60"), None);
    assert_eq!(parse_stamp("2024-01-02 03:04:0\u{665}"), None);
}

#[test]
fn integers_are_read_with_their_sign() {
    let text = chars_of("x-120+7y0042");
    assert_eq!(read_integer(&text, 1, 5), Some(-120));
    assert_eq!(read_integer(&text, 5, 7), Some(7));
    assert_eq!(read_integer(&text, 8, 12), Some(42));
    assert_eq!(read_integer(&text, 2, 5), Some(120));
    assert_eq!(read_integer(&text, 1, 2), None);
    assert_eq!(read_integer(&text, 5, 6), None);
    assert_eq!(read_integer(&text, 3, 3), None);
    assert_eq!(read_integer(&text, 0, 5), None);
    assert_eq!(read_integer(&text, 1, 7), None);
}

#[test]
fn integers_too_large_are_refused() {
    let fits = chars_of("999999999999999999");
    assert_eq!(read_integer(&fits, 0, fits.len()), Some(MAX_INTEGER));
    let negative = chars_of("-999999999999999999");
    assert_eq!(read_integer(&negative, 0, negative.len()), Some(-MAX_INTEGER));
    let over = chars_of("1000000000000000000");
    assert_eq!(read_integer(&over, 0, over.len()), None);
    let long = chars_of("00000000000000000000000000000000000012");
    assert_eq!(read_integer(&long, 0, long.len()), Some(12));
    let huge = chars_of("123456789012345678901234567890");
    assert_eq!(read_integer(&huge, 0, huge.len()), None);
}

#[test]
fn digits_are_read_without_a_sign() {
    let text = chars_of("0930+1");
    assert_eq!(read_digits(&text, 0, 2), Some(9));
    assert_eq!(read_digits(&text, 2, 4), Some(30));
    assert_eq!(read_digits(&text, 0, 4), Some(930));
    assert_eq!(read_digits(&text, 1, 1), Some(0));
    assert_eq!(read_digits(&text, 4, 6), None);
    let nine = chars_of("999999999");
    assert_eq!(read_digits(&nine, 0, 9), Some(999_999_999));
}

#[test]
fn dots_are_found() {
    let text = chars_of("1h.30m.");
    assert_eq!(find_dot(&text, 0, text.len()), 2);
    assert_eq!(find_dot(&text, 3, text.len()), 6);
    assert_eq!(find_dot(&text, 3, 6), 6);
    assert_eq!(find_dot(&text, 7, 7), 7);
    assert_eq!(find_dot(&text, 2, 5), 2);
    assert_eq!(chars_of("a\u{e9}b").len(), 3);
}
