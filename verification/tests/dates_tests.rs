use biketrack::dates::{
    format_date, format_date_time, format_year_month, parse_date, parse_date_time, Date, DateTime,
};
use biketrack::text::{removesuffix, starts_with};
use biketrack::token::create_token;

fn date(year: u16, month: u8, day: u8) -> Date {
    Date { year, month, day }
}

fn dt(year: u16, month: u8, day: u8, hour: u8, minute: u8, second: u8) -> DateTime {
    DateTime { date: date(year, month, day), hour, minute, second }
}

#[test]
fn formats_dates_canonically() {
    assert_eq!(format_date(&date(2024, 5, 1)), "2024-05-01");
    assert_eq!(format_date(&date(987, 12, 31)), "0987-12-31");
    assert_eq!(format_date_time(&dt(2024, 5, 1, 9, 3, 59)), "2024-05-01 09:03:59");
    assert_eq!(format_year_month(&date(2024, 5, 1)), "2024-05");
}

#[test]
fn parses_what_it_formats() {
    let d = date(2024, 2, 29);
    assert_eq!(parse_date(&format_date(&d)), Some(d));
    let t = dt(1999, 12, 31, 23, 59, 59);
    assert_eq!(parse_date_time(&format_date_time(&t)), Some(t));
}

#[test]
fn rejects_bad_dates() {
    assert_eq!(parse_date("2023-02-29"), None);
    assert_eq!(parse_date("2024-13-01"), None);
    assert_eq!(parse_date("2024-00-01"), None);
    assert_eq!(parse_date("2024-05-1"), None);
    assert_eq!(parse_date("2024/05/01"), None);
    assert_eq!(parse_date(""), None);
    assert_eq!(parse_date_time("2024-05-01T10:00:00"), None);
    assert_eq!(parse_date_time("2024-05-01 24:00:00"), None);
}

#[test]
fn leap_year_rules() {
    assert_eq!(parse_date("2024-02-29"), Some(date(2024, 2, 29)));
    assert_eq!(parse_date("2000-02-29"), Some(date(2000, 2, 29)));
    assert_eq!(parse_date("1900-02-29"), None);
}

#[test]
fn unix_seconds_matches_known_instants() {
    assert_eq!(dt(1970, 1, 1, 0, 0, 0).unix_seconds(), 0);
    assert_eq!(dt(1970, 1, 2, 0, 0, 0).unix_seconds(), 86_400);
    // a known timestamp: 2024-05-01 00:00:00 UTC
    assert_eq!(dt(2024, 5, 1, 0, 0, 0).unix_seconds(), 1_714_521_600);
    assert_eq!(dt(1969, 12, 31, 23, 59, 59).unix_seconds(), -1);
}

#[test]
fn removesuffix_strips_repeated_suffixes() {
    assert_eq!(removesuffix("rides.html", ".html"), "rides");
    assert_eq!(removesuffix("a.html.html", ".html"), "a");
    assert_eq!(removesuffix("plain", ".html"), "plain");
    assert_eq!(removesuffix("anything", ""), "anything");
}

#[test]
fn starts_with_is_prefix_test() {
    assert!(starts_with("2024-05-01", "2024-"));
    assert!(starts_with("2024-05-01", ""));
    assert!(!starts_with("2023-05-01", "2024-"));
    assert!(!starts_with("20", "2024-"));
}

#[test]
fn tokens_are_long_hex() {
    let t1 = create_token();
    let t2 = create_token();
    assert_eq!(t1.len(), 128);
    assert_eq!(t2.len(), 128);
    assert!(t1.chars().all(|c| c.is_ascii_hexdigit() && !c.is_ascii_uppercase()));
    // practical uniqueness: 512 bits of entropy never collide in practice
    assert_ne!(t1, t2);
}
