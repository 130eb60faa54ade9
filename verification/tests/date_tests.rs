use ascii_moon_phase::CalendarDate;
use ascii_moon_phase::first_char;
use ascii_moon_phase::parse_date_ymd;

#[test]
fn parse_accepts_leap_day_in_leap_year() {
    let d = parse_date_ymd("2024-02-29").unwrap();
    assert_eq!(d, CalendarDate { year: 2024, month: 2, day: 29 });
}

#[test]
fn parse_rejects_leap_day_in_common_year() {
    assert_eq!(parse_date_ymd("2023-02-29").unwrap_err(), "invalid date");
}

#[test]
fn parse_rejects_month_thirteen() {
    assert_eq!(parse_date_ymd("2024-13-01").unwrap_err(), "month out of range");
}

#[test]
fn parse_rejects_month_zero() {
    assert_eq!(parse_date_ymd("2024-00-01").unwrap_err(), "month out of range");
}

#[test]
fn parse_accepts_unpadded_fields() {
    let d = parse_date_ymd("2024-1-1").unwrap();
    assert_eq!(d, CalendarDate { year: 2024, month: 1, day: 1 });
}

#[test]
fn parse_accepts_century_rule_leap_year() {
    assert!(parse_date_ymd("2000-02-29").is_ok());
    assert_eq!(parse_date_ymd("1900-02-29").unwrap_err(), "invalid date");
}

#[test]
fn parse_rejects_wrong_field_count() {
    assert_eq!(parse_date_ymd("2024").unwrap_err(), "expected YYYY-MM-DD");
    assert_eq!(parse_date_ymd("2024-01").unwrap_err(), "expected YYYY-MM-DD");
    assert_eq!(parse_date_ymd("2024-01-01-05").unwrap_err(), "expected YYYY-MM-DD");
    assert_eq!(parse_date_ymd("").unwrap_err(), "expected YYYY-MM-DD");
}

#[test]
fn parse_rejects_non_integer_fields() {
    assert_eq!(parse_date_ymd("yyyy-01-01").unwrap_err(), "invalid year");
    assert_eq!(parse_date_ymd("2024-xx-01").unwrap_err(), "invalid month");
    assert_eq!(parse_date_ymd("2024-01-dd").unwrap_err(), "invalid day");
    assert_eq!(parse_date_ymd("-01-01").unwrap_err(), "invalid year");
}

#[test]
fn parse_rejects_fields_too_large_for_their_type() {
    // Too large for a month byte: rejected while reading the number itself.
    assert_eq!(parse_date_ymd("2024-999-01").unwrap_err(), "invalid month");
    assert_eq!(parse_date_ymd("2024-01-999").unwrap_err(), "invalid day");
    // Reads as a 32-bit year but names no supported year.
    assert_eq!(parse_date_ymd("99999-01-01").unwrap_err(), "invalid date");
    // Too large even for a 32-bit year.
    assert_eq!(parse_date_ymd("5000000000-01-01").unwrap_err(), "invalid year");
}

#[test]
fn parse_day_read_before_month_range_check() {
    // The day field is read before the month range is judged.
    assert_eq!(parse_date_ymd("2024-13-dd").unwrap_err(), "invalid day");
}

#[test]
fn parse_rejects_day_overflow_per_month() {
    assert_eq!(parse_date_ymd("2024-04-31").unwrap_err(), "invalid date");
    assert_eq!(parse_date_ymd("2024-02-30").unwrap_err(), "invalid date");
    assert_eq!(parse_date_ymd("2024-01-00").unwrap_err(), "invalid date");
    assert!(parse_date_ymd("2024-04-30").is_ok());
    assert!(parse_date_ymd("2024-12-31").is_ok());
}

#[test]
fn parse_accepts_plus_signed_fields() {
    let d = parse_date_ymd("+2024-+1-+9").unwrap();
    assert_eq!(d, CalendarDate { year: 2024, month: 1, day: 9 });
    assert_eq!(parse_date_ymd("+-01-01").unwrap_err(), "invalid year");
}

#[test]
fn first_char_takes_first_or_default() {
    assert_eq!(first_char("abc", 'x'), 'a');
    assert_eq!(first_char("", 'x'), 'x');
    assert_eq!(first_char("@", '.'), '@');
}
