use lore::time::{civil_from_days, format_ns, format_unix};

#[test]
fn epoch() {
    assert_eq!(format_unix(0), "1970-01-01 00:00:00 UTC");
}

#[test]
fn known_timestamps() {
    assert_eq!(format_unix(1_000_000_000), "2001-09-09 01:46:40 UTC");
    assert_eq!(format_unix(1_700_000_000), "2023-11-14 22:13:20 UTC");
}

#[test]
fn handles_leap_day() {
    assert_eq!(format_unix(1_582_934_400), "2020-02-29 00:00:00 UTC");
}

#[test]
fn civil_dates_at_era_and_year_edges() {
    assert_eq!(civil_from_days(0), (1970, 1, 1));
    assert_eq!(civil_from_days(59), (1970, 3, 1));
    assert_eq!(civil_from_days(10957), (2000, 1, 1));
    assert_eq!(civil_from_days(11016), (2000, 2, 29));
    assert_eq!(civil_from_days(11322), (2000, 12, 31));
    assert_eq!(civil_from_days(47540), (2100, 2, 28));
    assert_eq!(civil_from_days(47541), (2100, 3, 1));
}

#[test]
fn nanoseconds_are_shown_to_the_second() {
    assert_eq!(format_ns(1_700_000_000 * 1_000_000_000 + 999_999_999), "2023-11-14 22:13:20 UTC");
    assert_eq!(format_ns(0), "1970-01-01 00:00:00 UTC");
}

#[test]
fn far_dates_and_century_rules() {
    assert_eq!(format_unix(253_402_300_799), "9999-12-31 23:59:59 UTC");
    assert_eq!(format_unix(951_782_400), "2000-02-29 00:00:00 UTC");
    assert_eq!(format_unix(4_107_542_400), "2100-03-01 00:00:00 UTC");
    assert_eq!(format_unix(u64::MAX), format_unix(u64::MAX));
}

#[test]
fn days_before_the_epoch() {
    assert_eq!(civil_from_days(-1), (1969, 12, 31));
    assert_eq!(civil_from_days(-719_468), (0, 3, 1));
    assert_eq!(civil_from_days(-719_469), (0, 2, 29));
    assert_eq!(civil_from_days(-1_000_000), (-768, 2, 4));
    assert_eq!(civil_from_days(18_321), (2020, 2, 29));
}
