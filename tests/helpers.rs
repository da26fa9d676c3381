use heartbeat::helpers::{
    date_matches, format_relative, is_active, is_probably_asleep, start_of_day, RangeDays,
};

#[test]
fn test_format() {
    let r = format_relative(10000);
    assert_eq!(r, "2h 46m 40s ");

    let r = format_relative(20000021);
    assert_eq!(r, "7 months 18 days 9h 38m 29s ");

    let r = format_relative(40000021);
    assert_eq!(r, "1 year 3 months 6 days 9h 26m 13s ");

    let r = format_relative(1000000000);
    assert_eq!(r, "31 years 8 months 7 days 19h 17m 52s ");
}

#[test]
fn format_zero_is_just_now() {
    assert_eq!(format_relative(0), "just now");
}

#[test]
fn format_negative_is_empty() {
    assert_eq!(format_relative(-5), "");
    assert_eq!(format_relative(i64::MIN), "");
}

#[test]
fn format_single_units() {
    assert_eq!(format_relative(1), "1s ");
    assert_eq!(format_relative(60), "1m ");
    assert_eq!(format_relative(3600), "1h ");
    assert_eq!(format_relative(86400), "1 day ");
    assert_eq!(format_relative(2 * 86400), "2 days ");
    assert_eq!(format_relative(2_630_016), "1 month ");
    assert_eq!(format_relative(31_557_600), "1 year ");
    assert_eq!(format_relative(2 * 31_557_600), "2 years ");
}

#[test]
fn format_largest_value() {
    assert_eq!(
        format_relative(i64::MAX),
        "292271023045 years 3 months 23 days 1h 49m 19s "
    );
}

#[test]
fn start_of_day_truncates_to_midnight() {
    assert_eq!(start_of_day(1_700_000_000), 1_699_920_000);
    assert_eq!(start_of_day(1_699_920_000), 1_699_920_000);
    assert_eq!(start_of_day(0), 0);
    assert_eq!(start_of_day(-1), -86400);
    assert_eq!(start_of_day(-86400), -86400);
}

#[test]
fn date_matches_same_day_only() {
    assert!(date_matches(1_699_920_000, 1_700_006_399));
    assert!(!date_matches(1_699_920_000, 1_700_006_400));
    assert!(!date_matches(-1, 0));
}

#[test]
fn range_days_walks_forward() {
    let mut r = RangeDays::new(1_700_000_000, 1_700_100_000);
    assert_eq!(r.from, 1_699_920_000);
    assert_eq!(r.to, 1_700_092_800);
    assert_eq!(r.next(), Some(1_699_920_000));
    assert_eq!(r.next(), Some(1_700_006_400));
    assert_eq!(r.next(), Some(1_700_092_800));
    assert_eq!(r.next(), None);
    assert_eq!(r.next(), None);
}

#[test]
fn range_days_walks_backward() {
    let mut r = RangeDays::new(1_700_000_000, 1_700_100_000);
    assert_eq!(r.next_back(), Some(1_700_092_800));
    assert_eq!(r.next_back(), Some(1_700_006_400));
    assert_eq!(r.next(), Some(1_699_920_000));
    assert_eq!(r.next_back(), None);
}

#[test]
fn range_days_empty_when_reversed() {
    let mut r = RangeDays::new(1_700_100_000, 1_700_000_000);
    assert_eq!(r.next(), None);
    assert_eq!(r.next_back(), None);
}

#[test]
fn is_inactive() {
    assert!(!is_active(11 * 60));
}

#[test]
fn is_active_within_ten_minutes() {
    assert!(is_active(9 * 60));
    assert!(is_active(599));
    assert!(!is_active(600));
}

#[test]
fn asleep_after_four_hours() {
    assert!(!is_probably_asleep(4 * 3600));
    assert!(is_probably_asleep(4 * 3600 + 1));
}
