use std::time::Duration;

use temporal_scheduler::calendar::BitMatcher;
use temporal_scheduler::civil::days_in_month;
use temporal_scheduler::cron::handle_predefined_cron_strings;
use temporal_scheduler::{make_range, parse_duration, ParseMode, Range};

#[test]
fn test_days_in_month() {
    assert_eq!(days_in_month(1, 2022), 31);
    assert_eq!(days_in_month(2, 2022), 28);
    assert_eq!(days_in_month(2, 2020), 29);
    assert_eq!(days_in_month(4, 2022), 30);
}

#[test]
fn test_parse_predefined_cron() {
    assert_eq!(handle_predefined_cron_strings("@hourly"), "0 * * * *");
    assert_eq!(handle_predefined_cron_strings("@daily"), "0 0 * * *");
    assert_eq!(handle_predefined_cron_strings("@weekly"), "0 0 * * 0");
    assert_eq!(handle_predefined_cron_strings("@monthly"), "0 0 1 * *");
    assert_eq!(handle_predefined_cron_strings("@yearly"), "0 0 1 1 *");
    assert_eq!(handle_predefined_cron_strings("@annually"), "0 0 1 1 *");
}

#[test]
fn test_parse_duration() {
    assert_eq!(parse_duration("90m").unwrap(), Duration::from_secs(90 * 60));
    assert_eq!(parse_duration("3h").unwrap(), Duration::from_secs(3 * 3600));
    assert_eq!(parse_duration("5m44s").unwrap(), Duration::from_secs(5 * 60 + 44));
}

#[test]
fn test_make_range_basic() {
    let r = make_range("5,7", "Hour", "0", 0, 23, ParseMode::Int).unwrap();
    assert_eq!(r.len(), 2);
    assert_eq!(r[0].start, 5);
    assert_eq!(r[1].start, 7);
}

#[test]
fn test_make_range_default() {
    let r = make_range("*", "Month", "*", 1, 12, ParseMode::Int).unwrap();
    assert_eq!(r.len(), 1);
    assert_eq!(r[0].start, 1);
}

#[test]
fn test_bit_matcher() {
    let ranges = vec![
        Range::new(1),
        Range {
            start: 3,
            end: 5,
            step: 0,
        },
    ];
    let m = BitMatcher::new(&ranges, false);
    assert!(m.matches(1));
    assert!(!m.matches(2));
    assert!(m.matches(3));
    assert!(m.matches(4));
    assert!(m.matches(5));
    assert!(!m.matches(6));
}
