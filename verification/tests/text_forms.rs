use std::time::Duration;

use temporal_scheduler::duration::MAX_NANOS;
use temporal_scheduler::error::{DurationParseError, RangeParseError};
use temporal_scheduler::{
    canonicalize_spec, make_range, parse_calendar_to_structured, parse_cron_string, parse_duration,
    validate_interval, validate_structured_calendar, CalendarSpec, IntervalSpec, ParseMode, Range,
    ScheduleSpec, SpecError, StructuredCalendarSpec,
};

fn hour(s: &str) -> Result<Vec<Range>, SpecError> {
    make_range(s, "Hour", "0", 0, 23, ParseMode::Int)
}

fn dow(s: &str) -> Vec<Range> {
    make_range(s, "DayOfWeek", "*", 0, 7, ParseMode::Dow).unwrap()
}

fn range(start: i32, end: i32, step: i32) -> Range {
    Range { start, end, step }
}

fn days(ranges: &[Range]) -> Vec<i32> {
    (0..7)
        .filter(|v| {
            ranges.iter().any(|r| {
                r.start <= *v && *v <= r.effective_end() && (v - r.start) % r.effective_step() == 0
            })
        })
        .collect()
}

fn detail(r: Result<Vec<Range>, SpecError>) -> String {
    match r {
        Err(SpecError::RangeError { field, detail }) => {
            assert_eq!(field, "Hour");
            detail
        }
        other => panic!("no range error: {other:?}"),
    }
}

fn internal(s: &str) -> String {
    match parse_duration(s) {
        Err(SpecError::Internal(text)) => text,
        other => panic!("no error: {other:?}"),
    }
}

#[test]
fn ranges_in_every_form() {
    assert_eq!(hour("*").unwrap(), vec![range(0, 23, 0)]);
    assert_eq!(hour("5").unwrap(), vec![range(5, 0, 0)]);
    assert_eq!(hour("3-7").unwrap(), vec![range(3, 7, 0)]);
    assert_eq!(hour("3-7/2").unwrap(), vec![range(3, 7, 2)]);
    assert_eq!(hour("3/5").unwrap(), vec![range(3, 23, 5)]);
    assert_eq!(hour("*/6").unwrap(), vec![range(0, 23, 6)]);
    assert_eq!(hour(" 1 , ,2 ").unwrap(), vec![range(1, 0, 0), range(2, 0, 0)]);
    assert_eq!(hour("").unwrap(), vec![range(0, 0, 0)]);
    assert_eq!(hour("  ").unwrap(), vec![range(0, 0, 0)]);
    assert_eq!(hour("4-4").unwrap(), vec![range(4, 0, 0)]);
    assert_eq!(hour("1-5/1").unwrap(), vec![range(1, 5, 0)]);
    assert_eq!(hour("+3").unwrap(), vec![range(3, 0, 0)]);
    let years = make_range("*", "Year", "*", 2000, 2100, ParseMode::Year).unwrap();
    assert!(years.is_empty());
    let years = make_range("2024-2026", "Year", "*", 2000, 2100, ParseMode::Year).unwrap();
    assert_eq!(years, vec![range(2024, 2026, 0)]);
}

#[test]
fn ranges_by_name() {
    let month = |s: &str| make_range(s, "Month", "*", 1, 12, ParseMode::Month);
    assert_eq!(month("jan").unwrap(), vec![range(1, 0, 0)]);
    assert_eq!(month("Sept").unwrap(), vec![range(9, 0, 0)]);
    assert_eq!(month("DECEMBER").unwrap(), vec![range(12, 0, 0)]);
    assert_eq!(month("mar-may").unwrap(), vec![range(3, 5, 0)]);
    assert!(month("ja").is_err());
    assert!(month("januaryx").is_err());
    assert!(month("may-mar").is_err());
    assert_eq!(dow("mo"), vec![range(1, 0, 0)]);
    assert_eq!(dow("tue-thursday"), vec![range(2, 4, 0)]);
    assert_eq!(dow("Sun"), vec![range(0, 0, 0)]);
    assert!(make_range("m", "DayOfWeek", "*", 0, 7, ParseMode::Dow).is_err());
}

#[test]
fn seven_is_sunday() {
    assert_eq!(dow("7"), vec![range(0, 0, 0)]);
    assert_eq!(dow("5-7"), vec![range(0, 0, 0), range(5, 6, 0)]);
    assert_eq!(dow("1-7"), vec![range(0, 6, 0)]);
    assert_eq!(dow("0-7"), vec![range(0, 6, 0)]);
    assert_eq!(dow("*"), vec![range(0, 6, 0)]);
    assert_eq!(dow("1-7/2"), vec![range(0, 0, 0), range(1, 6, 2)]);
    assert_eq!(dow("2-7/2"), vec![range(2, 6, 2)]);
    assert_eq!(dow("7/3"), vec![range(0, 0, 0)]);
    assert_eq!(dow("6-7"), vec![range(0, 0, 0), range(6, 0, 0)]);
    for start in 0..=7 {
        for step in 1..=8 {
            let ranges = dow(&format!("{start}-7/{step}"));
            let mut expected: Vec<i32> = (start..=7).step_by(step).map(|w| w % 7).collect();
            expected.sort();
            expected.dedup();
            assert_eq!(days(&ranges), expected, "{start}-7/{step}");
        }
    }
}

#[test]
fn range_errors() {
    assert_eq!(detail(hour("1/2/3")), "Hour has too many slashes");
    assert_eq!(detail(hour("1/")), "Hour missing step value");
    assert_eq!(detail(hour("1/x")), "invalid step");
    assert_eq!(detail(hour("1/ 2")), "invalid step");
    assert_eq!(detail(hour("1/0")), "Hour has invalid Step");
    assert_eq!(detail(hour("1/-1")), "Hour has invalid Step");
    assert_eq!(detail(hour("1-2-3")), "Hour has too many dashes");
    assert_eq!(detail(hour("x-2")), "Hour Start is not in range [0-23]");
    assert_eq!(detail(hour("-1")), "Hour Start is not in range [0-23]");
    assert_eq!(
        detail(hour("5-3")),
        "Hour End is before Start or not in range [0-23]"
    );
    assert_eq!(
        detail(hour("5-24")),
        "Hour End is before Start or not in range [0-23]"
    );
    assert_eq!(detail(hour("24")), "Hour is not in range [0-23]");
    assert_eq!(detail(hour("99999999999")), "Hour is not in range [0-23]");
    assert_eq!(detail(hour("1,99,1/2/3")), "Hour is not in range [0-23]");
    let low = make_range("x", "F", "0", -20, 5, ParseMode::Int);
    assert_eq!(
        low,
        Err(SpecError::RangeError {
            field: "F".into(),
            detail: "F is not in range [-20-5]".into()
        })
    );
}

#[test]
fn calendar_errors_are_listed_in_order() {
    let cal = CalendarSpec {
        second: "60".into(),
        year: "1999".into(),
        day_of_week: "8".into(),
        day_of_month: "0".into(),
        comment: "c".into(),
        ..Default::default()
    };
    let e = parse_calendar_to_structured(&cal).unwrap_err();
    assert_eq!(
        e,
        SpecError::InvalidCalendarSpec(
            "Second: Second is not in range [0-59], DayOfWeek: DayOfWeek is not in range [0-7], \
             DayOfMonth: DayOfMonth is not in range [1-31], Year: Year is not in range [2000-2100]"
                .into()
        )
    );
    assert!(e.to_string().starts_with("invalid calendar spec: Second: "));
}

#[test]
fn calendar_defaults() {
    let cal = CalendarSpec {
        comment: "at midnight".into(),
        ..Default::default()
    };
    let s = parse_calendar_to_structured(&cal).unwrap();
    assert_eq!(s.second, vec![range(0, 0, 0)]);
    assert_eq!(s.minute, vec![range(0, 0, 0)]);
    assert_eq!(s.hour, vec![range(0, 0, 0)]);
    assert_eq!(s.day_of_month, vec![range(1, 31, 0)]);
    assert_eq!(s.month, vec![range(1, 12, 0)]);
    assert_eq!(s.day_of_week, vec![range(0, 6, 0)]);
    assert!(s.year.is_empty());
    assert_eq!(s.comment, "at midnight");
    assert!(validate_structured_calendar(&s).is_ok());
}

#[test]
fn durations() {
    assert_eq!(parse_duration("1h30m").unwrap(), Duration::from_secs(5400));
    assert_eq!(parse_duration("1.5h").unwrap(), Duration::from_secs(5400));
    assert_eq!(parse_duration(" .5s ").unwrap(), Duration::from_millis(500));
    assert_eq!(parse_duration("2.s").unwrap(), Duration::from_secs(2));
    assert_eq!(parse_duration("0.1h").unwrap(), Duration::from_secs(360));
    assert_eq!(parse_duration("1.1s").unwrap(), Duration::from_millis(1100));
    assert_eq!(parse_duration("7u").unwrap(), Duration::from_micros(7));
    assert_eq!(parse_duration("7.9µ").unwrap(), Duration::from_micros(7));
    assert_eq!(parse_duration("9n").unwrap(), Duration::from_nanos(9));
    assert_eq!(
        parse_duration("99999999999999999999999n").unwrap(),
        Duration::from_nanos(u64::MAX)
    );
    assert_eq!(
        parse_duration("0.0000000004s").unwrap(),
        Duration::from_nanos(0)
    );
    assert_eq!(
        parse_duration("0.0000000006s").unwrap(),
        Duration::from_nanos(1)
    );
    assert_eq!(
        parse_duration("0.0009765625s").unwrap(),
        Duration::from_nanos(976_562)
    );
    assert_eq!(
        parse_duration("0.0029296875s").unwrap(),
        Duration::from_nanos(2_929_688)
    );
    assert_eq!(
        parse_duration("100000000.123456789s").unwrap(),
        Duration::new(100_000_000, 123_456_791)
    );
    assert_eq!(
        parse_duration("9007199254740993n").unwrap(),
        Duration::from_nanos(9_007_199_254_740_992)
    );
    assert_eq!(
        parse_duration("9007199254740993.00001n").unwrap(),
        Duration::from_nanos(9_007_199_254_740_994)
    );
    assert_eq!(
        parse_duration("0.99999999999999999999n").unwrap(),
        Duration::from_nanos(1)
    );
    assert_eq!(
        parse_duration("18446744073709550591s").unwrap(),
        Duration::from_secs(18_446_744_073_709_549_568)
    );
    assert_eq!(Duration::MAX.as_nanos(), MAX_NANOS);
}

#[test]
fn duration_errors() {
    assert_eq!(internal(""), "empty duration");
    assert_eq!(internal("   "), "empty duration");
    assert_eq!(internal("h"), "invalid number: ");
    assert_eq!(internal("1.2.3s"), "invalid number: 1.2.3");
    assert_eq!(internal(".s"), "invalid number: .");
    assert_eq!(internal("5d"), "unknown duration unit: d");
    assert_eq!(internal("5ms"), "invalid number: ");
    assert_eq!(internal("1h30"), "missing unit in duration: 1h30");
    assert_eq!(
        internal("18446744073709551615s"),
        "duration out of range: 18446744073709551615s"
    );
    assert_eq!(
        internal("18446744073709551616s"),
        "duration out of range: 18446744073709551616s"
    );
    assert_eq!(
        internal("9223372036854775808s9223372036854775808s"),
        "duration out of range: 9223372036854775808s9223372036854775808s"
    );
}

#[test]
fn cron_strings() {
    let (cal, iv, tz) = parse_cron_string("23 5,7 * * *").unwrap();
    let cal = cal.unwrap();
    assert!(iv.is_none());
    assert!(tz.is_none());
    assert_eq!(cal.second, vec![range(0, 0, 0)]);
    assert_eq!(cal.minute, vec![range(23, 0, 0)]);
    assert_eq!(cal.hour, vec![range(5, 0, 0), range(7, 0, 0)]);

    let (six, _, _) = parse_cron_string("23 5,7 * * * *").unwrap();
    assert_eq!(six.unwrap(), cal);
    let (seven, _, _) = parse_cron_string("0 23 5,7 * * * *").unwrap();
    assert_eq!(seven.unwrap(), cal);

    let (zoned, _, tz) = parse_cron_string(" CRON_TZ=Asia/Tokyo 0 12 * * mon # lunch ").unwrap();
    assert_eq!(tz.as_deref(), Some("Asia/Tokyo"));
    let zoned = zoned.unwrap();
    assert_eq!(zoned.comment, "lunch");
    assert_eq!(zoned.day_of_week, vec![range(1, 0, 0)]);

    let (daily, _, tz) = parse_cron_string("TZ=UTC @daily").unwrap();
    assert_eq!(tz.as_deref(), Some("UTC"));
    let (fields, _, _) = parse_cron_string("0 0 * * *").unwrap();
    assert_eq!(daily, fields);
    let (midnight, _, _) = parse_cron_string("@midnight").unwrap();
    assert_eq!(midnight, fields);
    let (dated, _, _) = parse_cron_string("1 2 3 4 * 2030").unwrap();
    let dated = dated.unwrap();
    assert_eq!(dated.day_of_month, vec![range(3, 0, 0)]);
    assert_eq!(dated.month, vec![range(4, 0, 0)]);
    assert_eq!(dated.year, vec![range(2030, 0, 0)]);
}

#[test]
fn cron_intervals() {
    let (cal, iv, tz) = parse_cron_string("@every 90m").unwrap();
    assert!(cal.is_none());
    assert!(tz.is_none());
    assert_eq!(
        iv.unwrap(),
        IntervalSpec {
            interval: Duration::from_secs(5400),
            phase: Duration::ZERO
        }
    );
    let (_, iv, tz) = parse_cron_string("TZ=Asia/Tokyo @every 3h/30m # often").unwrap();
    assert!(tz.is_none());
    assert_eq!(
        iv.unwrap(),
        IntervalSpec {
            interval: Duration::from_secs(3 * 3600),
            phase: Duration::from_secs(1800)
        }
    );
}

#[test]
fn cron_errors() {
    assert_eq!(
        parse_cron_string("TZ=UTC").unwrap_err(),
        SpecError::CronStringMissingFields
    );
    assert_eq!(
        parse_cron_string("* * * *").unwrap_err(),
        SpecError::CronStringFieldCount
    );
    assert_eq!(
        parse_cron_string("* * * * * * * *").unwrap_err(),
        SpecError::CronStringFieldCount
    );
    assert_eq!(
        parse_cron_string("@never").unwrap_err(),
        SpecError::CronStringFieldCount
    );
    assert_eq!(
        parse_cron_string("@every").unwrap_err(),
        SpecError::CronStringMissingInterval
    );
    assert_eq!(
        parse_cron_string("@every 5d").unwrap_err(),
        SpecError::RangeError {
            field: "Interval".into(),
            detail: "unknown duration unit: d".into()
        }
    );
    assert_eq!(
        parse_cron_string("@every 5m/").unwrap_err(),
        SpecError::RangeError {
            field: "Phase".into(),
            detail: "empty duration".into()
        }
    );
    assert_eq!(
        parse_cron_string("60 * * * *").unwrap_err(),
        SpecError::InvalidCalendarSpec("Minute: Minute is not in range [0-59]".into())
    );
}

#[test]
fn calendar_validation() {
    let valid = StructuredCalendarSpec {
        second: vec![range(0, 59, 7)],
        day_of_week: vec![range(0, 6, 0)],
        comment: "é".repeat(200),
        ..Default::default()
    };
    assert!(validate_structured_calendar(&valid).is_ok());
    let wrong = StructuredCalendarSpec {
        second: vec![range(60, 0, 0), range(5, 3, -1)],
        minute: vec![range(0, 60, 0)],
        month: vec![range(0, 0, 0)],
        year: vec![range(1999, 0, 0)],
        day_of_week: vec![range(7, 0, 0)],
        comment: "x".repeat(201),
        ..Default::default()
    };
    assert_eq!(
        validate_structured_calendar(&wrong).unwrap_err(),
        SpecError::InvalidCalendarSpec(
            "Second Start is not in range [0-59], \
             Second End is before Start or not in range [0-59], Second has invalid Step, \
             Minute End is before Start or not in range [0-59], \
             Month Start is not in range [1-12], Year Start is not in range [2000-2100], \
             DayOfWeek Start is not in range [0-6], comment is too long"
                .into()
        )
    );
}

#[test]
fn interval_validation() {
    let iv = |interval, phase| validate_interval(&IntervalSpec { interval, phase });
    assert_eq!(
        iv(Duration::from_millis(999), Duration::ZERO).unwrap_err(),
        SpecError::IntervalTooSmall
    );
    assert_eq!(
        iv(Duration::from_secs(5), Duration::from_nanos(5_000_000_001)).unwrap_err(),
        SpecError::PhaseExceedsInterval
    );
    assert_eq!(
        iv(Duration::from_secs(1), Duration::from_secs(1)).unwrap_err(),
        SpecError::PhaseExceedsInterval
    );
    assert!(iv(Duration::from_secs(1), Duration::from_nanos(999_999_999)).is_ok());
}

#[test]
fn canonical_form() {
    let spec = ScheduleSpec {
        calendar: vec![CalendarSpec::default()],
        exclude_calendar: vec![CalendarSpec {
            hour: "1".into(),
            ..Default::default()
        }],
        cron_string: vec![
            "TZ=Asia/Tokyo 0 1 * * *".into(),
            "TZ=Asia/Tokyo 0 2 * * *".into(),
        ],
        interval: vec![IntervalSpec {
            interval: Duration::from_secs(60),
            phase: Duration::ZERO,
        }],
        jitter: Some(Duration::from_secs(3)),
        ..Default::default()
    };
    let form = canonicalize_spec(&spec).unwrap();
    assert!(form.calendar.is_empty());
    assert!(form.exclude_calendar.is_empty());
    assert!(form.cron_string.is_empty());
    assert_eq!(form.timezone_name, "Asia/Tokyo");
    assert_eq!(form.structured_calendar.len(), 3);
    assert_eq!(form.structured_calendar[1].hour, vec![range(1, 0, 0)]);
    assert_eq!(form.structured_calendar[2].hour, vec![range(2, 0, 0)]);
    assert_eq!(form.exclude_structured_calendar.len(), 1);
    assert_eq!(form.interval.len(), 1);
    assert_eq!(form.jitter, Some(Duration::from_secs(3)));
    assert_eq!(canonicalize_spec(&form).unwrap(), form);
}

#[test]
fn canonical_form_with_cron_intervals() {
    let spec = ScheduleSpec {
        cron_string: vec!["@every 5m".into(), "@every 7m/1m".into()],
        timezone_name: "Asia/Tokyo".into(),
        ..Default::default()
    };
    let form = canonicalize_spec(&spec).unwrap();
    assert!(form.structured_calendar.is_empty());
    assert_eq!(form.interval.len(), 2);
    assert_eq!(form.interval[1].phase, Duration::from_secs(60));
    assert_eq!(form.timezone_name, "Asia/Tokyo");
}

#[test]
fn canonical_form_conflicts() {
    let conflict = |spec: ScheduleSpec| {
        assert_eq!(
            canonicalize_spec(&spec).unwrap_err(),
            SpecError::ConflictingTimezoneNames
        );
    };
    conflict(ScheduleSpec {
        cron_string: vec!["TZ=UTC 0 1 * * *".into(), "TZ=Asia/Tokyo 0 2 * * *".into()],
        ..Default::default()
    });
    conflict(ScheduleSpec {
        cron_string: vec!["TZ=UTC 0 1 * * *".into(), "0 2 * * *".into()],
        ..Default::default()
    });
    conflict(ScheduleSpec {
        cron_string: vec!["TZ=UTC 0 1 * * *".into()],
        timezone_name: "Asia/Tokyo".into(),
        ..Default::default()
    });
    conflict(ScheduleSpec {
        cron_string: vec!["TZ=UTC 0 1 * * *".into()],
        timezone_data: Some(vec![]),
        ..Default::default()
    });
    let same = ScheduleSpec {
        cron_string: vec!["TZ=UTC 0 1 * * *".into()],
        timezone_name: "UTC".into(),
        ..Default::default()
    };
    assert_eq!(canonicalize_spec(&same).unwrap().timezone_name, "UTC");
}

#[test]
fn canonical_form_validates_everything() {
    let bad = StructuredCalendarSpec {
        hour: vec![range(24, 0, 0)],
        ..Default::default()
    };
    let text = "Hour Start is not in range [0-23]";
    let with_calendar = ScheduleSpec {
        structured_calendar: vec![bad.clone()],
        ..Default::default()
    };
    assert_eq!(
        canonicalize_spec(&with_calendar).unwrap_err(),
        SpecError::InvalidCalendarSpec(text.into())
    );
    let with_exclusion = ScheduleSpec {
        exclude_structured_calendar: vec![bad],
        ..Default::default()
    };
    assert_eq!(
        canonicalize_spec(&with_exclusion).unwrap_err(),
        SpecError::InvalidCalendarSpec(text.into())
    );
    let with_interval = ScheduleSpec {
        interval: vec![IntervalSpec {
            interval: Duration::ZERO,
            phase: Duration::ZERO,
        }],
        ..Default::default()
    };
    assert_eq!(
        canonicalize_spec(&with_interval).unwrap_err(),
        SpecError::IntervalTooSmall
    );
}

#[test]
fn error_texts() {
    let texts = [
        (
            SpecError::InvalidCalendarSpec("x".into()),
            "invalid calendar spec: x",
        ),
        (SpecError::ConflictingTimezoneNames, "conflicting timezone names"),
        (
            SpecError::IntervalTooSmall,
            "interval is too small (minimum 1 second)",
        ),
        (SpecError::PhaseNegative, "phase is negative"),
        (
            SpecError::PhaseExceedsInterval,
            "phase cannot be greater than interval",
        ),
        (
            SpecError::CronStringMissingFields,
            "cron string has time zone but missing fields",
        ),
        (
            SpecError::CronStringFieldCount,
            "cron string does not have 5-7 fields",
        ),
        (
            SpecError::CronStringMissingInterval,
            "cron string does not have interval after @every",
        ),
        (
            SpecError::RangeError {
                field: "Hour".into(),
                detail: "x".into(),
            },
            "Hour: x",
        ),
        (
            SpecError::TimezoneNotFound("x".into()),
            "timezone not found: x",
        ),
        (SpecError::Internal("x".into()), "x"),
    ];
    for (error, text) in texts {
        assert_eq!(error.to_string(), text);
    }
    let cause = "x".parse::<i32>().unwrap_err();
    assert_eq!(
        RangeParseError::from(cause.clone()),
        RangeParseError::ParseInt(cause)
    );
    let cause = DurationParseError::InvalidFormat("x".into());
    assert_eq!(
        RangeParseError::from(cause.clone()),
        RangeParseError::ParseDuration(cause)
    );
}

#[test]
fn errors_in_words() {
    assert_eq!(RangeParseError::OutOfRange.to_string(), "out of range");
    let cause = "x".parse::<i32>().unwrap_err();
    assert_eq!(RangeParseError::ParseInt(cause.clone()).to_string(), cause.to_string());
    let cause = DurationParseError::InvalidFormat("5 apples".into());
    assert_eq!(cause.to_string(), "invalid duration format: 5 apples");
    assert_eq!(
        RangeParseError::ParseDuration(cause).to_string(),
        "invalid duration format: 5 apples"
    );
}

#[test]
fn lists_are_read_part_by_part() {
    for (a, b) in [("1", "2-4"), (" 7 , 9", "*/6 "), ("x", "y"), ("5", "25"), ("3,,", ", 4")] {
        let expected = match (hour(a), hour(b)) {
            (Ok(first), Ok(second)) => Ok([first, second].concat()),
            (Err(e), _) => Err(e),
            (_, Err(e)) => Err(e),
        };
        assert_eq!(hour(&format!("{a},{b}")), expected);
    }
    assert_eq!(hour("1,2-4").unwrap(), vec![range(1, 0, 0), range(2, 4, 0)]);
}

#[test]
fn open_ranges_with_a_step() {
    assert_eq!(hour("5/3").unwrap(), vec![range(5, 23, 3)]);
    assert_eq!(hour("5/3"), hour("5-23/3"));
    assert_eq!(hour("23/3"), hour("23-23/3"));
    assert_eq!(hour("*/7").unwrap(), vec![range(0, 23, 7)]);
    assert_eq!(hour("*/7"), hour("0-23/7"));
    for (x, y) in [(0, 1), (1, 1), (1, 2), (3, 4), (7, 5)] {
        assert_eq!(dow(&format!("{x}/{y}")), dow(&format!("{x}-7/{y}")));
    }
    let year = |s: &str| make_range(s, "Year", "*", 2000, 2100, ParseMode::Year).unwrap();
    assert_eq!(year("*/4"), year("2000-2100/4"));
    assert_eq!(year("2024/4"), vec![range(2024, 2100, 4)]);
}

#[test]
fn durations_add_up() {
    for (a, b) in [("1h", "30m"), ("1.5h", "2.25s7n"), (" 3s", "1h "), ("90m", "90m")] {
        let sum = parse_duration(a).unwrap() + parse_duration(b).unwrap();
        assert_eq!(parse_duration(&format!("{a}{b}")).unwrap(), sum);
    }
    let long = "18446744073709549568s";
    let rest = "2047s999999999n";
    assert_eq!(parse_duration(&format!("{long}{rest}")).unwrap(), Duration::MAX);
    assert_eq!(
        parse_duration(&format!("{long}{rest}1n")).unwrap_err(),
        SpecError::Internal(format!("duration out of range: {long}{rest}1n"))
    );
}

fn in_double_precision(number: &str, unit: char) -> Option<Duration> {
    let value: f64 = number.parse().unwrap();
    match unit {
        'h' => Duration::try_from_secs_f64(value * 3600.0).ok(),
        'm' => Duration::try_from_secs_f64(value * 60.0).ok(),
        's' => Duration::try_from_secs_f64(value).ok(),
        'u' => Some(Duration::from_micros(value as u64)),
        _ => Some(Duration::from_nanos(value as u64)),
    }
}

fn check_in_all_units(number: &str) {
    for unit in ['h', 'm', 's', 'u', 'n'] {
        let read = parse_duration(&format!("{number}{unit}")).ok();
        assert_eq!(read, in_double_precision(number, unit), "{number}{unit}");
    }
}

#[test]
fn durations_are_read_in_double_precision() {
    for number in [
        "0",
        "0.0",
        ".5",
        "5.",
        "000000000000000000000000000000000001",
        "9007199254740991",
        "9007199254740992",
        "9007199254740993",
        "9007199254740993.0",
        "9007199254740992.99999999999999999999",
        "9007199254740995",
        "4503599627370496.5",
        "4503599627370497.5",
        "4503599627370497.50000000000000000000000000000000000000001",
        "18014398509481986",
        "18014398509481986.1",
        "18446744073709550591",
        "18446744073709550592",
        "18446744073709551615",
        "18446744073709551615.9",
        "18446744073709551616",
        "0.0009765625",
        "0.0029296875",
        "0.00000000049999999999999999999",
        "0.0000000005",
        "0.1",
        "0.2",
        "0.3",
        "1.005",
        "2.675",
        "100000000.123456789",
    ] {
        check_in_all_units(number);
    }
    let tiny = format!("0.{}4940656458412465441765687928682213723651", "0".repeat(323));
    let huge = "9".repeat(400);
    for number in [tiny, format!("0.{}1", "0".repeat(1200)), huge.clone(), format!("{huge}.5")] {
        check_in_all_units(&number);
    }
}

#[test]
fn random_durations_are_read_in_double_precision() {
    let mut state: u64 = 1;
    let mut next = |below: u64| {
        state = state.wrapping_mul(6_364_136_223_846_793_005).wrapping_add(1);
        (state >> 33) % below
    };
    for _ in 0..4_000 {
        let whole = next(22);
        let fraction = next(26);
        let mut number = String::new();
        for i in 0..whole + fraction {
            if i == whole {
                number.push('.');
            }
            number.push((b'0' + next(10) as u8) as char);
        }
        if !number.is_empty() {
            check_in_all_units(&number);
        }
    }
}
