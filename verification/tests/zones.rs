use std::time::Duration;

use jiff::civil::date;
use jiff::tz::TimeZone;
use temporal_scheduler::civil::{count_seconds, CivilTime};
use temporal_scheduler::{
    parse_calendar_to_structured, CalendarSpec, CompiledCalendar, CompiledSpec, IntervalSpec,
    ScheduleSpec, SpecBuilder, SpecError, StructuredCalendarSpec, Timestamp,
};

fn calendar(fields: [&str; 7]) -> StructuredCalendarSpec {
    parse_calendar_to_structured(&CalendarSpec {
        second: fields[0].into(),
        minute: fields[1].into(),
        hour: fields[2].into(),
        day_of_month: fields[3].into(),
        month: fields[4].into(),
        day_of_week: fields[5].into(),
        year: fields[6].into(),
        comment: String::new(),
    })
    .unwrap()
}

fn second(y: i16, mo: i8, d: i8, h: i8, m: i8, s: i8) -> i64 {
    date(y, mo, d)
        .at(h, m, s, 0)
        .to_zoned(TimeZone::UTC)
        .unwrap()
        .timestamp()
        .as_second()
}

fn at(y: i16, mo: i8, d: i8, h: i8, m: i8, s: i8) -> Timestamp {
    Timestamp::from_second(second(y, mo, d, h, m, s)).unwrap()
}

fn eastern() -> TimeZone {
    TimeZone::posix("EST5EDT,M3.2.0,M11.1.0").unwrap()
}

#[test]
fn counting_seconds_agrees_with_jiff() {
    for (y, mo, d) in [
        (1970, 1, 1),
        (1969, 12, 31),
        (2000, 2, 29),
        (2100, 2, 28),
        (2100, 3, 1),
        (-1, 3, 1),
        (-9999, 1, 3),
        (9999, 12, 29),
    ] {
        let c = CivilTime {
            year: y,
            month: mo,
            day: d,
            hour: 13,
            minute: 14,
            second: 15,
        };
        assert_eq!(
            count_seconds(c),
            second(y as i16, mo as i8, d as i8, 13, 14, 15)
        );
    }
}

#[test]
fn next_in_utc() {
    let cal = CompiledCalendar::new(&calendar(["0", "23", "5,7", "*", "*", "*", "*"]), TimeZone::UTC);
    let next = |t: Timestamp| cal.next(t).unwrap();
    assert_eq!(next(at(2022, 3, 23, 3, 0, 0)), at(2022, 3, 23, 5, 23, 0));
    assert_eq!(next(at(2022, 3, 23, 5, 22, 59)), at(2022, 3, 23, 5, 23, 0));
    assert_eq!(next(at(2022, 3, 23, 5, 23, 0)), at(2022, 3, 23, 7, 23, 0));
    assert_eq!(next(at(2022, 12, 31, 23, 59, 59)), at(2023, 1, 1, 5, 23, 0));
    assert!(cal.matches(at(2022, 3, 23, 5, 23, 0)));
    assert!(!cal.matches(at(2022, 3, 23, 5, 23, 1)));
    let half = Timestamp::new(second(2022, 3, 23, 5, 23, 0), 500_000_000).unwrap();
    assert!(cal.matches(half));
    assert_eq!(next(half), at(2022, 3, 23, 7, 23, 0));
    let before = Timestamp::new(second(2022, 3, 23, 5, 22, 59), 999_999_999).unwrap();
    assert_eq!(next(before), at(2022, 3, 23, 5, 23, 0));
    let old = Timestamp::new(second(1960, 1, 1, 5, 23, 0), -1).unwrap();
    assert!(!cal.matches(old));
    assert_eq!(next(old), at(1960, 1, 1, 5, 23, 0));
}

#[test]
fn next_goes_through_every_field() {
    let leap = CompiledCalendar::new(&calendar(["*", "*", "*", "29", "2", "*", "*"]), TimeZone::UTC);
    assert_eq!(
        leap.next(at(2024, 2, 29, 23, 59, 59)),
        Some(at(2028, 2, 29, 0, 0, 0))
    );
    assert_eq!(leap.next(at(2096, 2, 29, 23, 59, 59)), None);
    let friday = CompiledCalendar::new(
        &calendar(["59", "59", "23", "13", "*", "fri", "*"]),
        TimeZone::UTC,
    );
    assert_eq!(
        friday.next(at(2022, 5, 13, 23, 59, 59)),
        Some(at(2023, 1, 13, 23, 59, 59))
    );
    let years = CompiledCalendar::new(
        &calendar(["0", "0", "0", "1", "1", "*", "2030-2040/10"]),
        TimeZone::UTC,
    );
    assert_eq!(years.next(at(2022, 1, 1, 0, 0, 0)), Some(at(2030, 1, 1, 0, 0, 0)));
    assert_eq!(years.next(at(2030, 1, 1, 0, 0, 0)), Some(at(2040, 1, 1, 0, 0, 0)));
    assert_eq!(years.next(at(2040, 1, 1, 0, 0, 0)), None);
    let never = CompiledCalendar::new(&calendar(["0", "0", "0", "31", "2", "*", "*"]), TimeZone::UTC);
    assert_eq!(never.next(at(2022, 1, 1, 0, 0, 0)), None);
    let last = CompiledCalendar::new(&calendar(["*", "*", "*", "*", "*", "*", "*"]), TimeZone::UTC);
    assert_eq!(
        last.next(at(2100, 12, 31, 23, 59, 58)),
        Some(at(2100, 12, 31, 23, 59, 59))
    );
    assert_eq!(last.next(at(2100, 12, 31, 23, 59, 59)), None);
    assert_eq!(
        last.next(at(2022, 2, 28, 23, 59, 59)),
        Some(at(2022, 3, 1, 0, 0, 0))
    );
}

#[test]
fn next_when_clocks_go_forward() {
    let cal = CompiledCalendar::new(&calendar(["0", "30", "2", "*", "*", "*", "*"]), eastern());
    assert_eq!(
        cal.next(at(2022, 3, 11, 12, 0, 0)),
        Some(at(2022, 3, 12, 7, 30, 0))
    );
    assert_eq!(
        cal.next(at(2022, 3, 12, 12, 0, 0)),
        Some(at(2022, 3, 14, 6, 30, 0))
    );
    let hourly = CompiledCalendar::new(&calendar(["0", "0", "*", "*", "*", "*", "*"]), eastern());
    assert_eq!(
        hourly.next(at(2022, 3, 13, 6, 0, 0)),
        Some(at(2022, 3, 13, 7, 0, 0))
    );
}

#[test]
fn next_when_clocks_go_back() {
    let cal = CompiledCalendar::new(&calendar(["0", "30", "1", "*", "*", "*", "*"]), eastern());
    let first = at(2022, 11, 6, 5, 30, 0);
    let second = at(2022, 11, 6, 6, 30, 0);
    assert_eq!(cal.next(at(2022, 11, 6, 0, 0, 0)), Some(first));
    assert_eq!(cal.next(first), Some(second));
    assert_eq!(cal.next(second), Some(at(2022, 11, 7, 6, 30, 0)));
    assert!(cal.matches(first));
    assert!(cal.matches(second));
    let hourly = CompiledCalendar::new(&calendar(["0", "0", "*", "*", "*", "*", "*"]), eastern());
    let mut t = at(2022, 11, 6, 3, 0, 0);
    for hour in 4..9 {
        t = hourly.next(t).unwrap();
        assert_eq!(t, at(2022, 11, 6, hour, 0, 0));
    }
}

#[test]
fn next_is_the_first_match_in_a_zone() {
    let cal = CompiledCalendar::new(&calendar(["0", "*/20", "1-3", "*", "*", "*", "*"]), eastern());
    for day in [second(2022, 3, 13, 0, 0, 0), second(2022, 11, 6, 0, 0, 0)] {
        let mut t = day;
        while t < day + 86_400 {
            let found = cal.next(Timestamp::from_second(t).unwrap()).unwrap();
            let mut k = t + 1;
            while !cal.matches(Timestamp::from_second(k).unwrap()) {
                k += 1;
            }
            assert_eq!(found.as_second(), k);
            t = k;
        }
    }
}

#[test]
fn search_stays_below_the_limit() {
    let cal = CompiledCalendar::new(&calendar(["0", "0", "12", "*", "*", "*", "*"]), TimeZone::UTC);
    let start = CivilTime {
        year: 2022,
        month: 3,
        day: 31,
        hour: 12,
        minute: 0,
        second: 1,
    };
    let noon = CivilTime {
        month: 4,
        day: 1,
        second: 0,
        ..start
    };
    assert_eq!(cal.search(start, count_seconds(noon) + 1), Some(noon));
    assert_eq!(cal.search(start, count_seconds(noon)), None);
    assert_eq!(cal.search(noon, count_seconds(noon) + 1), Some(noon));
}

fn tzif_block(wide: bool, transitions: &[i64], offsets: [i32; 2]) -> Vec<u8> {
    let mut block = Vec::new();
    block.extend_from_slice(b"TZif2");
    block.extend_from_slice(&[0; 15]);
    for count in [0u32, 0, 0, transitions.len() as u32, 2, 4] {
        block.extend_from_slice(&count.to_be_bytes());
    }
    for t in transitions {
        if wide {
            block.extend_from_slice(&t.to_be_bytes());
        } else {
            block.extend_from_slice(&(*t as i32).to_be_bytes());
        }
    }
    for i in 0..transitions.len() {
        block.push(((i + 1) % 2) as u8);
    }
    for offset in offsets {
        block.extend_from_slice(&offset.to_be_bytes());
        block.extend_from_slice(&[0, 0]);
    }
    block.extend_from_slice(b"TST\0");
    block
}

/// A zone that starts with the first offset and changes to the other at each transition.
fn tzif(transitions: &[i64], offsets: [i32; 2], rule: &str) -> Vec<u8> {
    let mut data = tzif_block(false, transitions, offsets);
    data.extend_from_slice(&tzif_block(true, transitions, offsets));
    data.push(b'\n');
    data.extend_from_slice(rule.as_bytes());
    data.push(b'\n');
    data
}

fn noon() -> ScheduleSpec {
    ScheduleSpec {
        calendar: vec![CalendarSpec {
            hour: "12".into(),
            ..Default::default()
        }],
        ..Default::default()
    }
}

#[test]
fn zone_from_data() {
    let builder = SpecBuilder::default();
    let spec = ScheduleSpec {
        timezone_name: "Nowhere/Noon".into(),
        timezone_data: Some(tzif(&[], [10_800, 0], "TST-3")),
        ..noon()
    };
    let compiled = builder.new_compiled_spec(&spec).unwrap();
    let next = compiled.get_next_time("", at(2022, 3, 23, 0, 0, 0)).nominal;
    assert_eq!(next, Some(at(2022, 3, 23, 9, 0, 0)));
    assert_eq!(compiled.timezone().iana_name(), Some("Nowhere/Noon"));

    let spec = ScheduleSpec {
        timezone_data: Some(vec![1, 2, 3]),
        ..noon()
    };
    assert!(matches!(
        builder.new_compiled_spec(&spec),
        Err(SpecError::TimezoneNotFound(text)) if !text.is_empty()
    ));
}

#[test]
fn zone_by_name() {
    let builder = SpecBuilder::new();
    for name in ["", "UTC", "utc"] {
        let spec = ScheduleSpec {
            timezone_name: name.into(),
            ..noon()
        };
        let compiled = builder.new_compiled_spec(&spec).unwrap();
        let next = compiled.get_next_time("", at(2022, 3, 23, 0, 0, 0)).nominal;
        assert_eq!(next, Some(at(2022, 3, 23, 12, 0, 0)));
        assert_eq!(compiled.timezone().iana_name(), Some("UTC"));
    }
    for name in ["America/New_York", "asia/tokyo", "Etc/Unknown"] {
        let spec = ScheduleSpec {
            timezone_name: name.into(),
            ..noon()
        };
        match builder.new_compiled_spec(&spec) {
            Ok(compiled) => match compiled.timezone().iana_name() {
                Some(found) => assert!(found.eq_ignore_ascii_case(name)),
                None => assert_eq!(name, "Etc/Unknown"),
            },
            Err(SpecError::TimezoneNotFound(text)) => assert!(text.contains(name)),
            Err(other) => panic!("{other:?}"),
        }
    }
    let spec = ScheduleSpec {
        timezone_name: "Nowhere/At_All".into(),
        ..noon()
    };
    for _ in 0..2 {
        assert!(matches!(
            builder.new_compiled_spec(&spec),
            Err(SpecError::TimezoneNotFound(text)) if text.starts_with("timezone 'Nowhere/At_All': ")
        ));
    }
}

#[test]
fn compiled_in_a_given_zone() {
    let compiled = CompiledSpec::in_zone(&noon(), eastern()).unwrap();
    let copy = compiled.clone();
    for c in [compiled, copy] {
        assert_eq!(
            c.get_next_time("", at(2022, 7, 1, 0, 0, 0)).nominal,
            Some(at(2022, 7, 1, 16, 0, 0))
        );
        assert_eq!(c.canonical_form().structured_calendar.len(), 1);
    }
    let bad = ScheduleSpec {
        interval: vec![IntervalSpec {
            interval: Duration::ZERO,
            phase: Duration::ZERO,
        }],
        ..Default::default()
    };
    assert!(matches!(
        CompiledSpec::in_zone(&bad, eastern()),
        Err(SpecError::IntervalTooSmall)
    ));
}

#[test]
fn zone_with_transitions() {
    let builder = SpecBuilder::new();
    let changes = [second(2022, 3, 23, 11, 30, 0), second(2022, 3, 24, 12, 30, 0)];
    let spec = ScheduleSpec {
        timezone_data: Some(tzif(&changes, [0, 7_200], "TST0")),
        ..noon()
    };
    let compiled = builder.new_compiled_spec(&spec).unwrap();
    let next = |t: Timestamp| compiled.get_next_time("", t).nominal.unwrap();
    assert_eq!(next(at(2022, 3, 22, 0, 0, 0)), at(2022, 3, 22, 12, 0, 0));
    assert_eq!(next(at(2022, 3, 22, 12, 0, 0)), at(2022, 3, 24, 10, 0, 0));
    assert_eq!(next(at(2022, 3, 24, 10, 0, 0)), at(2022, 3, 25, 12, 0, 0));
}
