use std::time::Duration;

use jiff::civil::date;
use temporal_scheduler::{
    add_jitter, canonicalize_spec, next_interval_time, CalendarSpec, IntervalSpec, ScheduleSpec,
    SpecBuilder, Timestamp,
};

fn civil_date(y: i32, mo: i32, d: i32, h: i32, m: i32, s: i32) -> jiff::civil::DateTime {
    jiff::civil::DateTime::from_parts(
        date(y as i16, mo as i8, d as i8),
        jiff::civil::Time::new(h as i8, m as i8, s as i8, 0).unwrap(),
    )
}

fn ts(y: i32, mo: i32, d: i32, h: i32, m: i32, s: i32, _ns: i32) -> Timestamp {
    let dt = civil_date(y, mo, d, h, m, s);
    let zoned = jiff::tz::TimeZone::UTC.to_zoned(dt).expect("valid time");
    Timestamp::from_second(zoned.timestamp().as_second()).unwrap()
}

fn utc_hour(t: Timestamp) -> i8 {
    let timestamp = jiff::Timestamp::new(t.as_second(), t.subsec_nanosecond()).unwrap();
    timestamp.to_zoned(jiff::tz::TimeZone::UTC).datetime().hour()
}

#[test]
fn test_next_interval_time_basic() {
    let after = ts(2022, 3, 23, 12, 53, 2, 9);
    let iv = IntervalSpec {
        interval: Duration::from_secs(90 * 60),
        phase: Duration::ZERO,
    };
    let next = next_interval_time(&iv, after.as_second());
    let expected = ts(2022, 3, 23, 13, 30, 0, 0).as_second();
    assert_eq!(next, expected);
}

#[test]
fn test_next_interval_time_with_phase() {
    let after = ts(2022, 3, 23, 12, 53, 2, 9);
    let iv = IntervalSpec {
        interval: Duration::from_secs(90 * 60),
        phase: Duration::from_secs(5 * 60 + 44),
    };
    let next = next_interval_time(&iv, after.as_second());
    let expected = ts(2022, 3, 23, 13, 35, 44, 0).as_second();
    assert_eq!(next, expected);
}

#[test]
fn test_add_jitter_deterministic() {
    let t = ts(2022, 3, 23, 12, 0, 0, 0);
    let max_jitter = Duration::from_secs(3600);
    let r1 = add_jitter("seed-1", t, max_jitter);
    let r2 = add_jitter("seed-1", t, max_jitter);
    assert_eq!(r1, r2, "same seed → same result");

    let r3 = add_jitter("seed-2", t, max_jitter);
    assert_ne!(r1, r3, "different seed → different result");
}

#[test]
fn test_add_jitter_within_range() {
    let t = ts(2022, 3, 23, 12, 0, 0, 0);
    let max_jitter = Duration::from_secs(3600);
    let r = add_jitter("seed", t, max_jitter);
    let delta_secs = r.as_second() - t.as_second();
    let delta_std = Duration::from_secs(delta_secs.max(0) as u64);
    assert!(
        delta_std < max_jitter,
        "jitter must be < max_jitter, got {delta_std:?} >= {max_jitter:?}"
    );
}

#[test]
fn test_spec_interval_basic() {
    let builder = SpecBuilder::new();
    let cs = builder
        .new_compiled_spec(&ScheduleSpec {
            interval: vec![IntervalSpec {
                interval: Duration::from_secs(90 * 60),
                phase: Duration::ZERO,
            }],
            ..Default::default()
        })
        .unwrap();

    let start = ts(2022, 3, 23, 12, 53, 2, 9);
    let seq: Vec<Timestamp> = [
        ts(2022, 3, 23, 13, 30, 0, 0),
        ts(2022, 3, 23, 15, 0, 0, 0),
        ts(2022, 3, 23, 16, 30, 0, 0),
        ts(2022, 3, 23, 18, 0, 0, 0),
    ]
    .into_iter()
    .collect();

    let mut cur = start;
    for expected in &seq {
        let res = cs.get_next_time("", cur);
        assert!(res.next.is_some());
        assert_eq!(res.next.unwrap().as_second(), expected.as_second());
        cur = res.next.unwrap();
    }
}

#[test]
fn test_spec_calendar_basic() {
    let builder = SpecBuilder::new();
    let cs = builder
        .new_compiled_spec(&ScheduleSpec {
            calendar: vec![CalendarSpec {
                hour: "5,7".into(),
                minute: "23".into(),
                ..Default::default()
            }],
            ..Default::default()
        })
        .unwrap();

    let start = ts(2022, 3, 23, 3, 0, 0, 0);
    let seq = [
        ts(2022, 3, 23, 5, 23, 0, 0),
        ts(2022, 3, 23, 7, 23, 0, 0),
        ts(2022, 3, 24, 5, 23, 0, 0),
        ts(2022, 3, 24, 7, 23, 0, 0),
    ];

    let mut cur = start;
    for expected in &seq {
        let res = cs.get_next_time("", cur);
        assert!(res.next.is_some(), "should have next after {cur:?}");
        assert_eq!(res.next.unwrap().as_second(), expected.as_second());
        cur = res.next.unwrap();
    }
}

#[test]
fn test_spec_start_time() {
    let builder = SpecBuilder::new();
    let cs = builder
        .new_compiled_spec(&ScheduleSpec {
            interval: vec![IntervalSpec {
                interval: Duration::from_secs(90 * 60),
                phase: Duration::ZERO,
            }],
            start_time: Some(ts(2022, 3, 23, 12, 0, 0, 0)),
            jitter: Some(Duration::from_secs(1)),
            ..Default::default()
        })
        .unwrap();

    let start = ts(2022, 3, 23, 8, 0, 0, 0);
    let res = cs.get_next_time("", start);
    assert!(res.next.is_some());
    assert!(res.next.unwrap().as_second() >= ts(2022, 3, 23, 12, 0, 0, 0).as_second());
}

#[test]
fn test_spec_end_time() {
    let builder = SpecBuilder::new();
    let cs = builder
        .new_compiled_spec(&ScheduleSpec {
            interval: vec![IntervalSpec {
                interval: Duration::from_secs(90 * 60),
                phase: Duration::ZERO,
            }],
            end_time: Some(ts(2022, 3, 23, 14, 0, 0, 0)),
            jitter: Some(Duration::from_secs(1)),
            ..Default::default()
        })
        .unwrap();

    let start = ts(2022, 3, 23, 11, 0, 0, 0);
    let res1 = cs.get_next_time("", start);
    assert!(res1.next.is_some());

    let res2 = cs.get_next_time("", res1.next.unwrap());
    assert!(res2.next.is_some());

    let res3 = cs.get_next_time("", res2.next.unwrap());
    assert!(
        res3.next.is_none()
            || res3.next.unwrap().as_second() >= ts(2022, 3, 23, 14, 0, 0, 0).as_second(),
        "res3 = {res3:?}"
    );
}

#[test]
fn test_spec_exclude() {
    let builder = SpecBuilder::new();
    let cs = builder
        .new_compiled_spec(&ScheduleSpec {
            interval: vec![IntervalSpec {
                interval: Duration::from_secs(90 * 60),
                phase: Duration::ZERO,
            }],
            exclude_calendar: vec![CalendarSpec {
                hour: "12-14".into(),
                minute: "*".into(),
                second: "*".into(),
                ..Default::default()
            }],
            jitter: Some(Duration::from_secs(1)),
            ..Default::default()
        })
        .unwrap();

    let start = ts(2022, 3, 23, 8, 0, 0, 0);
    let res = cs.get_next_time("", start);
    assert!(res.next.is_some());
    assert_eq!(utc_hour(res.next.unwrap()), 9);
}

#[test]
fn test_exclude_all() {
    let builder = SpecBuilder::new();
    let cs = builder
        .new_compiled_spec(&ScheduleSpec {
            interval: vec![IntervalSpec {
                interval: Duration::from_secs(7 * 24 * 3600),
                phase: Duration::ZERO,
            }],
            exclude_calendar: vec![CalendarSpec {
                second: "*".into(),
                minute: "*".into(),
                hour: "*".into(),
                ..Default::default()
            }],
            ..Default::default()
        })
        .unwrap();

    let res = cs.get_next_time("", ts(2022, 3, 23, 12, 53, 2, 9));
    assert!(res.nominal.is_none(), "everything excluded → no next time");
}

#[test]
fn test_jitter_bounded_by_next_interval() {
    let builder = SpecBuilder::new();
    let cs = builder
        .new_compiled_spec(&ScheduleSpec {
            interval: vec![IntervalSpec {
                interval: Duration::from_secs(90 * 60),
                phase: Duration::ZERO,
            }],
            jitter: Some(Duration::from_secs(24 * 3600)),
            ..Default::default()
        })
        .unwrap();

    let start = ts(2022, 3, 23, 11, 0, 0, 0);
    let res = cs.get_next_time("", start);
    assert!(res.next.is_some());
    assert!(utc_hour(res.next.unwrap()) >= 12);
}

#[test]
fn test_canonicalize_full() {
    let spec = ScheduleSpec {
        calendar: vec![CalendarSpec {
            hour: "5,7".into(),
            minute: "23".into(),
            ..Default::default()
        }],
        ..Default::default()
    };
    let canonical = canonicalize_spec(&spec).unwrap();
    assert_eq!(canonical.structured_calendar.len(), 1);
    let scs = &canonical.structured_calendar[0];
    assert_eq!(scs.second.len(), 1);
    assert_eq!(scs.second[0].start, 0);
    assert_eq!(scs.hour.len(), 2);
    assert_eq!(scs.hour[0].start, 5);
    assert_eq!(scs.hour[1].start, 7);
    assert_eq!(scs.minute.len(), 1);
    assert_eq!(scs.minute[0].start, 23);
    assert_eq!(scs.day_of_month[0].start, 1);
    assert_eq!(scs.day_of_month[0].end, 31);
    assert_eq!(scs.month[0].start, 1);
    assert_eq!(scs.month[0].end, 12);
}
