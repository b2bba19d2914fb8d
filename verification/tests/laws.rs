use std::time::Duration;

use jiff::tz::TimeZone;
use temporal_scheduler::buffer::{process_buffer, Overlappable};
use temporal_scheduler::interval::checked_next_interval_time;
use temporal_scheduler::jitter::{delay, fingerprint};
use temporal_scheduler::time::{MAX_SECOND, MIN_SECOND};
use temporal_scheduler::{
    add_jitter, clean_spec, next_interval_time, BufferedStart, CalendarSpec, CompiledCalendar,
    CompiledSpec, IntervalSpec, Range, ScheduleOverlapPolicy, ScheduleSpec, StructuredCalendarSpec,
    Timestamp,
};
use ScheduleOverlapPolicy::{
    AllowAll, BufferAll, BufferOne, CancelOther, Skip, TerminateOther, Unspecified,
};

fn every(interval: u64, phase: u64) -> IntervalSpec {
    IntervalSpec {
        interval: Duration::from_secs(interval),
        phase: Duration::from_secs(phase),
    }
}

fn at(second: i64) -> Timestamp {
    Timestamp::from_second(second).unwrap()
}

fn compile(spec: ScheduleSpec) -> CompiledSpec {
    CompiledSpec::in_zone(&spec, TimeZone::UTC).unwrap()
}

#[test]
fn timestamps() {
    assert_eq!(Timestamp::from_second(MAX_SECOND + 1), None);
    assert_eq!(Timestamp::from_second(MIN_SECOND - 1), None);
    assert_eq!(Timestamp::new(0, 1_000_000_000), None);
    assert_eq!(Timestamp::new(MIN_SECOND, -1), None);
    assert!(Timestamp::new(MAX_SECOND, 999_999_999).is_some());
    let t = Timestamp::new(-1, -500_000_000).unwrap();
    assert_eq!(t, Timestamp::new(-2, 500_000_000).unwrap());
    assert_eq!(t.as_second(), -1);
    assert_eq!(t.subsec_nanosecond(), -500_000_000);
    assert_eq!(t.second_floor(), -2);
    assert!(!t.is_whole_second());
    assert!(at(-2).is_whole_second());
    assert!(t.is_before(at(-1)));
    assert!(!at(-1).is_before(t));
    assert_eq!(
        t.checked_add(Duration::from_millis(1500)),
        Some(at(0))
    );
    assert_eq!(t.checked_sub(Duration::from_millis(500)), Some(at(-2)));
    assert_eq!(at(MAX_SECOND).checked_add(Duration::from_secs(1)), None);
    assert_eq!(at(0).checked_sub(Duration::MAX), None);
    assert_eq!(jiff::Timestamp::MIN.as_second(), MIN_SECOND);
    assert_eq!(jiff::Timestamp::MAX.as_second(), MAX_SECOND);
}

#[test]
fn ticks_are_evenly_spaced() {
    let iv = every(5400, 344);
    assert_eq!(next_interval_time(&iv, 46_382), 48_944);
    assert_eq!(next_interval_time(&iv, 48_943), 48_944);
    assert_eq!(next_interval_time(&iv, 48_944), 54_344);
    assert_eq!(next_interval_time(&iv, -1), 344);
    assert_eq!(next_interval_time(&iv, -6_000), -5_056);
    let fraction = IntervalSpec {
        interval: Duration::from_millis(2_900),
        phase: Duration::from_millis(1_900),
    };
    assert_eq!(next_interval_time(&fraction, 0), 1);
    assert_eq!(next_interval_time(&fraction, 1), 3);
    assert_eq!(next_interval_time(&every(0, 0), 7), 8);
    assert_eq!(next_interval_time(&every(u64::MAX, u64::MAX), -1), 0);
    assert_eq!(checked_next_interval_time(&every(u64::MAX, u64::MAX), 7), None);
    assert_eq!(next_interval_time(&every(1 << 63, 9), 8), 9);
    assert_eq!(next_interval_time(&every(10, (1 << 63) + 3), 0), 1);
    assert_eq!(checked_next_interval_time(&every(i64::MAX as u64, 5), 7), None);
    assert_eq!(
        checked_next_interval_time(&every(i64::MAX as u64, 0), 7),
        Some(i64::MAX)
    );
}

#[test]
fn delays_come_from_the_fingerprint() {
    let t = at(1_648_036_800);
    let hour = Duration::from_secs(3600);
    assert_eq!(delay(t, hour, 0), t);
    assert_eq!(delay(t, hour, 0x8000_0000), at(1_648_036_800 + 1800));
    assert_eq!(
        delay(t, hour, u32::MAX),
        t.checked_add(Duration::from_millis(3_599_999)).unwrap()
    );
    assert_eq!(delay(t, Duration::ZERO, u32::MAX), t);
    assert_eq!(delay(t, Duration::from_micros(999), u32::MAX), t);
    assert_eq!(
        delay(t, Duration::MAX, u32::MAX),
        t.checked_add(Duration::from_millis(u32::MAX as u64 - 1)).unwrap()
    );
    assert_eq!(delay(at(MAX_SECOND), hour, u32::MAX), at(MAX_SECOND));

    let hashed = |text: &str| farmhash::fingerprint32(text.as_bytes());
    let fractional = Timestamp::new(-3, -250_000_000).unwrap();
    let nano = Timestamp::new(0, 1).unwrap();
    assert_eq!(fingerprint("", t), hashed("2022-03-23T12:00:00Z"));
    assert_eq!(fingerprint("abc", t), hashed("2022-03-23T12:00:00Zabc"));
    assert_eq!(fingerprint("abc", fractional), hashed("1969-12-31T23:59:56.75Zabc"));
    assert_eq!(fingerprint("", nano), hashed("1970-01-01T00:00:00.000000001Z"));
    assert_eq!(
        fingerprint("abc", at(MIN_SECOND)),
        hashed("-009999-01-02T01:59:59Zabc")
    );
    let last = Timestamp::new(MAX_SECOND, 999_999_999).unwrap();
    for time in [t, fractional, nano, at(0), at(-62_167_219_200), at(MIN_SECOND), last] {
        let same = jiff::Timestamp::new(time.as_second(), time.subsec_nanosecond()).unwrap();
        for seed in ["", "a", "abcd", "schlüssel", "a seed longer than the text of the time"] {
            let expected = hashed(&(same.to_string() + seed));
            assert_eq!(fingerprint(seed, time), expected);
        }
    }
    for time in [t, fractional] {
        let expected = fingerprint("schlüssel", time);
        assert_eq!(add_jitter("schlüssel", time, hour), delay(time, hour, expected));
        let late = add_jitter("schlüssel", time, hour);
        assert!(!late.is_before(time));
        assert!(late.is_before(time.checked_add(hour).unwrap()));
    }
    assert_eq!(farmhash::fingerprint32(b"hello world"), 430_397_466);
    assert_eq!(add_jitter("x", t, Duration::ZERO), t);
}

#[test]
fn answers_stay_in_bounds() {
    let cs = compile(ScheduleSpec {
        interval: vec![every(60, 0)],
        start_time: Some(at(6_000)),
        end_time: Some(at(6_120)),
        ..Default::default()
    });
    let nominal = |t: Timestamp| cs.get_next_time("s", t).nominal;
    assert_eq!(nominal(at(0)), Some(at(6_000)));
    assert_eq!(nominal(at(5_999)), Some(at(6_000)));
    assert_eq!(nominal(at(6_000)), Some(at(6_060)));
    assert_eq!(nominal(at(6_060)), None);
    assert_eq!(cs.get_next_time("s", at(6_060)).next, None);
    assert_eq!(nominal(at(6_120)), None);
    let longer = compile(ScheduleSpec {
        interval: vec![every(60, 0)],
        end_time: Some(Timestamp::new(6_120, 1).unwrap()),
        ..Default::default()
    });
    assert_eq!(longer.get_next_time("s", at(6_060)).nominal, Some(at(6_120)));
    assert_eq!(longer.get_next_time("s", at(6_120)).nominal, None);

    let late = compile(ScheduleSpec {
        interval: vec![every(60, 0)],
        ..Default::default()
    });
    assert_eq!(
        late.get_next_time("", at(4_133_980_739)).nominal,
        Some(at(4_133_980_740))
    );
    assert_eq!(late.get_next_time("", at(4_133_980_740)).nominal, None);
}

#[test]
fn nothing_fires_before_a_start_with_a_fraction() {
    for (start, first) in [
        (Timestamp::new(10, 500_000_000).unwrap(), 11),
        (at(10), 10),
        (Timestamp::new(-10, -500_000_000).unwrap(), -10),
    ] {
        let cs = compile(ScheduleSpec {
            interval: vec![every(1, 0)],
            start_time: Some(start),
            ..Default::default()
        });
        let before = start.checked_sub(Duration::from_nanos(1)).unwrap();
        let answer = cs.get_next_time("s", at(-1000));
        assert_eq!(answer.nominal, Some(at(first)));
        assert_eq!(cs.get_next_time("s", before), answer);
        let seconds = compile(ScheduleSpec {
            cron_string: vec!["* * * * * * *".into()],
            start_time: Some(start),
            ..Default::default()
        });
        assert_eq!(seconds.get_next_time("s", before).nominal, Some(at(first)));
    }
}

#[test]
fn the_seed_moves_the_delay_only() {
    let cs = compile(ScheduleSpec {
        interval: vec![every(3600, 0)],
        jitter: Some(Duration::from_secs(86_400)),
        ..Default::default()
    });
    let a = cs.get_next_time("a", at(0));
    let b = cs.get_next_time("b", at(0));
    assert_eq!(a, cs.get_next_time("a", at(0)));
    assert_eq!(a.nominal, b.nominal);
    assert_ne!(a.next, b.next);
    assert!(a.next.unwrap().is_before(at(7200)));
    assert!(b.next.unwrap().is_before(at(7200)));
}

#[test]
fn fractions_before_1970() {
    let cs = compile(ScheduleSpec {
        interval: vec![every(1, 0)],
        ..Default::default()
    });
    let after = Timestamp::new(0, -500_000_000).unwrap();
    assert_eq!(cs.get_next_time("", after).nominal, Some(at(0)));
    let seconds = compile(ScheduleSpec {
        cron_string: vec!["* * * * * * *".into()],
        ..Default::default()
    });
    assert_eq!(seconds.get_next_time("", after).nominal, Some(at(0)));
}

#[test]
fn the_earliest_of_calendars_and_intervals() {
    let cs = compile(ScheduleSpec {
        calendar: vec![CalendarSpec {
            hour: "*".into(),
            minute: "10".into(),
            ..Default::default()
        }],
        interval: vec![every(3600, 0), every(3600, 300)],
        ..Default::default()
    });
    let mut t = at(0);
    for expected in [300, 600, 3_600, 3_900, 4_200, 7_200] {
        t = cs.get_next_time("", t).nominal.unwrap();
        assert_eq!(t, at(expected));
    }
}

#[test]
fn excluded_times_are_passed_over() {
    let cs = compile(ScheduleSpec {
        interval: vec![every(3600, 0)],
        exclude_calendar: vec![CalendarSpec {
            hour: "1-4".into(),
            minute: "*".into(),
            second: "*".into(),
            ..Default::default()
        }],
        jitter: Some(Duration::from_secs(86_400)),
        ..Default::default()
    });
    let first = cs.get_next_time("s", at(0));
    assert_eq!(first.nominal, Some(at(5 * 3600)));
    let next = first.next.unwrap();
    assert!(!next.is_before(at(5 * 3600)));
    assert!(next.is_before(at(6 * 3600)));
    let again = cs.get_next_time("s", at(0));
    assert_eq!(again, first);
    assert_eq!(
        next,
        add_jitter("s", at(5 * 3600), Duration::from_secs(3600))
    );
    let later = cs.get_next_time("s", at(4 * 3600));
    assert_eq!(later.nominal, first.nominal);
}

#[test]
fn cleaning_writes_out_defaults() {
    let range = |start: i32, end: i32, step: i32| Range { start, end, step };
    let cal = StructuredCalendarSpec {
        second: vec![range(5, 0, 0), range(0, 0, 0), range(1, 7, 3), range(9, 4, 0)],
        ..Default::default()
    };
    let mut spec = ScheduleSpec {
        structured_calendar: vec![cal.clone()],
        exclude_structured_calendar: vec![cal],
        ..Default::default()
    };
    clean_spec(&mut spec);
    let expected = vec![range(5, 5, 1), range(0, 0, 1), range(1, 7, 3), range(9, 9, 1)];
    assert_eq!(spec.structured_calendar[0].second, expected);
    assert_eq!(spec.exclude_structured_calendar[0].second, expected);
    let once = spec.clone();
    clean_spec(&mut spec);
    assert_eq!(spec, once);
}

#[test]
fn cleaning_keeps_what_matches() {
    let mut spec = ScheduleSpec {
        cron_string: vec!["5,10-20/5 3 * * *".into()],
        ..Default::default()
    };
    spec = temporal_scheduler::canonicalize_spec(&spec).unwrap();
    let before = CompiledCalendar::new(&spec.structured_calendar[0], TimeZone::UTC);
    clean_spec(&mut spec);
    let after = CompiledCalendar::new(&spec.structured_calendar[0], TimeZone::UTC);
    for minute in 0..1440 {
        assert_eq!(before.matches(at(minute * 60)), after.matches(at(minute * 60)));
    }
}

#[derive(Debug, Clone, PartialEq)]
struct Start(u32, ScheduleOverlapPolicy);

impl Overlappable for Start {
    fn overlap_policy(&self) -> ScheduleOverlapPolicy {
        self.1
    }
}

fn starts(policies: &[ScheduleOverlapPolicy]) -> Vec<Start> {
    (0..policies.len()).map(|i| Start(i as u32, policies[i])).collect()
}

fn same(p: ScheduleOverlapPolicy) -> ScheduleOverlapPolicy {
    p
}

#[test]
fn the_last_to_preempt_runs() {
    let buffer = starts(&[AllowAll, Skip, CancelOther, BufferAll, TerminateOther, Skip]);
    let r = process_buffer(&buffer, false, same);
    assert_eq!(r.non_overlapping_start, Some(buffer[4].clone()));
    assert_eq!(r.overlapping_starts, vec![buffer[0].clone()]);
    assert_eq!(r.new_buffer, vec![buffer[3].clone()]);
    assert!(!r.need_cancel && !r.need_terminate);
    assert_eq!(r.overlap_skipped, 1);
}

#[test]
fn every_start_is_accounted_for() {
    let buffer = starts(&[
        Skip, BufferOne, AllowAll, BufferOne, Skip, BufferAll, BufferOne, Unspecified,
    ]);
    let r = process_buffer(&buffer, true, same);
    assert_eq!(r.non_overlapping_start, None);
    assert_eq!(r.overlapping_starts, vec![buffer[2].clone()]);
    assert_eq!(r.new_buffer, vec![buffer[1].clone(), buffer[5].clone()]);
    assert_eq!(r.overlap_skipped, 4);
    assert_eq!(r.overlap_skipped_by_policy.len(), 2);
    assert_eq!(r.overlap_skipped_by_policy.get(&Skip.number()), Some(&2));
    assert_eq!(r.overlap_skipped_by_policy.get(&BufferOne.number()), Some(&2));
}

#[test]
fn cancelled_and_terminated_together() {
    let buffer = starts(&[AllowAll, TerminateOther, CancelOther]);
    let r = process_buffer(&buffer, true, same);
    assert!(r.need_cancel && r.need_terminate);
    assert!(r.overlapping_starts.is_empty());
    assert_eq!(r.new_buffer, vec![buffer[1].clone(), buffer[2].clone()]);
}

#[test]
fn buffered_starts() {
    let start = BufferedStart {
        nominal_time: at(60),
        actual_time: at(61),
        overlap_policy: ScheduleOverlapPolicy::Unspecified,
        manual: true,
    };
    assert_eq!(start.get_overlap_policy(), ScheduleOverlapPolicy::Unspecified);
    let r = process_buffer(&[start, start], false, |p| {
        p.resolve(ScheduleOverlapPolicy::BufferAll)
    });
    assert_eq!(r.non_overlapping_start, Some(start));
    assert_eq!(r.new_buffer, vec![start]);
    assert_eq!(
        ScheduleOverlapPolicy::Skip.resolve(ScheduleOverlapPolicy::AllowAll),
        ScheduleOverlapPolicy::Skip
    );
}

#[test]
fn waiting_starts_go_on_waiting() {
    for running in [true, false] {
        let buffer = starts(&[
            BufferOne,
            AllowAll,
            Skip,
            BufferAll,
            BufferOne,
            CancelOther,
            TerminateOther,
            BufferAll,
        ]);
        let first = process_buffer(&buffer, running, same);
        let again = process_buffer(&first.new_buffer, true, same);
        assert_eq!(again.new_buffer, first.new_buffer);
        assert!(again.overlapping_starts.is_empty());
        assert_eq!(again.non_overlapping_start, None);
        assert_eq!(again.overlap_skipped, 0);
        assert!(again.overlap_skipped_by_policy.is_empty());
        assert_eq!(again.need_cancel, first.need_cancel);
        assert_eq!(again.need_terminate, first.need_terminate);
    }
}
