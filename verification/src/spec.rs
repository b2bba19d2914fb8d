//! Compiled schedules, and the next time at which one fires.
use std::time::Duration;

use jiff::tz::TimeZone;
use vstd::prelude::*;

pub use crate::canonical::{canonicalize_spec, clean_spec};
pub use crate::interval::next_interval_time;
pub use crate::jitter::add_jitter;

use crate::calendar::{
    accepted_by, calendar_fires, calendar_matches, first_fire, lemma_stands_for, seconds,
    CompiledCalendar,
};
use crate::canonical::canonical_of;
use crate::civil::{lemma_day_in_year, lemma_later_year, year_start, CivilTime};
use crate::error::{ErrorView, SpecError};
use crate::interval::{
    checked_next_interval_time, law_next_tick_is_the_first, next_tick, ticks,
};
use crate::jitter::{delayed, fingerprint32, hashed_bytes, law_delay_is_less_than_the_bound};
use crate::text::same_letters;
use crate::time::{
    duration_nanos, floor_second, from_nanos, in_time_range, total_nanos, Timestamp, MAX_SECOND,
    MIN_SECOND,
};
use crate::types::{
    structured_views, time_view, GetNextTimeResult, IntervalView, ScheduleSpec, ScheduleView,
    StructuredCalendarSpec, StructuredCalendarView, MAX_CALENDAR_YEAR,
};
use crate::zone::{
    find_zone, found_in_database, goes_by, is_looked_up, keeps_utc, law_orderly_in_part,
    local_time, not_found_text, orderly_between, tzif_reading, utc, zone_from_tzif,
    zone_identifier, zone_offsets, zone_transitions, ZoneCache,
};

verus! {

// ---------------------------------------------------------------------------
// When a schedule fires
// ---------------------------------------------------------------------------

/// Whether one of the schedule's calendars fires at second `t`.
pub open spec fn calendar_due(form: ScheduleView, tz: TimeZone, t: int) -> bool {
    exists|i: int|
        0 <= i < form.structured_calendar.len() && calendar_fires(
            #[trigger] form.structured_calendar[i],
            tz,
            t,
        )
}

/// Whether one of the schedule's intervals ticks at second `t`.
pub open spec fn tick_due(form: ScheduleView, t: int) -> bool {
    exists|i: int| 0 <= i < form.interval.len() && ticks(#[trigger] form.interval[i], t)
}

/// Whether one of the schedule's exclusion calendars matches second `t`.
pub open spec fn excluded(form: ScheduleView, tz: TimeZone, t: int) -> bool {
    exists|i: int|
        0 <= i < form.exclude_structured_calendar.len() && calendar_matches(
            #[trigger] form.exclude_structured_calendar[i],
            tz,
            t,
        )
}

/// Whether second `t` is one at which a calendar fires or an interval ticks, and comes after
/// second `after`.
pub open spec fn comes_up(form: ScheduleView, tz: TimeZone, after: int, t: int) -> bool {
    after < t && (calendar_due(form, tz, t) || tick_due(form, t))
}

/// Whether nothing comes up after second `after` and before second `limit`. Of calendars this is
/// said of the seconds up to which the time zone is orderly.
pub open spec fn nothing_before(
    form: ScheduleView,
    tz: TimeZone,
    after: int,
    limit: int,
) -> bool {
    &&& forall|k: int| after < k < limit ==> !#[trigger] tick_due(form, k)
    &&& forall|k: int|
        after < k < limit && orderly_between(tz, after + 1, k) ==> !#[trigger] calendar_due(
            form,
            tz,
            k,
        )
}

/// Whether `r` is the first second that comes up after second `after`, exclusions aside.
pub open spec fn is_raw_next(
    form: ScheduleView,
    tz: TimeZone,
    after: int,
    r: Option<int>,
) -> bool {
    match r {
        Some(t) => {
            &&& MIN_SECOND <= t <= MAX_SECOND
            &&& comes_up(form, tz, after, t)
            &&& nothing_before(form, tz, after, t)
        },
        None => nothing_before(form, tz, after, MAX_SECOND + 1),
    }
}

/// Whether second `t` is not before the schedule's end, or is after the year 2100.
pub open spec fn too_late(form: ScheduleView, t: int) -> bool {
    ||| form.end_time matches Some(end) && t * 1_000_000_000 >= end
    ||| t >= year_start(MAX_CALENDAR_YEAR + 1)
}

/// The last whole second before a point in time.
pub open spec fn second_before(nanos: int) -> int {
    (nanos - 1) / 1_000_000_000
}

/// The second after which the schedule is searched: the one that a point in time lies in, but no
/// earlier than the last whole second before the schedule's start.
pub open spec fn search_from(form: ScheduleView, after: int) -> int {
    match form.start_time {
        Some(start) => if after < start {
            second_before(start)
        } else {
            floor_second(after)
        },
        None => floor_second(after),
    }
}

/// Whether everything that comes up after second `after` and before second `limit` is excluded.
/// Of calendars this is said of the seconds up to which the time zone is orderly.
pub open spec fn all_excluded(form: ScheduleView, tz: TimeZone, after: int, limit: int) -> bool {
    &&& forall|k: int|
        after < k < limit && #[trigger] tick_due(form, k) ==> excluded(form, tz, k)
    &&& forall|k: int|
        after < k < limit && orderly_between(tz, after + 1, k) && #[trigger] calendar_due(
            form,
            tz,
            k,
        ) ==> excluded(form, tz, k)
}

/// Whether second `t` is the first after second `after` at which the schedule fires.
pub open spec fn is_nominal(form: ScheduleView, tz: TimeZone, after: int, t: int) -> bool {
    &&& MIN_SECOND <= t <= MAX_SECOND
    &&& comes_up(form, tz, after, t)
    &&& !excluded(form, tz, t)
    &&& !too_late(form, t)
    &&& all_excluded(form, tz, after, t)
}

/// Whether the schedule does not fire any more after second `after`. Of calendars this is said of
/// the seconds up to which the time zone is orderly.
pub open spec fn is_exhausted(form: ScheduleView, tz: TimeZone, after: int) -> bool {
    &&& forall|k: int|
        after < k <= MAX_SECOND && #[trigger] tick_due(form, k) ==> excluded(form, tz, k)
            || too_late(form, k)
    &&& forall|k: int|
        after < k <= MAX_SECOND && orderly_between(tz, after + 1, k) && #[trigger] calendar_due(
            form,
            tz,
            k,
        ) ==> excluded(form, tz, k) || too_late(form, k)
}

// ---------------------------------------------------------------------------
// What a schedule answers
// ---------------------------------------------------------------------------

/// The earlier of two seconds, where there are two.
pub open spec fn earlier(a: Option<int>, b: Option<int>) -> Option<int> {
    match (a, b) {
        (Some(s), Some(t)) => if t < s {
            Some(t)
        } else {
            Some(s)
        },
        (Some(s), None) => Some(s),
        (None, other) => other,
    }
}

/// The earliest second that one of some calendars finds after second `after`.
pub open spec fn calendars_next(
    cals: Seq<StructuredCalendarView>,
    tz: TimeZone,
    after: int,
) -> Option<int>
    decreases cals.len(),
{
    if cals.len() == 0 {
        None
    } else {
        earlier(
            calendars_next(cals.drop_last(), tz, after),
            first_fire(accepted_by(cals.last()), tz, after + 1),
        )
    }
}

/// The earliest second after second `after` at which one of some intervals ticks.
pub open spec fn intervals_next(intervals: Seq<IntervalView>, after: int) -> Option<int>
    decreases intervals.len(),
{
    if intervals.len() == 0 {
        None
    } else {
        let tick = next_tick(intervals.last(), after);
        earlier(
            intervals_next(intervals.drop_last(), after),
            if tick <= MAX_SECOND {
                Some(tick)
            } else {
                None
            },
        )
    }
}

/// The second that comes up next after second `after`, exclusions aside.
pub open spec fn raw_next(form: ScheduleView, tz: TimeZone, after: int) -> Option<int> {
    earlier(
        calendars_next(form.structured_calendar, tz, after),
        intervals_next(form.interval, after),
    )
}

/// The second that comes up next after second `after` and is not excluded, unless it is too late.
pub open spec fn nominal_after(form: ScheduleView, tz: TimeZone, after: int) -> Option<int>
    decreases
            (if after < MAX_SECOND {
                MAX_SECOND - after
            } else {
                0
            }),
{
    match raw_next(form, tz, after) {
        None => None,
        Some(t) => if too_late(form, t) || !(after < t <= MAX_SECOND) {
            None
        } else if excluded(form, tz, t) {
            nominal_after(form, tz, t)
        } else {
            Some(t)
        },
    }
}

/// The bound of the delay of the start at second `t`: the schedule's jitter, but no more than the
/// time until what comes up next.
pub open spec fn delay_bound(form: ScheduleView, t: int, following: Option<int>) -> int {
    let jitter = match form.jitter {
        Some(jitter) => jitter,
        None => 0,
    };
    match following {
        Some(next) => if (next - t) * 1_000_000_000 < jitter {
            (next - t) * 1_000_000_000
        } else {
            jitter
        },
        None => jitter,
    }
}

/// The start at second `t` with its delay.
pub open spec fn delayed_start(
    form: ScheduleView,
    tz: TimeZone,
    seed: Seq<char>,
    t: int,
) -> int {
    delayed(
        t * 1_000_000_000,
        delay_bound(form, t, raw_next(form, tz, t)),
        fingerprint32(hashed_bytes(seed, t * 1_000_000_000)),
    )
}

/// Whether `r` is what a schedule answers: the first second after a point in time at which it
/// fires and the delayed start, or nothing if it does not fire any more.
pub open spec fn is_next_time(
    form: ScheduleView,
    tz: TimeZone,
    seed: Seq<char>,
    after: int,
    r: GetNextTimeResult,
) -> bool {
    let from = search_from(form, after);
    match (r.nominal, r.next) {
        (Some(nominal), Some(next)) => {
            let t = floor_second(nominal@);
            &&& nominal@ == t * 1_000_000_000
            &&& nominal_after(form, tz, from) == Some(t)
            &&& is_nominal(form, tz, from, t)
            &&& next@ == delayed_start(form, tz, seed, t)
            &&& is_raw_next(form, tz, t, raw_next(form, tz, t))
        },
        (None, None) => {
            &&& nominal_after(form, tz, from) is None
            &&& is_exhausted(form, tz, from)
        },
        _ => false,
    }
}

/// A civil time is after the year 2100 if and only if it counts at least as much as the start of
/// the year 2101.
proof fn lemma_year_bounds(c: CivilTime)
    requires
        c.valid(),
    ensures
        c.year > MAX_CALENDAR_YEAR <==> c.count() >= year_start(MAX_CALENDAR_YEAR + 1),
{
    lemma_day_in_year(c);
    if c.year > MAX_CALENDAR_YEAR + 1 {
        lemma_later_year(MAX_CALENDAR_YEAR + 1, c.year as int);
    }
    if c.year < MAX_CALENDAR_YEAR {
        lemma_later_year(c.year + 1, MAX_CALENDAR_YEAR + 1);
    }
}

// ---------------------------------------------------------------------------
// CompiledSpec
// ---------------------------------------------------------------------------

/// Whether compiled calendars are what calendars in a time zone compile to, one by one.
spec fn compiled_from(
    compiled: Seq<CompiledCalendar>,
    cals: Seq<StructuredCalendarView>,
    tz: TimeZone,
) -> bool {
    &&& compiled.len() == cals.len()
    &&& forall|i: int| 0 <= i < cals.len() ==> (#[trigger] compiled[i]).stands_for(cals[i], tz)
}

/// A schedule in its canonical form, compiled to find the next time at which it fires.
pub struct CompiledSpec {
    spec: ScheduleSpec,
    tz: TimeZone,
    calendar: Vec<CompiledCalendar>,
    excludes: Vec<CompiledCalendar>,
}

/// Compiles calendars for a time zone.
fn compile_calendars(cals: &Vec<StructuredCalendarSpec>, tz: &TimeZone) -> (r: Vec<
    CompiledCalendar,
>)
    ensures
        compiled_from(r@, structured_views(cals@), *tz),
{
    let mut r: Vec<CompiledCalendar> = Vec::new();
    let mut i: usize = 0;
    while i < cals.len()
        invariant
            i <= cals.len(),
            r.len() == i,
            forall|j: int| 0 <= j < i ==> (#[trigger] r@[j]).stands_for(cals@[j]@, *tz),
        decreases cals.len() - i,
    {
        r.push(CompiledCalendar::new(&cals[i], tz.clone()));
        i = i + 1;
    }
    r
}

/// Copies compiled calendars.
fn copy_compiled(
    compiled: &Vec<CompiledCalendar>,
    Ghost(cals): Ghost<Seq<StructuredCalendarView>>,
    Ghost(tz): Ghost<TimeZone>,
) -> (r: Vec<CompiledCalendar>)
    requires
        compiled_from(compiled@, cals, tz),
    ensures
        compiled_from(r@, cals, tz),
{
    let mut r: Vec<CompiledCalendar> = Vec::new();
    let mut i: usize = 0;
    while i < compiled.len()
        invariant
            i <= compiled.len(),
            r.len() == i,
            compiled_from(compiled@, cals, tz),
            forall|j: int| 0 <= j < i ==> (#[trigger] r@[j]).stands_for(cals[j], tz),
        decreases compiled.len() - i,
    {
        assert(compiled@[i as int].stands_for(cals[i as int], tz));
        r.push(compiled[i].clone());
        i = i + 1;
    }
    r
}

impl Clone for CompiledSpec {
    fn clone(&self) -> (r: CompiledSpec)
        ensures
            r.form() == self.form(),
            r.zone() == self.zone(),
    {
        proof {
            use_type_invariant(self);
        }
        let ghost form = self.spec@;
        CompiledSpec {
            spec: self.spec.clone(),
            tz: self.tz.clone(),
            calendar: copy_compiled(
                &self.calendar,
                Ghost(form.structured_calendar),
                Ghost(self.tz),
            ),
            excludes: copy_compiled(
                &self.excludes,
                Ghost(form.exclude_structured_calendar),
                Ghost(self.tz),
            ),
        }
    }
}

impl CompiledSpec {
    #[verifier::type_invariant]
    spec fn compiled(self) -> bool {
        &&& compiled_from(self.calendar@, self.spec@.structured_calendar, self.tz)
        &&& compiled_from(self.excludes@, self.spec@.exclude_structured_calendar, self.tz)
    }

    /// The canonical form of the schedule.
    pub closed spec fn form(self) -> ScheduleView {
        self.spec@
    }

    /// The time zone of the schedule's calendars.
    pub closed spec fn zone(self) -> TimeZone {
        self.tz
    }

    /// Compiles a schedule that is in its canonical form.
    fn from_form(spec: ScheduleSpec, tz: TimeZone) -> (r: CompiledSpec)
        ensures
            r.form() == spec@,
            r.zone() == tz,
    {
        let calendar = compile_calendars(&spec.structured_calendar, &tz);
        let excludes = compile_calendars(&spec.exclude_structured_calendar, &tz);
        CompiledSpec { spec, tz, calendar, excludes }
    }

    /// Compiles a schedule for a given time zone, whatever zone the schedule names.
    pub fn in_zone(spec: &ScheduleSpec, tz: TimeZone) -> (r: Result<CompiledSpec, SpecError>)
        ensures
            match r {
                Ok(compiled) => canonical_of(spec@) == Ok::<ScheduleView, ErrorView>(
                    compiled.form(),
                ) && compiled.zone() == tz,
                Err(e) => canonical_of(spec@) == Err::<ScheduleView, ErrorView>(e@),
            },
    {
        match canonicalize_spec(spec) {
            Ok(form) => Ok(CompiledSpec::from_form(form, tz)),
            Err(e) => Err(e),
        }
    }

    /// The canonical form of the schedule.
    pub fn canonical_form(&self) -> (r: &ScheduleSpec)
        ensures
            r@ == self.form(),
    {
        &self.spec
    }

    /// The time zone of the schedule's calendars.
    pub fn timezone(&self) -> (r: &TimeZone)
        ensures
            *r == self.zone(),
    {
        &self.tz
    }

    /// The first second after `after` at which one of the schedule's calendars fires.
    fn next_from_calendars(&self, after: i64) -> (r: Option<i64>)
        requires
            MIN_SECOND <= after <= MAX_SECOND,
        ensures
            seconds(r) == calendars_next(
                self.form().structured_calendar,
                self.zone(),
                after as int,
            ),
            match r {
                Some(t) => {
                    &&& after < t <= MAX_SECOND
                    &&& calendar_due(self.form(), self.zone(), t as int)
                    &&& forall|k: int|
                        after < k < t && orderly_between(self.zone(), after + 1, k)
                            ==> !#[trigger] calendar_due(self.form(), self.zone(), k)
                },
                None => forall|k: int|
                    after < k <= MAX_SECOND && orderly_between(self.zone(), after + 1, k)
                        ==> !#[trigger] calendar_due(self.form(), self.zone(), k),
            },
    {
        proof {
            use_type_invariant(self);
        }
        let ghost cals = self.form().structured_calendar;
        let ghost tz = self.zone();
        let mut first: Option<i64> = None;
        let mut i: usize = 0;
        assert(cals.take(0) == Seq::<StructuredCalendarView>::empty());
        while i < self.calendar.len()
            invariant
                i <= self.calendar.len(),
                MIN_SECOND <= after <= MAX_SECOND,
                cals == self.form().structured_calendar,
                tz == self.zone(),
                compiled_from(self.calendar@, cals, tz),
                seconds(first) == calendars_next(cals.take(i as int), tz, after as int),
                match first {
                    Some(t) => {
                        &&& after < t <= MAX_SECOND
                        &&& calendar_due(self.form(), tz, t as int)
                        &&& forall|j: int, k: int|
                            0 <= j < i && after < k < t && orderly_between(tz, after + 1, k)
                                ==> !#[trigger] calendar_fires(cals[j], tz, k)
                    },
                    None => forall|j: int, k: int|
                        0 <= j < i && after < k <= MAX_SECOND && orderly_between(tz, after + 1, k)
                            ==> !#[trigger] calendar_fires(cals[j], tz, k),
                },
            decreases self.calendar.len() - i,
        {
            let found = self.calendar[i].next_second_after(after);
            proof {
                let compiled = self.calendar@[i as int];
                assert(compiled.stands_for(cals[i as int], tz));
                assert forall|k: int| #[trigger]
                    calendar_fires(cals[i as int], tz, k) == compiled.fires_at(k) by {
                    lemma_stands_for(compiled, cals[i as int], tz, k);
                }
                lemma_stands_for(compiled, cals[i as int], tz, 0);
                if let Some(t) = found {
                    assert(compiled.fires_at(t as int));
                    assert(calendar_fires(cals[i as int], tz, t as int));
                }
                assert(cals.take(i + 1).drop_last() == cals.take(i as int));
                assert(cals.take(i + 1).last() == cals[i as int]);
            }
            first = pick_earlier(first, found);
            i = i + 1;
        }
        assert(cals.take(cals.len() as int) == cals);
        first
    }

    /// The first second after `after` at which one of the schedule's intervals ticks.
    fn next_from_intervals(&self, after: i64) -> (r: Option<i64>)
        requires
            MIN_SECOND <= after <= MAX_SECOND,
        ensures
            seconds(r) == intervals_next(self.form().interval, after as int),
            match r {
                Some(t) => {
                    &&& after < t <= MAX_SECOND
                    &&& tick_due(self.form(), t as int)
                    &&& forall|k: int| after < k < t ==> !#[trigger] tick_due(self.form(), k)
                },
                None => forall|k: int|
                    after < k <= MAX_SECOND ==> !#[trigger] tick_due(self.form(), k),
            },
    {
        let ghost intervals = self.form().interval;
        let mut first: Option<i64> = None;
        let mut i: usize = 0;
        assert(intervals.take(0) == Seq::<IntervalView>::empty());
        while i < self.spec.interval.len()
            invariant
                i <= self.spec.interval.len(),
                intervals == self.form().interval,
                seconds(first) == intervals_next(intervals.take(i as int), after as int),
                match first {
                    Some(t) => {
                        &&& after < t <= MAX_SECOND
                        &&& tick_due(self.form(), t as int)
                        &&& forall|j: int, k: int|
                            0 <= j < i && after < k < t ==> !#[trigger] ticks(intervals[j], k)
                    },
                    None => forall|j: int, k: int|
                        0 <= j < i && after < k <= MAX_SECOND ==> !#[trigger] ticks(
                            intervals[j],
                            k,
                        ),
                },
            decreases self.spec.interval.len() - i,
        {
            let found = match checked_next_interval_time(&self.spec.interval[i], after) {
                Some(t) if t <= MAX_SECOND => Some(t),
                _ => None,
            };
            proof {
                assert(intervals[i as int] == self.spec.interval@[i as int]@);
                law_next_tick_is_the_first(intervals[i as int], after as int);
                if let Some(t) = found {
                    assert(ticks(intervals[i as int], t as int));
                }
                assert(intervals.take(i + 1).drop_last() == intervals.take(i as int));
                assert(intervals.take(i + 1).last() == intervals[i as int]);
            }
            first = pick_earlier(first, found);
            i = i + 1;
        }
        assert(intervals.take(intervals.len() as int) == intervals);
        first
    }

    /// The second that comes up next after `after`, exclusions aside.
    fn raw_next_time(&self, after: i64) -> (r: Option<i64>)
        requires
            MIN_SECOND <= after <= MAX_SECOND,
        ensures
            seconds(r) == raw_next(self.form(), self.zone(), after as int),
            is_raw_next(self.form(), self.zone(), after as int, seconds(r)),
    {
        pick_earlier(self.next_from_calendars(after), self.next_from_intervals(after))
    }

    /// Whether one of the schedule's exclusion calendars matches a second.
    fn is_excluded(&self, nominal: i64) -> (r: bool)
        requires
            MIN_SECOND <= nominal <= MAX_SECOND,
        ensures
            r == excluded(self.form(), self.zone(), nominal as int),
    {
        proof {
            use_type_invariant(self);
        }
        let ghost cals = self.form().exclude_structured_calendar;
        let ghost tz = self.zone();
        let ghost t = nominal as int;
        let mut i: usize = 0;
        while i < self.excludes.len()
            invariant
                i <= self.excludes.len(),
                MIN_SECOND <= nominal <= MAX_SECOND,
                cals == self.form().exclude_structured_calendar,
                tz == self.zone(),
                t == nominal,
                compiled_from(self.excludes@, cals, tz),
                forall|j: int| 0 <= j < i ==> !calendar_matches(#[trigger] cals[j], tz, t),
            decreases self.excludes.len() - i,
        {
            proof {
                assert(self.excludes@[i as int].stands_for(cals[i as int], tz));
                lemma_stands_for(self.excludes@[i as int], cals[i as int], tz, t);
            }
            if self.excludes[i].matches_second(nominal) {
                return true;
            }
            i = i + 1;
        }
        false
    }

    /// Whether a second is not before the schedule's end, or is after the year 2100.
    fn is_too_late(&self, t: i64) -> (r: bool)
        requires
            MIN_SECOND <= t <= MAX_SECOND,
        ensures
            r == too_late(self.form(), t as int),
    {
        let past_end = match (self.spec.end_time, Timestamp::from_second(t)) {
            (Some(end), Some(time)) => !time.is_before(end),
            _ => false,
        };
        let shown = local_time(&utc(), t);
        proof {
            lemma_year_bounds(shown);
        }
        past_end || shown.year > MAX_CALENDAR_YEAR
    }

    /// The first second after `from` at which the schedule fires.
    fn nominal_time(&self, from: i64) -> (r: Option<i64>)
        requires
            MIN_SECOND <= from <= MAX_SECOND,
        ensures
            seconds(r) == nominal_after(self.form(), self.zone(), from as int),
            match r {
                Some(t) => is_nominal(self.form(), self.zone(), from as int, t as int),
                None => is_exhausted(self.form(), self.zone(), from as int),
            },
    {
        let ghost form = self.form();
        let ghost tz = self.zone();
        let mut at: i64 = from;
        loop
            invariant
                form == self.form(),
                tz == self.zone(),
                MIN_SECOND <= from <= at <= MAX_SECOND,
                nominal_after(form, tz, from as int) == nominal_after(form, tz, at as int),
                all_excluded(form, tz, from as int, at + 1),
            decreases MAX_SECOND - at,
        {
            let found = self.raw_next_time(at);
            proof {
                let begin = from + 1;
                let here = at + 1;
                assert forall|k: int|
                    here <= k && #[trigger] orderly_between(tz, begin, k) implies orderly_between(
                    tz,
                    here,
                    k,
                ) by {
                    law_orderly_in_part(tz, begin, k, here, k);
                }
                let limit = match found {
                    Some(t) => t as int,
                    None => MAX_SECOND + 1,
                };
                assert(all_excluded(form, tz, from as int, limit));
            }
            let t: i64 = match found {
                Some(t) => t,
                None => {
                    return None;
                },
            };
            if self.is_too_late(t) {
                assert forall|k: int| t <= k implies too_late(form, k) by {}
                return None;
            }
            if !self.is_excluded(t) {
                return Some(t);
            }
            assert(all_excluded(form, tz, from as int, t + 1));
            at = t;
        }
    }

    /// The second after which the schedule is searched.
    fn search_start(&self, after: Timestamp) -> (r: i64)
        ensures
            r == search_from(self.form(), after@),
            MIN_SECOND <= r <= MAX_SECOND,
    {
        let floor: i64 = after.second_floor();
        match self.spec.start_time {
            Some(start) => if after.is_before(start) {
                if start.is_whole_second() {
                    start.second_floor() - 1
                } else {
                    start.second_floor()
                }
            } else {
                floor
            },
            None => floor,
        }
    }

    /// The bound of the delay of the start at a second.
    fn jitter_bound(&self, t: i64, following: Option<i64>) -> (r: Duration)
        requires
            MIN_SECOND <= t <= MAX_SECOND,
            following matches Some(next) ==> t < next <= MAX_SECOND,
        ensures
            duration_nanos(r) == delay_bound(
                self.form(),
                t as int,
                seconds(following),
            ),
    {
        let jitter: u128 = match self.spec.jitter {
            Some(d) => total_nanos(d),
            None => 0,
        };
        match following {
            Some(next) => {
                let gap: u128 = (next - t) as u128 * 1_000_000_000;
                if gap < jitter {
                    from_nanos(gap)
                } else {
                    from_nanos(jitter)
                }
            },
            None => from_nanos(jitter),
        }
    }

    /// The first time after a given one at which the schedule fires, and that time with its
    /// delay. Both are `None` if the schedule does not fire any more.
    ///
    /// The delay is a function of the time and of `jitter_seed`. It stays below the schedule's
    /// jitter and ends before the next time comes up.
    pub fn get_next_time(&self, jitter_seed: &str, after: Timestamp) -> (r: GetNextTimeResult)
        ensures
            is_next_time(self.form(), self.zone(), jitter_seed@, after@, r),
    {
        let from: i64 = self.search_start(after);
        let t: i64 = match self.nominal_time(from) {
            Some(t) => t,
            None => {
                return GetNextTimeResult { nominal: None, next: None };
            },
        };
        match Timestamp::from_second(t) {
            Some(nominal) => {
                let bound = self.jitter_bound(t, self.raw_next_time(t));
                let next = add_jitter(jitter_seed, nominal, bound);
                assert(floor_second(nominal@) == t);
                GetNextTimeResult { nominal: Some(nominal), next: Some(next) }
            },
            None => GetNextTimeResult { nominal: None, next: None },
        }
    }
}

/// The earlier of two seconds, where there are two.
fn pick_earlier(a: Option<i64>, b: Option<i64>) -> (r: Option<i64>)
    ensures
        seconds(r) == earlier(seconds(a), seconds(b)),
{
    match (a, b) {
        (Some(s), Some(t)) => if t < s {
            Some(t)
        } else {
            Some(s)
        },
        (Some(s), None) => Some(s),
        (None, other) => other,
    }
}

// ---------------------------------------------------------------------------
// SpecBuilder
// ---------------------------------------------------------------------------

/// The name under which a schedule's time zone is searched for: UTC if it names none.
pub open spec fn zone_to_find(form: ScheduleView) -> Seq<char> {
    if form.timezone_name.len() == 0 {
        "UTC"@
    } else {
        form.timezone_name
    }
}

/// Whether `r` is what [`find_zone`] answered under a name, its error as an error of the schedule.
pub open spec fn is_found(name: Seq<char>, r: Result<TimeZone, ErrorView>) -> bool {
    exists|asked: &str, found: Result<TimeZone, String>|
        asked@ == name && #[trigger] call_ensures(find_zone, (asked,), found) && match (found, r) {
            (Ok(a), Ok(b)) => a == b,
            (Err(a), Err(b)) => b == ErrorView::TimezoneNotFound(a@),
            _ => false,
        }
}

/// What is read from a schedule's own time zone data.
pub open spec fn is_read(
    name: Seq<char>,
    data: Seq<u8>,
    r: Result<TimeZone, ErrorView>,
) -> bool {
    match r {
        Ok(tz) => {
            &&& tzif_reading(name, data) == Ok::<
                (Map<int, int>, Map<int, Option<int>>),
                Seq<char>,
            >((zone_offsets(tz), zone_transitions(tz)))
            &&& zone_identifier(tz) == Some(name)
        },
        Err(e) => {
            &&& e is TimezoneNotFound
            &&& tzif_reading(name, data) == Err::<
                (Map<int, int>, Map<int, Option<int>>),
                Seq<char>,
            >(e->TimezoneNotFound_0)
        },
    }
}

/// Whether `r` is the time zone of a schedule, or the error if there is none: if the schedule holds
/// the zone's data, what is read from them; else what is found under its name.
pub open spec fn is_zone_of(form: ScheduleView, r: Result<TimeZone, ErrorView>) -> bool {
    match form.timezone_data {
        Some(data) => is_read(form.timezone_name, data, r),
        None => is_found(zone_to_find(form), r),
    }
}

/// The outcome, with the error as what it says.
pub open spec fn zone_view(r: Result<TimeZone, SpecError>) -> Result<TimeZone, ErrorView> {
    match r {
        Ok(tz) => Ok(tz),
        Err(e) => Err(e@),
    }
}

/// Compiles schedules. It remembers the time zones that it searched for.
pub struct SpecBuilder {
    tz_cache: ZoneCache,
}

impl SpecBuilder {
    /// How many time zones are remembered.
    pub closed spec fn capacity(self) -> int {
        self.tz_cache.capacity()
    }

    /// For how many nanoseconds a time zone is remembered.
    pub closed spec fn lifetime(self) -> int {
        self.tz_cache.lifetime()
    }

    /// A builder that remembers up to 1000 time zones for 24 hours.
    pub fn new() -> (r: SpecBuilder)
        ensures
            r.capacity() == 1000,
            r.lifetime() == 86_400_000_000_000,
    {
        SpecBuilder { tz_cache: ZoneCache::new(1000, Duration::new(86_400, 0)) }
    }

    /// The time zone of a schedule: from its data if it holds any, else by its name.
    fn load_timezone(&self, spec: &ScheduleSpec) -> (r: Result<TimeZone, SpecError>)
        ensures
            is_zone_of(spec@, zone_view(r)),
    {
        if let Some(data) = &spec.timezone_data {
            return match zone_from_tzif(spec.timezone_name.as_str(), data) {
                Ok(tz) => Ok(tz),
                Err(text) => Err(SpecError::TimezoneNotFound(text)),
            };
        }
        let name = if spec.timezone_name.as_str().is_empty() {
            "UTC"
        } else {
            spec.timezone_name.as_str()
        };
        assert(name@ == zone_to_find(spec@));
        let answer = self.tz_cache.get(name);
        let ghost (asked, found) = choose|asked: &str, found: Result<TimeZone, String>|
            asked@ == name@ && #[trigger] call_ensures(find_zone, (asked,), found) && match (
                found,
                answer,
            ) {
                (Ok(a), Ok(b)) => a == b,
                (Err(a), Err(b)) => a@ == b@,
                _ => false,
            };
        assert(call_ensures(find_zone, (asked,), found));
        match answer {
            Ok(tz) => Ok(tz),
            Err(text) => Err(SpecError::TimezoneNotFound(text)),
        }
    }

    /// Compiles a schedule: brings it into its canonical form, loads its time zone and compiles
    /// its calendars.
    ///
    /// A schedule that has a canonical form is compiled if its time zone can be loaded. From the
    /// schedule's own data it is loaded if they can be read; by name, if the machine's database
    /// has it.
    pub fn new_compiled_spec(&self, spec: &ScheduleSpec) -> (r: Result<CompiledSpec, SpecError>)
        ensures
            match canonical_of(spec@) {
                Ok(form) => match r {
                    Ok(compiled) => compiled.form() == form && is_zone_of(
                        form,
                        Ok(compiled.zone()),
                    ),
                    Err(e) => is_zone_of(form, Err(e@)),
                },
                Err(e) => r matches Err(error) && error@ == e,
            },
    {
        let form = match canonicalize_spec(spec) {
            Ok(form) => form,
            Err(e) => {
                return Err(e);
            },
        };
        match self.load_timezone(&form) {
            Ok(tz) => Ok(CompiledSpec::from_form(form, tz)),
            Err(e) => Err(e),
        }
    }
}

impl Default for SpecBuilder {
    fn default() -> (r: SpecBuilder)
        ensures
            r.capacity() == 1000,
            r.lifetime() == 86_400_000_000_000,
    {
        SpecBuilder::new()
    }
}

// ---------------------------------------------------------------------------
// Laws
// ---------------------------------------------------------------------------

/// Whether nothing is left open of when a schedule fires after second `after` and up to second
/// `to`: its time zone is orderly so long, or it has no calendars.
pub open spec fn certain(form: ScheduleView, tz: TimeZone, after: int, to: int) -> bool {
    orderly_between(tz, after + 1, to) || form.structured_calendar.len() == 0
}

/// The time zone that is found under a name goes by that name, and under the name UTC it keeps
/// UTC. If none is found, the error gives the name.
pub proof fn law_a_found_zone_goes_by_its_name(
    form: ScheduleView,
    r: Result<TimeZone, ErrorView>,
)
    requires
        form.timezone_data is None,
        is_zone_of(form, r),
    ensures
        match r {
            Ok(tz) => {
                &&& goes_by(tz, zone_to_find(form))
                &&& same_letters(zone_to_find(form), "utc"@) ==> keeps_utc(tz)
            },
            Err(e) => exists|cause: Seq<char>|
                e == ErrorView::TimezoneNotFound(
                    #[trigger] not_found_text(zone_to_find(form), cause),
                ),
        },
{
    let (asked, found) = choose|asked: &str, found: Result<TimeZone, String>|
        asked@ == zone_to_find(form) && #[trigger] call_ensures(find_zone, (asked,), found)
            && match (found, r) {
            (Ok(a), Ok(b)) => a == b,
            (Err(a), Err(b)) => b == ErrorView::TimezoneNotFound(a@),
            _ => false,
        };
    assert(found_in_database(asked@, found));
}

/// If the database answers each name in one way whenever it is asked, then what it answers is the
/// time zone of a schedule that holds no data of its own: its answer under the schedule's name, or
/// under UTC if there is none, and its reason if it has no such zone.
pub proof fn law_the_database_decides(
    database: spec_fn(Seq<char>) -> Result<TimeZone, Seq<char>>,
    form: ScheduleView,
    r: Result<TimeZone, ErrorView>,
)
    requires
        forall|name: Seq<char>, found: Result<TimeZone, String>| #[trigger]
            is_looked_up(name, found) ==> match (found, database(name)) {
                (Ok(a), Ok(b)) => a == b,
                (Err(text), Err(cause)) => text@ == not_found_text(name, cause),
                _ => false,
            },
        form.timezone_data is None,
        is_zone_of(form, r),
    ensures
        match (r, database(zone_to_find(form))) {
            (Ok(a), Ok(b)) => a == b,
            (Err(e), Err(cause)) => e == ErrorView::TimezoneNotFound(
                not_found_text(zone_to_find(form), cause),
            ),
            _ => false,
        },
{
    let (asked, found) = choose|asked: &str, found: Result<TimeZone, String>|
        asked@ == zone_to_find(form) && #[trigger] call_ensures(find_zone, (asked,), found)
            && match (found, r) {
            (Ok(a), Ok(b)) => a == b,
            (Err(a), Err(b)) => b == ErrorView::TimezoneNotFound(a@),
            _ => false,
        };
    assert(is_looked_up(asked@, found));
}

/// Where a schedule holds time zone data, they decide, whatever the database has under its name:
/// two schedules with the same name and data get zones with the same offsets and transitions, or
/// the same error.
pub proof fn law_the_data_decide(
    a: ScheduleView,
    b: ScheduleView,
    of_a: Result<TimeZone, ErrorView>,
    of_b: Result<TimeZone, ErrorView>,
)
    requires
        a.timezone_data is Some,
        a.timezone_data == b.timezone_data,
        a.timezone_name == b.timezone_name,
        is_zone_of(a, of_a),
        is_zone_of(b, of_b),
    ensures
        match (of_a, of_b) {
            (Ok(x), Ok(y)) => {
                &&& zone_offsets(x) == zone_offsets(y)
                &&& zone_transitions(x) == zone_transitions(y)
                &&& zone_identifier(x) == zone_identifier(y)
            },
            (Err(x), Err(y)) => x == y,
            _ => false,
        },
{
}

/// A delayed start comes no earlier, and later by less than the bound.
proof fn lemma_delayed_start(form: ScheduleView, tz: TimeZone, seed: Seq<char>, t: int)
    requires
        form.jitter matches Some(jitter) ==> jitter >= 0,
        raw_next(form, tz, t) matches Some(f) ==> t < f,
    ensures
        ({
            let start = t * 1_000_000_000;
            let bound = delay_bound(form, t, raw_next(form, tz, t));
            let next = delayed_start(form, tz, seed, t);
            &&& bound >= 0
            &&& start <= next
            &&& next < start + bound || next == start
        }),
{
    law_delay_is_less_than_the_bound(
        t * 1_000_000_000,
        delay_bound(form, t, raw_next(form, tz, t)),
        fingerprint32(hashed_bytes(seed, t * 1_000_000_000)),
    );
}

/// A schedule answers a time after the one given. The delayed start comes no earlier than that
/// time.
pub proof fn law_answer_comes_later(
    form: ScheduleView,
    tz: TimeZone,
    seed: Seq<char>,
    after: int,
    r: GetNextTimeResult,
)
    requires
        is_next_time(form, tz, seed, after, r),
        form.jitter matches Some(jitter) ==> jitter >= 0,
        r.nominal is Some,
    ensures
        after < r.nominal->Some_0@ <= r.next->Some_0@,
{
    lemma_delayed_start(form, tz, seed, floor_second(r.nominal->Some_0@));
}

/// A schedule does not fire before its start.
pub proof fn law_nothing_fires_before_the_start(
    form: ScheduleView,
    tz: TimeZone,
    seed: Seq<char>,
    after: int,
    r: GetNextTimeResult,
)
    requires
        form.start_time is Some,
        is_next_time(form, tz, seed, after, r),
        r.nominal is Some,
    ensures
        form.start_time->Some_0 <= r.nominal->Some_0@,
{
}

/// Before its start, a schedule answers as it does at any other time before its start.
pub proof fn law_before_the_start_all_questions_are_one(
    form: ScheduleView,
    tz: TimeZone,
    seed: Seq<char>,
    after: int,
    other: int,
    a: GetNextTimeResult,
    b: GetNextTimeResult,
)
    requires
        form.start_time matches Some(start) && after < start && other < start,
        is_next_time(form, tz, seed, after, a),
        is_next_time(form, tz, seed, other, b),
    ensures
        time_view(a.nominal) == time_view(b.nominal),
        time_view(a.next) == time_view(b.next),
{
}

/// A schedule does not fire at its end or after it, nor after the year 2100, nor at an excluded
/// time.
pub proof fn law_nothing_fires_out_of_bounds(
    form: ScheduleView,
    tz: TimeZone,
    seed: Seq<char>,
    after: int,
    r: GetNextTimeResult,
)
    requires
        is_next_time(form, tz, seed, after, r),
        r.nominal is Some,
    ensures
        form.end_time matches Some(end) ==> r.nominal->Some_0@ < end,
        r.nominal->Some_0@ < year_start(2101) * 1_000_000_000,
        !excluded(form, tz, floor_second(r.nominal->Some_0@)),
{
}

/// A start is delayed by less than the schedule's jitter, and it comes before what comes up next.
/// It comes before anything that comes up later, where nothing is left open until then.
pub proof fn law_delay_ends_before_the_next_time(
    form: ScheduleView,
    tz: TimeZone,
    seed: Seq<char>,
    after: int,
    r: GetNextTimeResult,
    k: int,
)
    requires
        is_next_time(form, tz, seed, after, r),
        r.nominal is Some,
        form.jitter matches Some(jitter) ==> jitter >= 0,
    ensures
        ({
            let delay = r.next->Some_0@ - r.nominal->Some_0@;
            match form.jitter {
                Some(jitter) => 0 <= delay <= jitter && (jitter > 0 ==> delay < jitter),
                None => delay == 0,
            }
        }),
        raw_next(form, tz, floor_second(r.nominal->Some_0@)) matches Some(f)
            ==> r.next->Some_0@ < f * 1_000_000_000,
        ({
            let t = floor_second(r.nominal->Some_0@);
            k <= MAX_SECOND && certain(form, tz, t, k) && comes_up(form, tz, t, k)
        }) ==> r.next->Some_0@ < k * 1_000_000_000,
{
    let t = floor_second(r.nominal->Some_0@);
    lemma_delayed_start(form, tz, seed, t);
    if k <= MAX_SECOND && certain(form, tz, t, k) && comes_up(form, tz, t, k) {
        assert(raw_next(form, tz, t) matches Some(f) && f <= k);
    }
}

/// Asked the same twice, a schedule answers the same. The seed moves the delayed start only.
pub proof fn law_same_question_same_answer(
    form: ScheduleView,
    tz: TimeZone,
    seed: Seq<char>,
    other: Seq<char>,
    after: int,
    a: GetNextTimeResult,
    b: GetNextTimeResult,
)
    requires
        is_next_time(form, tz, seed, after, a),
        is_next_time(form, tz, other, after, b),
    ensures
        time_view(a.nominal) == time_view(b.nominal),
        seed == other ==> time_view(a.next) == time_view(b.next),
{
}

/// Asked for a later time, a schedule does not answer an earlier one, where nothing is left open
/// until then.
pub proof fn law_later_question_later_answer(
    form: ScheduleView,
    tz: TimeZone,
    seed: Seq<char>,
    after: int,
    later: int,
    a: GetNextTimeResult,
    b: GetNextTimeResult,
)
    requires
        after <= later,
        is_next_time(form, tz, seed, after, a),
        is_next_time(form, tz, seed, later, b),
        b.nominal matches Some(m) ==> certain(
            form,
            tz,
            search_from(form, after),
            floor_second(m@),
        ),
    ensures
        a.nominal is None ==> b.nominal is None,
        a.nominal is Some && b.nominal is Some ==> a.nominal->Some_0@ <= b.nominal->Some_0@,
{
    let from = search_from(form, after);
    assert(from <= search_from(form, later));
    if let Some(m) = b.nominal {
        assert(comes_up(form, tz, from, floor_second(m@)));
    }
}

/// What a schedule answers is the first second that counts: whatever else comes up after the time
/// from which it searches is excluded, too late, or not earlier, where nothing is left open until
/// then. A schedule that answers nothing never fires again.
pub proof fn law_answer_is_the_first(
    form: ScheduleView,
    tz: TimeZone,
    seed: Seq<char>,
    after: int,
    r: GetNextTimeResult,
    k: int,
)
    requires
        is_next_time(form, tz, seed, after, r),
        certain(form, tz, search_from(form, after), k),
        k <= MAX_SECOND,
        comes_up(form, tz, search_from(form, after), k),
        !excluded(form, tz, k),
        !too_late(form, k),
    ensures
        r.nominal is Some,
        r.nominal->Some_0@ <= k * 1_000_000_000,
{
}

} // verus!
