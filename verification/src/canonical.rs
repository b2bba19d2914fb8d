//! Bringing a schedule into its canonical form.
use vstd::prelude::*;

use crate::calendar::{calendar_accepts, years_have};
use crate::civil::{weekday_of, CivilTime};
use crate::cron::{cron_of, parse_cron_string, CronView};
use crate::error::{ErrorView, SpecError};
use crate::range::{
    calendar_faults, interval_fault, law_valid_means_well_formed,
    parse_calendar_to_structured, structured_of, validate_interval, validate_structured_calendar,
    well_formed, within,
};
use crate::text::{joined, same_string, strings};
use crate::types::{
    calendar_views, copy_bytes, copy_intervals, copy_structured, interval_views, ranges_have,
    structured_views, CalendarSpec, CalendarView, IntervalSpec, IntervalView, Range, ScheduleSpec,
    ScheduleView, StructuredCalendarSpec, StructuredCalendarView, MAX_CALENDAR_YEAR,
    MIN_CALENDAR_YEAR,
};

verus! {

// ---------------------------------------------------------------------------
// The canonical form
// ---------------------------------------------------------------------------

/// The calendars that calendars in text form write, or what is wrong with the first that cannot
/// be read.
pub open spec fn all_structured(cals: Seq<CalendarView>) -> Result<
    Seq<StructuredCalendarView>,
    ErrorView,
>
    decreases cals.len(),
{
    if cals.len() == 0 {
        Ok(Seq::empty())
    } else {
        match all_structured(cals.drop_last()) {
            Err(e) => Err(e),
            Ok(before) => match structured_of(cals.last()) {
                Err(e) => Err(e),
                Ok(cal) => Ok(before.push(cal)),
            },
        }
    }
}

/// What cron strings say, or what is wrong with the first that cannot be read or that names
/// another time zone than the first.
pub open spec fn all_crons(crons: Seq<Seq<char>>) -> Result<Seq<CronView>, ErrorView>
    decreases crons.len(),
{
    if crons.len() == 0 {
        Ok(Seq::empty())
    } else {
        match all_crons(crons.drop_last()) {
            Err(e) => Err(e),
            Ok(before) => match cron_of(crons.last()) {
                Err(e) => Err(e),
                Ok(said) => if before.len() > 0 && before[0].timezone != said.timezone {
                    Err(ErrorView::ConflictingTimezoneNames)
                } else {
                    Ok(before.push(said))
                },
            },
        }
    }
}

/// The calendars among what cron strings say.
pub open spec fn cron_calendars(crons: Seq<CronView>) -> Seq<StructuredCalendarView>
    decreases crons.len(),
{
    if crons.len() == 0 {
        Seq::empty()
    } else {
        match crons.last().calendar {
            Some(cal) => cron_calendars(crons.drop_last()).push(cal),
            None => cron_calendars(crons.drop_last()),
        }
    }
}

/// The intervals among what cron strings say.
pub open spec fn cron_intervals(crons: Seq<CronView>) -> Seq<IntervalView>
    decreases crons.len(),
{
    if crons.len() == 0 {
        Seq::empty()
    } else {
        match crons.last().interval {
            Some(iv) => cron_intervals(crons.drop_last()).push(iv),
            None => cron_intervals(crons.drop_last()),
        }
    }
}

/// The time zone that cron strings name; empty if they name none.
pub open spec fn cron_zone(crons: Seq<CronView>) -> Seq<char> {
    if crons.len() > 0 && crons[0].timezone is Some {
        crons[0].timezone->Some_0
    } else {
        Seq::empty()
    }
}

/// The name of a schedule's time zone, given what its cron strings name.
pub open spec fn zone_name(spec: ScheduleView, from_crons: Seq<char>) -> Result<
    Seq<char>,
    ErrorView,
> {
    if from_crons.len() == 0 {
        Ok(spec.timezone_name)
    } else if spec.timezone_data is Some || (spec.timezone_name.len() > 0 && spec.timezone_name
        != from_crons) {
        Err(ErrorView::ConflictingTimezoneNames)
    } else {
        Ok(from_crons)
    }
}

/// What is wrong with the first calendar that is not valid.
pub open spec fn first_calendar_fault(cals: Seq<StructuredCalendarView>) -> Option<ErrorView>
    decreases cals.len(),
{
    if cals.len() == 0 {
        None
    } else {
        match first_calendar_fault(cals.drop_last()) {
            Some(e) => Some(e),
            None => if calendar_faults(cals.last()).len() > 0 {
                Some(ErrorView::InvalidCalendarSpec(joined(calendar_faults(cals.last()), ", "@)))
            } else {
                None
            },
        }
    }
}

/// What is wrong with the first interval that is not valid.
pub open spec fn first_interval_fault(intervals: Seq<IntervalView>) -> Option<ErrorView>
    decreases intervals.len(),
{
    if intervals.len() == 0 {
        None
    } else {
        match first_interval_fault(intervals.drop_last()) {
            Some(e) => Some(e),
            None => interval_fault(intervals.last()),
        }
    }
}

/// What is wrong with a schedule without text forms: with its calendars, its exclusion calendars
/// or its intervals.
pub open spec fn first_fault(spec: ScheduleView) -> Option<ErrorView> {
    match first_calendar_fault(spec.structured_calendar) {
        Some(e) => Some(e),
        None => match first_calendar_fault(spec.exclude_structured_calendar) {
            Some(e) => Some(e),
            None => first_interval_fault(spec.interval),
        },
    }
}

/// The schedule with its text forms replaced by what they say.
pub open spec fn without_text(
    spec: ScheduleView,
    cals: Seq<StructuredCalendarView>,
    excludes: Seq<StructuredCalendarView>,
    crons: Seq<CronView>,
    name: Seq<char>,
) -> ScheduleView {
    ScheduleView {
        structured_calendar: spec.structured_calendar + cals + cron_calendars(crons),
        exclude_structured_calendar: spec.exclude_structured_calendar + excludes,
        interval: spec.interval + cron_intervals(crons),
        cron_string: Seq::empty(),
        calendar: Seq::empty(),
        exclude_calendar: Seq::empty(),
        start_time: spec.start_time,
        end_time: spec.end_time,
        jitter: spec.jitter,
        timezone_name: name,
        timezone_data: spec.timezone_data,
    }
}

/// The canonical form of a schedule, or the first thing that is wrong with it: its calendars,
/// its exclusion calendars and its cron strings are read, its time zone is settled, and what
/// came out is validated.
pub open spec fn canonical_of(spec: ScheduleView) -> Result<ScheduleView, ErrorView> {
    match all_structured(spec.calendar) {
        Err(e) => Err(e),
        Ok(cals) => match all_structured(spec.exclude_calendar) {
            Err(e) => Err(e),
            Ok(excludes) => match all_crons(spec.cron_string) {
                Err(e) => Err(e),
                Ok(crons) => match zone_name(spec, cron_zone(crons)) {
                    Err(e) => Err(e),
                    Ok(name) => {
                        let form = without_text(spec, cals, excludes, crons, name);
                        match first_fault(form) {
                            Some(e) => Err(e),
                            None => Ok(form),
                        }
                    },
                },
            },
        },
    }
}

// ---------------------------------------------------------------------------
// Computing it
// ---------------------------------------------------------------------------

/// Appends the calendars that calendars in text form write.
#[verifier::rlimit(30)]
fn parse_calendars(cals: &Vec<CalendarSpec>, out: &mut Vec<StructuredCalendarSpec>) -> (r: Result<
    (),
    SpecError,
>)
    ensures
        match r {
            Ok(_) => all_structured(calendar_views(cals@)) matches Ok(added) && structured_views(
                final(out)@,
            ) == structured_views(old(out)@) + added,
            Err(e) => all_structured(calendar_views(cals@)) == Err::<
                Seq<StructuredCalendarView>,
                ErrorView,
            >(e@),
        },
{
    let ghost all = calendar_views(cals@);
    let ghost before = structured_views(out@);
    assert(before + Seq::<StructuredCalendarView>::empty() == before);
    assert(all.take(0) == Seq::<CalendarView>::empty());
    let mut i: usize = 0;
    while i < cals.len()
        invariant
            i <= cals.len(),
            all == calendar_views(cals@),
            all_structured(all.take(i as int)) matches Ok(added) && structured_views(out@) == before
                + added,
        decreases cals.len() - i,
    {
        let ghost added = all_structured(all.take(i as int))->Ok_0;
        assert(all.take(i + 1).drop_last() == all.take(i as int));
        assert(all.take(i + 1).last() == cals@[i as int]@);
        match parse_calendar_to_structured(&cals[i]) {
            Ok(cal) => {
                let ghost now = out@;
                out.push(cal);
                assert(structured_views(out@) == structured_views(now).push(cal@));
                assert(structured_views(out@) == before + added.push(cal@));
            },
            Err(e) => {
                proof {
                    lemma_first_calendar_error(all, i + 1, e@);
                }
                return Err(e);
            },
        }
        i = i + 1;
    }
    assert(all.take(all.len() as int) == all);
    Ok(())
}

/// What is wrong with the first calendars is what is wrong with all of them.
pub(crate) proof fn lemma_first_calendar_error(cals: Seq<CalendarView>, n: int, e: ErrorView)
    requires
        0 <= n <= cals.len(),
        all_structured(cals.take(n)) == Err::<Seq<StructuredCalendarView>, ErrorView>(e),
    ensures
        all_structured(cals) == Err::<Seq<StructuredCalendarView>, ErrorView>(e),
    decreases cals.len() - n,
{
    if n == cals.len() {
        assert(cals.take(n) == cals);
    } else {
        assert(cals.take(n + 1).drop_last() == cals.take(n));
        lemma_first_calendar_error(cals, n + 1, e);
    }
}

/// What is wrong with the first cron strings is what is wrong with all of them.
pub(crate) proof fn lemma_first_cron_error(crons: Seq<Seq<char>>, n: int, e: ErrorView)
    requires
        0 <= n <= crons.len(),
        all_crons(crons.take(n)) == Err::<Seq<CronView>, ErrorView>(e),
    ensures
        all_crons(crons) == Err::<Seq<CronView>, ErrorView>(e),
    decreases crons.len() - n,
{
    if n == crons.len() {
        assert(crons.take(n) == crons);
    } else {
        assert(crons.take(n + 1).drop_last() == crons.take(n));
        lemma_first_cron_error(crons, n + 1, e);
    }
}

/// Whether two names of time zones are the same, or both are missing.
fn same_zone(a: &Option<String>, b: &Option<String>) -> (r: bool)
    ensures
        r == (name_view(*a) == name_view(*b)),
{
    match (a, b) {
        (Some(a), Some(b)) => same_string(a.as_str(), b.as_str()),
        (None, None) => true,
        _ => false,
    }
}

/// The name, if there is one.
pub open spec fn name_view(name: Option<String>) -> Option<Seq<char>> {
    match name {
        Some(name) => Some(name@),
        None => None,
    }
}

/// Appends the calendars and the intervals that cron strings say. Gives back the time zone that
/// they name; `None` if there are no cron strings or they name none.
fn parse_crons(
    crons: &Vec<String>,
    calendars: &mut Vec<StructuredCalendarSpec>,
    intervals: &mut Vec<IntervalSpec>,
) -> (r: Result<Option<String>, SpecError>)
    ensures
        match r {
            Ok(zone) => all_crons(strings(crons@)) matches Ok(said) && {
                &&& structured_views(final(calendars)@) == structured_views(old(calendars)@)
                    + cron_calendars(said)
                &&& interval_views(final(intervals)@) == interval_views(old(intervals)@)
                    + cron_intervals(said)
                &&& name_view(zone) == (if said.len() > 0 {
                    said[0].timezone
                } else {
                    None
                })
            },
            Err(e) => all_crons(strings(crons@)) == Err::<Seq<CronView>, ErrorView>(e@),
        },
{
    let ghost all = strings(crons@);
    let ghost calendars_before = structured_views(calendars@);
    let ghost intervals_before = interval_views(intervals@);
    assert(all.take(0) == Seq::<Seq<char>>::empty());
    assert(calendars_before + Seq::<StructuredCalendarView>::empty() == calendars_before);
    assert(intervals_before + Seq::<IntervalView>::empty() == intervals_before);
    let mut zone: Option<String> = None;
    let mut i: usize = 0;
    while i < crons.len()
        invariant
            i <= crons.len(),
            all == strings(crons@),
            all_crons(all.take(i as int)) matches Ok(said) && {
                &&& said.len() == i
                &&& structured_views(calendars@) == calendars_before + cron_calendars(said)
                &&& interval_views(intervals@) == intervals_before + cron_intervals(said)
                &&& name_view(zone) == (if said.len() > 0 {
                    said[0].timezone
                } else {
                    None
                })
            },
        decreases crons.len() - i,
    {
        let ghost said = all_crons(all.take(i as int))->Ok_0;
        assert(all.take(i + 1).drop_last() == all.take(i as int));
        assert(all.take(i + 1).last() == crons@[i as int]@);
        match parse_cron_string(crons[i].as_str()) {
            Ok((structured, interval, tz)) => {
                if i == 0 {
                    zone = tz;
                } else if !same_zone(&zone, &tz) {
                    proof {
                        lemma_first_cron_error(all, i + 1, ErrorView::ConflictingTimezoneNames);
                    }
                    return Err(SpecError::ConflictingTimezoneNames);
                }
                let ghost next = cron_of(all.take(i + 1).last())->Ok_0;
                assert(said.push(next).drop_last() == said);
                if let Some(cal) = structured {
                    let ghost now = calendars@;
                    calendars.push(cal);
                    assert(structured_views(calendars@) == structured_views(now).push(cal@));
                    assert(structured_views(calendars@) == calendars_before + cron_calendars(
                        said,
                    ).push(cal@));
                }
                if let Some(iv) = interval {
                    let ghost now = intervals@;
                    intervals.push(iv);
                    assert(interval_views(intervals@) == interval_views(now).push(iv@));
                    assert(interval_views(intervals@) == intervals_before + cron_intervals(
                        said,
                    ).push(iv@));
                }
            },
            Err(e) => {
                proof {
                    lemma_first_cron_error(all, i + 1, e@);
                }
                return Err(e);
            },
        }
        i = i + 1;
    }
    assert(all.take(all.len() as int) == all);
    Ok(zone)
}

/// What is wrong with the first calendars is the first fault of all.
pub(crate) proof fn lemma_first_calendar_fault(cals: Seq<StructuredCalendarView>, n: int)
    requires
        0 <= n <= cals.len(),
        first_calendar_fault(cals.take(n)) is Some,
    ensures
        first_calendar_fault(cals) == first_calendar_fault(cals.take(n)),
    decreases cals.len() - n,
{
    if n == cals.len() {
        assert(cals.take(n) == cals);
    } else {
        assert(cals.take(n + 1).drop_last() == cals.take(n));
        lemma_first_calendar_fault(cals, n + 1);
    }
}

/// What is wrong with the first intervals is the first fault of all.
pub(crate) proof fn lemma_first_interval_fault(intervals: Seq<IntervalView>, n: int)
    requires
        0 <= n <= intervals.len(),
        first_interval_fault(intervals.take(n)) is Some,
    ensures
        first_interval_fault(intervals) == first_interval_fault(intervals.take(n)),
    decreases intervals.len() - n,
{
    if n == intervals.len() {
        assert(intervals.take(n) == intervals);
    } else {
        assert(intervals.take(n + 1).drop_last() == intervals.take(n));
        lemma_first_interval_fault(intervals, n + 1);
    }
}

/// Checks that every calendar is valid.
#[verifier::rlimit(30)]
fn validate_calendars(cals: &Vec<StructuredCalendarSpec>) -> (r: Result<(), SpecError>)
    ensures
        match r {
            Ok(_) => first_calendar_fault(structured_views(cals@)) is None,
            Err(e) => first_calendar_fault(structured_views(cals@)) == Some(e@),
        },
{
    let ghost all = structured_views(cals@);
    let mut i: usize = 0;
    while i < cals.len()
        invariant
            i <= cals.len(),
            all == structured_views(cals@),
            first_calendar_fault(all.take(i as int)) is None,
        decreases cals.len() - i,
    {
        assert(all.take(i + 1).drop_last() == all.take(i as int));
        assert(all.take(i + 1).last() == cals@[i as int]@);
        match validate_structured_calendar(&cals[i]) {
            Ok(_) => {},
            Err(e) => {
                proof {
                    lemma_first_calendar_fault(all, i + 1);
                }
                return Err(e);
            },
        }
        i = i + 1;
    }
    assert(all.take(all.len() as int) == all);
    Ok(())
}

/// Checks that every interval is valid.
fn validate_intervals(intervals: &Vec<IntervalSpec>) -> (r: Result<(), SpecError>)
    ensures
        match r {
            Ok(_) => first_interval_fault(interval_views(intervals@)) is None,
            Err(e) => first_interval_fault(interval_views(intervals@)) == Some(e@),
        },
{
    let ghost all = interval_views(intervals@);
    let mut i: usize = 0;
    while i < intervals.len()
        invariant
            i <= intervals.len(),
            all == interval_views(intervals@),
            first_interval_fault(all.take(i as int)) is None,
        decreases intervals.len() - i,
    {
        assert(all.take(i + 1).drop_last() == all.take(i as int));
        assert(all.take(i + 1).last() == intervals@[i as int]@);
        match validate_interval(&intervals[i]) {
            Ok(_) => {},
            Err(e) => {
                proof {
                    lemma_first_interval_fault(all, i + 1);
                }
                return Err(e);
            },
        }
        i = i + 1;
    }
    assert(all.take(all.len() as int) == all);
    Ok(())
}

/// The name of a schedule's time zone, given what its cron strings name.
fn settle_zone(spec: &ScheduleSpec, from_crons: Option<String>) -> (r: Result<String, SpecError>)
    ensures
        ({
            let named = match from_crons {
                Some(name) => name@,
                None => Seq::empty(),
            };
            match r {
                Ok(name) => zone_name(spec@, named) == Ok::<Seq<char>, ErrorView>(name@),
                Err(e) => zone_name(spec@, named) == Err::<Seq<char>, ErrorView>(e@),
            }
        }),
{
    match from_crons {
        Some(name) if !name.as_str().is_empty() => {
            let given = spec.timezone_name.as_str();
            if spec.timezone_data.is_some() || (!given.is_empty() && !same_string(
                given,
                name.as_str(),
            )) {
                Err(SpecError::ConflictingTimezoneNames)
            } else {
                Ok(name)
            }
        },
        _ => Ok(spec.timezone_name.clone()),
    }
}

/// Brings a schedule into its canonical form: calendars in text form and cron strings become
/// structured calendars and intervals, and everything is validated.
pub fn canonicalize_spec(spec: &ScheduleSpec) -> (r: Result<ScheduleSpec, SpecError>)
    ensures
        match r {
            Ok(form) => canonical_of(spec@) == Ok::<ScheduleView, ErrorView>(form@),
            Err(e) => canonical_of(spec@) == Err::<ScheduleView, ErrorView>(e@),
        },
{
    let mut structured_calendar = copy_structured(&spec.structured_calendar);
    let mut exclude_structured_calendar = copy_structured(&spec.exclude_structured_calendar);
    let mut interval = copy_intervals(&spec.interval);
    if let Err(e) = parse_calendars(&spec.calendar, &mut structured_calendar) {
        return Err(e);
    }
    if let Err(e) = parse_calendars(&spec.exclude_calendar, &mut exclude_structured_calendar) {
        return Err(e);
    }
    let cron_tz = match parse_crons(&spec.cron_string, &mut structured_calendar, &mut interval) {
        Ok(zone) => zone,
        Err(e) => {
            return Err(e);
        },
    };
    let timezone_name = match settle_zone(spec, cron_tz) {
        Ok(name) => name,
        Err(e) => {
            return Err(e);
        },
    };
    let form = ScheduleSpec {
        structured_calendar,
        exclude_structured_calendar,
        interval,
        cron_string: Vec::new(),
        calendar: Vec::new(),
        exclude_calendar: Vec::new(),
        start_time: spec.start_time,
        end_time: spec.end_time,
        jitter: spec.jitter,
        timezone_name,
        timezone_data: match &spec.timezone_data {
            Some(data) => Some(copy_bytes(data)),
            None => None,
        },
    };
    proof {
        let cals = all_structured(spec@.calendar)->Ok_0;
        let excludes = all_structured(spec@.exclude_calendar)->Ok_0;
        let crons = all_crons(spec@.cron_string)->Ok_0;
        assert(form@ =~= without_text(spec@, cals, excludes, crons, form.timezone_name@));
    }
    if let Err(e) = validate_calendars(&form.structured_calendar) {
        return Err(e);
    }
    if let Err(e) = validate_calendars(&form.exclude_structured_calendar) {
        return Err(e);
    }
    if let Err(e) = validate_intervals(&form.interval) {
        return Err(e);
    }
    Ok(form)
}

// ---------------------------------------------------------------------------
// Writing out defaults
// ---------------------------------------------------------------------------

/// The range with its defaults written out: an end before the start becomes the start, and a
/// step of 0 becomes 1.
pub open spec fn clean_range(r: Range) -> Range {
    Range {
        start: r.start,
        end: if r.end < r.start {
            r.start
        } else {
            r.end
        },
        step: if r.step == 0 {
            1
        } else {
            r.step
        },
    }
}

/// The ranges with their defaults written out.
pub open spec fn cleaned_ranges(ranges: Seq<Range>) -> Seq<Range> {
    ranges.map_values(|r: Range| clean_range(r))
}

/// The calendar with the defaults of its ranges written out.
pub open spec fn cleaned_calendar(cal: StructuredCalendarView) -> StructuredCalendarView {
    StructuredCalendarView {
        second: cleaned_ranges(cal.second),
        minute: cleaned_ranges(cal.minute),
        hour: cleaned_ranges(cal.hour),
        day_of_month: cleaned_ranges(cal.day_of_month),
        month: cleaned_ranges(cal.month),
        year: cleaned_ranges(cal.year),
        day_of_week: cleaned_ranges(cal.day_of_week),
        comment: cal.comment,
    }
}

/// The calendars with the defaults of their ranges written out.
pub open spec fn cleaned_calendars(cals: Seq<StructuredCalendarView>) -> Seq<
    StructuredCalendarView,
> {
    cals.map_values(|cal: StructuredCalendarView| cleaned_calendar(cal))
}

/// The schedule with the defaults of the ranges of its structured calendars written out.
pub open spec fn cleaned(spec: ScheduleView) -> ScheduleView {
    ScheduleView {
        structured_calendar: cleaned_calendars(spec.structured_calendar),
        exclude_structured_calendar: cleaned_calendars(spec.exclude_structured_calendar),
        ..spec
    }
}

/// Writes out the defaults of ranges.
fn clean_ranges(ranges: &mut Vec<Range>)
    ensures
        final(ranges)@ == cleaned_ranges(old(ranges)@),
{
    let mut i: usize = 0;
    while i < ranges.len()
        invariant
            i <= ranges.len(),
            ranges.len() == old(ranges).len(),
            forall|j: int| 0 <= j < i ==> #[trigger] ranges@[j] == clean_range(old(ranges)@[j]),
            forall|j: int| i <= j < ranges.len() ==> #[trigger] ranges@[j] == old(ranges)@[j],
        decreases ranges.len() - i,
    {
        let mut r = ranges[i];
        if r.end < r.start {
            r.end = r.start;
        }
        if r.step == 0 {
            r.step = 1;
        }
        ranges.set(i, r);
        i = i + 1;
    }
    assert(ranges@ =~= cleaned_ranges(old(ranges)@));
}

/// Writes out the defaults of a calendar's ranges.
fn clean_cal(scs: &mut StructuredCalendarSpec)
    ensures
        final(scs)@ == cleaned_calendar(old(scs)@),
{
    clean_ranges(&mut scs.second);
    clean_ranges(&mut scs.minute);
    clean_ranges(&mut scs.hour);
    clean_ranges(&mut scs.day_of_month);
    clean_ranges(&mut scs.month);
    clean_ranges(&mut scs.year);
    clean_ranges(&mut scs.day_of_week);
}

/// Writes out the defaults of the ranges of some calendars.
fn clean_calendars(cals: &mut Vec<StructuredCalendarSpec>)
    ensures
        structured_views(final(cals)@) == cleaned_calendars(structured_views(old(cals)@)),
{
    let mut i: usize = 0;
    while i < cals.len()
        invariant
            i <= cals.len(),
            cals.len() == old(cals).len(),
            forall|j: int|
                0 <= j < i ==> (#[trigger] cals@[j])@ == cleaned_calendar(old(cals)@[j]@),
            forall|j: int| i <= j < cals.len() ==> #[trigger] cals@[j] == old(cals)@[j],
        decreases cals.len() - i,
    {
        clean_cal(&mut cals[i]);
        i = i + 1;
    }
    assert(structured_views(cals@) =~= cleaned_calendars(structured_views(old(cals)@)));
}

/// Writes out the defaults of the ranges of a schedule's structured calendars: ends that come
/// before their start, and steps of 0.
pub fn clean_spec(spec: &mut ScheduleSpec)
    ensures
        final(spec)@ == cleaned(old(spec)@),
{
    clean_calendars(&mut spec.structured_calendar);
    clean_calendars(&mut spec.exclude_structured_calendar);
}

// ---------------------------------------------------------------------------
// Laws
// ---------------------------------------------------------------------------

/// The canonical form of a schedule is its own canonical form.
pub proof fn law_canonical_form_is_canonical(spec: ScheduleView)
    ensures
        canonical_of(spec) matches Ok(form) ==> canonical_of(form) == Ok::<ScheduleView, ErrorView>(
            form,
        ),
{
    if let Ok(form) = canonical_of(spec) {
        let none = Seq::<CronView>::empty();
        let again = without_text(form, Seq::empty(), Seq::empty(), none, form.timezone_name);
        assert(cron_calendars(none) =~= Seq::empty());
        assert(cron_intervals(none) =~= Seq::empty());
        assert(again =~= form);
    }
}

/// A canonical form holds no text forms and nothing that is not valid. What a schedule says of
/// its bounds, its jitter and its time zone data stays as it is.
pub proof fn law_canonical_form_is_valid(spec: ScheduleView)
    ensures
        canonical_of(spec) matches Ok(form) ==> {
            &&& form.calendar.len() == 0
            &&& form.exclude_calendar.len() == 0
            &&& form.cron_string.len() == 0
            &&& forall|i: int|
                0 <= i < form.structured_calendar.len() ==> well_formed(
                    #[trigger] form.structured_calendar[i],
                )
            &&& forall|i: int|
                0 <= i < form.exclude_structured_calendar.len() ==> well_formed(
                    #[trigger] form.exclude_structured_calendar[i],
                )
            &&& forall|i: int|
                0 <= i < form.interval.len() ==> {
                    &&& (#[trigger] form.interval[i]).interval >= 1_000_000_000
                    &&& form.interval[i].phase < form.interval[i].interval
                }
            &&& form.start_time == spec.start_time
            &&& form.end_time == spec.end_time
            &&& form.jitter == spec.jitter
            &&& form.timezone_data == spec.timezone_data
        },
{
    if let Ok(form) = canonical_of(spec) {
        lemma_no_calendar_fault(form.structured_calendar);
        lemma_no_calendar_fault(form.exclude_structured_calendar);
        lemma_no_interval_fault(form.interval);
    }
}

/// Calendars without a first fault are well formed.
proof fn lemma_no_calendar_fault(cals: Seq<StructuredCalendarView>)
    requires
        first_calendar_fault(cals) is None,
    ensures
        forall|i: int| 0 <= i < cals.len() ==> well_formed(#[trigger] cals[i]),
    decreases cals.len(),
{
    if cals.len() > 0 {
        lemma_no_calendar_fault(cals.drop_last());
        law_valid_means_well_formed(cals.last());
        assert forall|i: int| 0 <= i < cals.len() implies well_formed(#[trigger] cals[i]) by {
            if i < cals.len() - 1 {
                assert(well_formed(cals.drop_last()[i]));
            }
        }
    }
}

/// Intervals without a first fault are valid.
proof fn lemma_no_interval_fault(intervals: Seq<IntervalView>)
    requires
        first_interval_fault(intervals) is None,
    ensures
        forall|i: int|
            0 <= i < intervals.len() ==> {
                &&& (#[trigger] intervals[i]).interval >= 1_000_000_000
                &&& intervals[i].phase < intervals[i].interval
            },
    decreases intervals.len(),
{
    if intervals.len() > 0 {
        lemma_no_interval_fault(intervals.drop_last());
        assert forall|i: int| 0 <= i < intervals.len() implies {
            &&& (#[trigger] intervals[i]).interval >= 1_000_000_000
            &&& intervals[i].phase < intervals[i].interval
        } by {
            if i < intervals.len() - 1 {
                assert(intervals.drop_last()[i].interval >= 1_000_000_000);
            }
        }
    }
}

/// Cron strings are accepted together only if each can be read, and all name the same time zone
/// or none does.
pub proof fn law_cron_strings_agree_on_the_zone(crons: Seq<Seq<char>>)
    ensures
        all_crons(crons) matches Ok(said) ==> {
            &&& said.len() == crons.len()
            &&& forall|i: int|
                0 <= i < said.len() ==> {
                    &&& cron_of(crons[i]) == Ok::<CronView, ErrorView>(#[trigger] said[i])
                    &&& said[i].timezone == said[0].timezone
                }
        },
    decreases crons.len(),
{
    if crons.len() > 0 {
        law_cron_strings_agree_on_the_zone(crons.drop_last());
        if let Ok(said) = all_crons(crons) {
            let before = all_crons(crons.drop_last())->Ok_0;
            assert forall|i: int| 0 <= i < said.len() implies {
                &&& cron_of(crons[i]) == Ok::<CronView, ErrorView>(#[trigger] said[i])
                &&& said[i].timezone == said[0].timezone
            } by {
                if i < said.len() - 1 {
                    assert(before[i] == said[i]);
                    assert(crons.drop_last()[i] == crons[i]);
                }
            }
        }
    }
}

/// Writing out the defaults of a range does not change its values, unless its end comes before
/// its start.
pub proof fn law_cleaning_keeps_the_values(r: Range, v: int)
    requires
        r.end == 0 || r.start <= r.end,
    ensures
        clean_range(r).has(v) == r.has(v),
{
}

/// Writing out defaults once is enough.
pub proof fn law_cleaning_twice_is_cleaning_once(spec: ScheduleView)
    ensures
        cleaned(cleaned(spec)) == cleaned(spec),
{
    assert forall|cal: StructuredCalendarView| #[trigger]
        cleaned_calendar(cleaned_calendar(cal)) == cleaned_calendar(cal) by {
        let once = cleaned_calendar(cal);
        assert(cleaned_ranges(once.second) =~= once.second);
        assert(cleaned_ranges(once.minute) =~= once.minute);
        assert(cleaned_ranges(once.hour) =~= once.hour);
        assert(cleaned_ranges(once.day_of_month) =~= once.day_of_month);
        assert(cleaned_ranges(once.month) =~= once.month);
        assert(cleaned_ranges(once.year) =~= once.year);
        assert(cleaned_ranges(once.day_of_week) =~= once.day_of_week);
    }
    let once = cleaned(spec);
    assert(cleaned(once).structured_calendar =~= once.structured_calendar);
    assert(cleaned(once).exclude_structured_calendar =~= once.exclude_structured_calendar);
}

/// Writing out the defaults of a list of ranges keeps the values it has.
proof fn lemma_cleaning_keeps_a_field(ranges: Seq<Range>, min: int, max: int, v: int)
    requires
        forall|i: int| 0 <= i < ranges.len() ==> within(#[trigger] ranges[i], min, max),
    ensures
        ranges_have(cleaned_ranges(ranges), v) == ranges_have(ranges, v),
        forall|i: int|
            0 <= i < ranges.len() ==> within(#[trigger] cleaned_ranges(ranges)[i], min, max),
{
    let after = cleaned_ranges(ranges);
    assert forall|i: int| 0 <= i < ranges.len() implies (#[trigger] after[i]).has(v)
        == ranges[i].has(v) && within(after[i], min, max) by {
        assert(within(ranges[i], min, max));
        law_cleaning_keeps_the_values(ranges[i], v);
    }
    if ranges_have(ranges, v) {
        let i = choose|i: int| 0 <= i < ranges.len() && (#[trigger] ranges[i]).has(v);
        assert(after[i].has(v));
    }
    if ranges_have(after, v) {
        let i = choose|i: int| 0 <= i < after.len() && (#[trigger] after[i]).has(v);
        assert(ranges[i].has(v));
    }
}

/// Writing out the defaults of a valid calendar does not change which times it accepts, and
/// leaves it valid.
pub proof fn law_cleaning_keeps_a_calendar(cal: StructuredCalendarView, c: CivilTime)
    requires
        well_formed(cal),
    ensures
        calendar_accepts(cleaned_calendar(cal), c) == calendar_accepts(cal, c),
        well_formed(cleaned_calendar(cal)),
{
    lemma_cleaning_keeps_a_field(cal.second, 0, 59, c.second as int);
    lemma_cleaning_keeps_a_field(cal.minute, 0, 59, c.minute as int);
    lemma_cleaning_keeps_a_field(cal.hour, 0, 23, c.hour as int);
    lemma_cleaning_keeps_a_field(cal.day_of_month, 1, 31, c.day as int);
    lemma_cleaning_keeps_a_field(cal.month, 1, 12, c.month as int);
    lemma_cleaning_keeps_a_field(cal.day_of_week, 0, 6, weekday_of(c.day_count()));
    let min = MIN_CALENDAR_YEAR as int;
    let max = MAX_CALENDAR_YEAR as int;
    assert forall|w: int| #[trigger]
        ranges_have(cleaned_ranges(cal.year), w) == ranges_have(cal.year, w) by {
        lemma_cleaning_keeps_a_field(cal.year, min, max, w);
    }
    lemma_cleaning_keeps_a_field(cal.year, min, max, c.year as int);
    let after = cleaned_ranges(cal.year);
    if years_have(cal.year, c.year as int) && cal.year.len() > 0 {
        let w = choose|w: int| #[trigger]
            ranges_have(cal.year, w) && (w as i32) as i16 == (c.year as i32) as i16;
        assert(ranges_have(after, w));
    }
}

} // verus!
