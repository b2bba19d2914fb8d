//! The canonical form of a schedule: what becomes of each of its parts.
use vstd::prelude::*;

use crate::canonical::{
    all_crons, all_structured, canonical_of, cron_calendars, cron_intervals, cron_zone,
    first_calendar_fault, first_fault, first_interval_fault, lemma_first_calendar_error,
    lemma_first_calendar_fault, lemma_first_cron_error, lemma_first_interval_fault, without_text,
    zone_name,
};
use crate::cron::{cron_of, CronView};
use crate::error::ErrorView;
use crate::laws::calendar::{all_between, law_what_a_calendar_may_hold};
use crate::range::{calendar_faults, structured_of};
use crate::text::joined;
use crate::types::{CalendarView, IntervalView, ScheduleView, StructuredCalendarView};

verus! {

// ---------------------------------------------------------------------------
// Lists
// ---------------------------------------------------------------------------

/// Every calendar in text form is read, each on its own and in its place. If one cannot be read,
/// the first such one says what is wrong.
pub proof fn law_every_calendar_is_read(cals: Seq<CalendarView>)
    ensures
        match all_structured(cals) {
            Ok(read) => {
                &&& read.len() == cals.len()
                &&& forall|i: int|
                    0 <= i < cals.len() ==> structured_of(cals[i]) == Ok::<
                        StructuredCalendarView,
                        ErrorView,
                    >(#[trigger] read[i])
            },
            Err(e) => exists|i: int|
                0 <= i < cals.len() && structured_of(#[trigger] cals[i]) == Err::<
                    StructuredCalendarView,
                    ErrorView,
                >(e) && forall|j: int| 0 <= j < i ==> structured_of(#[trigger] cals[j]) is Ok,
        },
    decreases cals.len(),
{
    if cals.len() > 0 {
        let front = cals.drop_last();
        law_every_calendar_is_read(front);
        match all_structured(cals) {
            Ok(read) => {
                let before = all_structured(front)->Ok_0;
                assert forall|i: int| 0 <= i < cals.len() implies structured_of(cals[i]) == Ok::<
                    StructuredCalendarView,
                    ErrorView,
                >(#[trigger] read[i]) by {
                    if i < front.len() {
                        assert(read[i] == before[i]);
                        assert(front[i] == cals[i]);
                    }
                }
            },
            Err(e) => {
                if all_structured(front) is Err {
                    let i = choose|i: int|
                        0 <= i < front.len() && structured_of(#[trigger] front[i]) == Err::<
                            StructuredCalendarView,
                            ErrorView,
                        >(e) && forall|j: int|
                            0 <= j < i ==> structured_of(#[trigger] front[j]) is Ok;
                    assert(front[i] == cals[i]);
                    assert forall|j: int| 0 <= j < i implies structured_of(
                        #[trigger] cals[j],
                    ) is Ok by {
                        assert(front[j] == cals[j]);
                    }
                } else {
                    let before = all_structured(front)->Ok_0;
                    let last = cals.len() - 1;
                    assert(structured_of(cals[last]) == Err::<StructuredCalendarView, ErrorView>(
                        e,
                    ));
                    assert forall|j: int| 0 <= j < last implies structured_of(
                        #[trigger] cals[j],
                    ) is Ok by {
                        assert(front[j] == cals[j]);
                        assert(structured_of(front[j]) == Ok::<StructuredCalendarView, ErrorView>(
                            before[j],
                        ));
                    }
                }
            },
        }
    }
}

/// Every cron string is read, each on its own and in its place, and all name the time zone that the
/// first names, or none. If one cannot be read, or names another time zone, the first such one says
/// what is wrong.
pub proof fn law_every_cron_string_is_read(crons: Seq<Seq<char>>, said: Seq<CronView>)
    requires
        said.len() == crons.len(),
        forall|i: int|
            0 <= i < crons.len() ==> cron_of(crons[i]) == Ok::<CronView, ErrorView>(
                #[trigger] said[i],
            ),
    ensures
        (forall|i: int| 0 <= i < said.len() ==> (#[trigger] said[i]).timezone == said[0].timezone)
            ==> all_crons(crons) == Ok::<Seq<CronView>, ErrorView>(said),
        !(forall|i: int| 0 <= i < said.len() ==> (#[trigger] said[i]).timezone == said[0].timezone)
            ==> all_crons(crons) == Err::<Seq<CronView>, ErrorView>(
            ErrorView::ConflictingTimezoneNames,
        ),
    decreases crons.len(),
{
    if crons.len() == 0 {
        assert(said == Seq::<CronView>::empty());
    } else {
        let front = crons.drop_last();
        let before = said.drop_last();
        assert forall|i: int| 0 <= i < front.len() implies cron_of(front[i]) == Ok::<
            CronView,
            ErrorView,
        >(#[trigger] before[i]) by {
            assert(cron_of(crons[i]) == Ok::<CronView, ErrorView>(said[i]));
        }
        law_every_cron_string_is_read(front, before);
        let last = said.len() - 1;
        assert(cron_of(crons[last]) == Ok::<CronView, ErrorView>(said[last]));
        if forall|i: int| 0 <= i < before.len() ==> (#[trigger] before[i]).timezone
            == before[0].timezone {
            assert(before.push(said[last]) == said);
            if last > 0 {
                assert(before[0] == said[0]);
                if said[last].timezone == said[0].timezone {
                    assert forall|i: int| 0 <= i < said.len() implies (#[trigger] said[i]).timezone
                        == said[0].timezone by {
                        if i < last {
                            assert(before[i] == said[i]);
                        }
                    }
                }
            }
        } else {
            let i = choose|i: int|
                0 <= i < before.len() && (#[trigger] before[i]).timezone != before[0].timezone;
            assert(said[i].timezone != said[0].timezone);
        }
    }
}

/// A cron string that cannot be read is an error of all, if the ones before it can be read and name
/// one time zone.
pub proof fn law_the_first_wrong_cron_string(
    crons: Seq<Seq<char>>,
    i: int,
    before: Seq<CronView>,
    e: ErrorView,
)
    requires
        0 <= i < crons.len(),
        all_crons(crons.take(i)) == Ok::<Seq<CronView>, ErrorView>(before),
        cron_of(crons[i]) == Err::<CronView, ErrorView>(e),
    ensures
        all_crons(crons) == Err::<Seq<CronView>, ErrorView>(e),
{
    assert(crons.take(i + 1).drop_last() == crons.take(i));
    lemma_first_cron_error(crons, i + 1, e);
}

/// The calendars and the intervals of cron strings come in their order, each that there is and no
/// other.
pub proof fn law_what_cron_strings_add(a: Seq<CronView>, b: Seq<CronView>, c: CronView)
    ensures
        cron_calendars(a + b) == cron_calendars(a) + cron_calendars(b),
        cron_intervals(a + b) == cron_intervals(a) + cron_intervals(b),
        c.calendar is Some ==> cron_calendars(seq![c]) == seq![c.calendar->Some_0],
        c.calendar is None ==> cron_calendars(seq![c]) == Seq::<StructuredCalendarView>::empty(),
        c.interval is Some ==> cron_intervals(seq![c]) == seq![c.interval->Some_0],
        c.interval is None ==> cron_intervals(seq![c]) == Seq::<IntervalView>::empty(),
    decreases b.len(),
{
    assert(seq![c].drop_last() == Seq::<CronView>::empty());
    assert(cron_calendars(seq![c].drop_last()) == Seq::<StructuredCalendarView>::empty());
    assert(cron_intervals(seq![c].drop_last()) == Seq::<IntervalView>::empty());
    assert(cron_calendars(Seq::empty()) == Seq::<StructuredCalendarView>::empty());
    assert(cron_intervals(Seq::empty()) == Seq::<IntervalView>::empty());
    if b.len() == 0 {
        assert(a + b == a);
        assert(b == Seq::<CronView>::empty());
        assert(cron_calendars(a + b) == cron_calendars(a) + cron_calendars(b));
        assert(cron_intervals(a + b) == cron_intervals(a) + cron_intervals(b));
    } else {
        assert((a + b).drop_last() == a + b.drop_last());
        law_what_cron_strings_add(a, b.drop_last(), c);
        assert(cron_calendars(a + b) == cron_calendars(a) + cron_calendars(b));
        assert(cron_intervals(a + b) == cron_intervals(a) + cron_intervals(b));
    }
}

// ---------------------------------------------------------------------------
// The form
// ---------------------------------------------------------------------------

/// The calendars of a canonical form are the schedule's structured calendars, then what its
/// calendars in text form write, one for each, and then what its cron strings add. Its exclusion
/// calendars are the structured ones and then what the ones in text form write, one for each. Its
/// intervals are the schedule's, and then what its cron strings add.
pub proof fn law_the_parts_of_the_form(
    spec: ScheduleView,
    said: Seq<CronView>,
    form: ScheduleView,
    i: int,
)
    requires
        said.len() == spec.cron_string.len(),
        forall|k: int|
            0 <= k < said.len() ==> cron_of(spec.cron_string[k]) == Ok::<CronView, ErrorView>(
                #[trigger] said[k],
            ),
        canonical_of(spec) == Ok::<ScheduleView, ErrorView>(form),
    ensures
        ({
            let n = spec.structured_calendar.len() as int;
            let m = spec.calendar.len() as int;
            &&& form.structured_calendar.len() == n + m + cron_calendars(said).len()
            &&& 0 <= i < n ==> form.structured_calendar[i] == spec.structured_calendar[i]
            &&& 0 <= i < m ==> structured_of(spec.calendar[i]) == Ok::<
                StructuredCalendarView,
                ErrorView,
            >(form.structured_calendar[n + i])
            &&& form.structured_calendar.skip(n + m) == cron_calendars(said)
        }),
        ({
            let n = spec.exclude_structured_calendar.len() as int;
            let m = spec.exclude_calendar.len() as int;
            &&& form.exclude_structured_calendar.len() == n + m
            &&& 0 <= i < n ==> form.exclude_structured_calendar[i]
                == spec.exclude_structured_calendar[i]
            &&& 0 <= i < m ==> structured_of(spec.exclude_calendar[i]) == Ok::<
                StructuredCalendarView,
                ErrorView,
            >(form.exclude_structured_calendar[n + i])
        }),
        form.interval == spec.interval + cron_intervals(said),
        form.calendar.len() == 0,
        form.exclude_calendar.len() == 0,
        form.cron_string.len() == 0,
        form.start_time == spec.start_time,
        form.end_time == spec.end_time,
        form.jitter == spec.jitter,
        form.timezone_data == spec.timezone_data,
{
    law_every_calendar_is_read(spec.calendar);
    law_every_calendar_is_read(spec.exclude_calendar);
    law_every_cron_string_is_read(spec.cron_string, said);
    let cals = all_structured(spec.calendar)->Ok_0;
    let excludes = all_structured(spec.exclude_calendar)->Ok_0;
    let n = spec.structured_calendar.len() as int;
    let m = spec.calendar.len() as int;
    assert(form.structured_calendar == spec.structured_calendar + cals + cron_calendars(said));
    assert(form.structured_calendar.skip(n + m) == cron_calendars(said));
    if 0 <= i < m {
        assert(form.structured_calendar[n + i] == cals[i]);
    }
    let n = spec.exclude_structured_calendar.len() as int;
    if 0 <= i < spec.exclude_calendar.len() {
        assert(form.exclude_structured_calendar[n + i] == excludes[i]);
    }
}

/// The time zone of a canonical form is the schedule's, unless its cron strings name one: then it
/// is theirs. That is a conflict if the schedule holds time zone data or names another.
pub proof fn law_the_time_zone_of_the_form(
    spec: ScheduleView,
    said: Seq<CronView>,
    form: ScheduleView,
)
    requires
        said.len() == spec.cron_string.len(),
        forall|k: int|
            0 <= k < said.len() ==> cron_of(spec.cron_string[k]) == Ok::<CronView, ErrorView>(
                #[trigger] said[k],
            ),
        canonical_of(spec) == Ok::<ScheduleView, ErrorView>(form),
    ensures
        forall|k: int|
            0 <= k < said.len() && (#[trigger] said[k]).timezone is Some
                && said[k].timezone->Some_0.len() > 0 ==> form.timezone_name
                == said[k].timezone->Some_0 && spec.timezone_data is None && (
            spec.timezone_name.len() == 0 || spec.timezone_name == form.timezone_name),
        forall|k: int|
            0 <= k < said.len() && ((#[trigger] said[k]).timezone is None
                || said[k].timezone->Some_0.len() == 0) ==> form.timezone_name
                == spec.timezone_name,
        said.len() == 0 ==> form.timezone_name == spec.timezone_name,
{
    law_every_cron_string_is_read(spec.cron_string, said);
    assert forall|k: int| 0 <= k < said.len() implies (#[trigger] said[k]).timezone
        == said[0].timezone by {}
}

/// Whether a calendar holds nothing that it may not hold.
#[verifier::opaque]
pub open spec fn is_valid(cal: StructuredCalendarView) -> bool {
    &&& all_between(cal.second, 0, 59)
    &&& all_between(cal.minute, 0, 59)
    &&& all_between(cal.hour, 0, 23)
    &&& all_between(cal.day_of_month, 1, 31)
    &&& all_between(cal.month, 1, 12)
    &&& all_between(cal.year, 2000, 2100)
    &&& all_between(cal.day_of_week, 0, 6)
    &&& cal.comment.len() <= 200
}

/// Everything in a canonical form is valid: its calendars, its exclusion calendars and its
/// intervals.
pub proof fn law_everything_in_the_form_is_valid(spec: ScheduleView, form: ScheduleView, i: int)
    requires
        canonical_of(spec) == Ok::<ScheduleView, ErrorView>(form),
    ensures
        0 <= i < form.structured_calendar.len() ==> is_valid(form.structured_calendar[i]),
        0 <= i < form.exclude_structured_calendar.len() ==> is_valid(
            form.exclude_structured_calendar[i],
        ),
        0 <= i < form.interval.len() ==> form.interval[i].interval >= 1_000_000_000
            && form.interval[i].phase < form.interval[i].interval,
{
    lemma_no_fault(form.structured_calendar, i);
    lemma_no_fault(form.exclude_structured_calendar, i);
    lemma_no_interval_fault(form.interval, i);
}

/// A calendar has no faults if and only if it is valid.
proof fn lemma_valid(cal: StructuredCalendarView)
    ensures
        calendar_faults(cal).len() == 0 <==> is_valid(cal),
{
    reveal(is_valid);
    law_what_a_calendar_may_hold(cal);
}

/// Without a first fault, each calendar is valid, and with one, one is not.
proof fn lemma_no_fault(cals: Seq<StructuredCalendarView>, i: int)
    ensures
        first_calendar_fault(cals) is None && 0 <= i < cals.len() ==> is_valid(cals[i]),
        (forall|k: int| 0 <= k < cals.len() ==> is_valid(#[trigger] cals[k]))
            ==> first_calendar_fault(cals) is None,
    decreases cals.len(),
{
    if cals.len() > 0 {
        let front = cals.drop_last();
        lemma_no_fault(front, i);
        lemma_valid(cals.last());
        if 0 <= i < front.len() {
            assert(front[i] == cals[i]);
        }
        if forall|k: int| 0 <= k < cals.len() ==> is_valid(#[trigger] cals[k]) {
            assert(is_valid(cals[cals.len() - 1]));
            assert forall|k: int| 0 <= k < front.len() implies is_valid(#[trigger] front[k]) by {
                assert(is_valid(cals[k]));
            }
        }
    }
}

/// Without a first fault, each interval is valid, and with one, one is not.
proof fn lemma_no_interval_fault(intervals: Seq<IntervalView>, i: int)
    ensures
        first_interval_fault(intervals) is None && 0 <= i < intervals.len()
            ==> intervals[i].interval >= 1_000_000_000 && intervals[i].phase
            < intervals[i].interval,
        (forall|k: int|
            0 <= k < intervals.len() ==> (#[trigger] intervals[k]).interval >= 1_000_000_000
                && intervals[k].phase < intervals[k].interval) ==> first_interval_fault(
            intervals,
        ) is None,
    decreases intervals.len(),
{
    if intervals.len() > 0 {
        let front = intervals.drop_last();
        lemma_no_interval_fault(front, i);
        if 0 <= i < front.len() {
            assert(front[i] == intervals[i]);
        }
        if forall|k: int|
            0 <= k < intervals.len() ==> (#[trigger] intervals[k]).interval >= 1_000_000_000
                && intervals[k].phase < intervals[k].interval {
            assert(intervals[intervals.len() - 1].interval >= 1_000_000_000);
            assert forall|k: int| 0 <= k < front.len() implies (#[trigger] front[k]).interval
                >= 1_000_000_000 && front[k].phase < front[k].interval by {
                assert(intervals[k].interval >= 1_000_000_000);
            }
        }
    }
}

/// A schedule has a canonical form if each of its texts can be read, its cron strings name one time
/// zone that is not in conflict with the schedule's, and everything in it is valid.
pub proof fn law_when_there_is_a_form(
    spec: ScheduleView,
    cals: Seq<StructuredCalendarView>,
    excludes: Seq<StructuredCalendarView>,
    said: Seq<CronView>,
)
    requires
        cals.len() == spec.calendar.len(),
        forall|k: int|
            0 <= k < cals.len() ==> structured_of(spec.calendar[k]) == Ok::<
                StructuredCalendarView,
                ErrorView,
            >(#[trigger] cals[k]) && is_valid(cals[k]),
        excludes.len() == spec.exclude_calendar.len(),
        forall|k: int|
            0 <= k < excludes.len() ==> structured_of(spec.exclude_calendar[k]) == Ok::<
                StructuredCalendarView,
                ErrorView,
            >(#[trigger] excludes[k]) && is_valid(excludes[k]),
        said.len() == spec.cron_string.len(),
        forall|k: int|
            0 <= k < said.len() ==> cron_of(spec.cron_string[k]) == Ok::<CronView, ErrorView>(
                #[trigger] said[k],
            ) && said[k].timezone == said[0].timezone,
        forall|k: int|
            0 <= k < said.len() && (#[trigger] said[k]).timezone is Some
                ==> said[k].timezone->Some_0.len() == 0 || (spec.timezone_data is None && (
            spec.timezone_name.len() == 0 || spec.timezone_name == said[k].timezone->Some_0)),
        forall|k: int|
            0 <= k < spec.structured_calendar.len() ==> is_valid(
                #[trigger] spec.structured_calendar[k],
            ),
        forall|k: int|
            0 <= k < spec.exclude_structured_calendar.len() ==> is_valid(
                #[trigger] spec.exclude_structured_calendar[k],
            ),
        forall|k: int|
            0 <= k < cron_calendars(said).len() ==> is_valid(#[trigger] cron_calendars(said)[k]),
        forall|k: int|
            0 <= k < spec.interval.len() ==> (#[trigger] spec.interval[k]).interval
                >= 1_000_000_000 && spec.interval[k].phase < spec.interval[k].interval,
        forall|k: int|
            0 <= k < cron_intervals(said).len() ==> (#[trigger] cron_intervals(said)[k]).interval
                >= 1_000_000_000 && cron_intervals(said)[k].phase < cron_intervals(
                said,
            )[k].interval,
    ensures
        canonical_of(spec) is Ok,
{
    law_every_calendar_is_read(spec.calendar);
    law_every_calendar_is_read(spec.exclude_calendar);
    law_every_cron_string_is_read(spec.cron_string, said);
    lemma_all_read(spec.calendar, cals);
    lemma_all_read(spec.exclude_calendar, excludes);
    if said.len() > 0 {
        assert(said[0].timezone == said[0].timezone);
    }
    let name = zone_name(spec, cron_zone(said));
    assert(name is Ok);
    let form = without_text(spec, cals, excludes, said, name->Ok_0);
    assert forall|k: int| 0 <= k < form.structured_calendar.len() implies is_valid(
        #[trigger] form.structured_calendar[k],
    ) by {
        let n = spec.structured_calendar.len();
        if k < n {
            assert(is_valid(spec.structured_calendar[k]));
        } else if k < n + cals.len() {
            assert(form.structured_calendar[k] == cals[k - n]);
        } else {
            assert(form.structured_calendar[k] == cron_calendars(said)[k - n - cals.len()]);
        }
    }
    assert forall|k: int| 0 <= k < form.exclude_structured_calendar.len() implies is_valid(
        #[trigger] form.exclude_structured_calendar[k],
    ) by {
        let n = spec.exclude_structured_calendar.len();
        if k < n {
            assert(is_valid(spec.exclude_structured_calendar[k]));
        } else {
            assert(form.exclude_structured_calendar[k] == excludes[k - n]);
        }
    }
    assert forall|k: int| 0 <= k < form.interval.len() implies (
    #[trigger] form.interval[k]).interval >= 1_000_000_000 && form.interval[k].phase
        < form.interval[k].interval by {
        let n = spec.interval.len();
        if k < n {
            assert(form.interval[k] == spec.interval[k]);
        } else {
            assert(form.interval[k] == cron_intervals(said)[k - n]);
        }
    }
    lemma_no_fault(form.structured_calendar, 0);
    lemma_no_fault(form.exclude_structured_calendar, 0);
    lemma_no_interval_fault(form.interval, 0);
}

/// If each calendar in text form can be read, all of them are.
proof fn lemma_all_read(cals: Seq<CalendarView>, read: Seq<StructuredCalendarView>)
    requires
        cals.len() == read.len(),
        forall|k: int|
            0 <= k < cals.len() ==> structured_of(cals[k]) == Ok::<
                StructuredCalendarView,
                ErrorView,
            >(#[trigger] read[k]),
    ensures
        all_structured(cals) == Ok::<Seq<StructuredCalendarView>, ErrorView>(read),
{
    law_every_calendar_is_read(cals);
    match all_structured(cals) {
        Ok(found) => {
            assert forall|k: int| 0 <= k < cals.len() implies #[trigger] found[k] == read[k] by {
                assert(structured_of(cals[k]) == Ok::<StructuredCalendarView, ErrorView>(read[k]));
            }
            assert(found == read);
        },
        Err(e) => {
            let i = choose|i: int|
                0 <= i < cals.len() && structured_of(#[trigger] cals[i]) == Err::<
                    StructuredCalendarView,
                    ErrorView,
                >(e) && forall|j: int| 0 <= j < i ==> structured_of(#[trigger] cals[j]) is Ok;
            assert(structured_of(cals[i]) == Ok::<StructuredCalendarView, ErrorView>(read[i]));
        },
    }
}

/// The first thing that is wrong with a schedule is said: of its calendars in text form, then of
/// its exclusion calendars, then of its cron strings.
pub proof fn law_the_first_wrong_text_is_the_error(spec: ScheduleView, i: int, e: ErrorView)
    ensures
        0 <= i < spec.calendar.len() && structured_of(spec.calendar[i]) == Err::<
            StructuredCalendarView,
            ErrorView,
        >(e) && (forall|j: int| 0 <= j < i ==> structured_of(#[trigger] spec.calendar[j]) is Ok)
            ==> canonical_of(spec) == Err::<ScheduleView, ErrorView>(e),
        (forall|j: int|
            0 <= j < spec.calendar.len() ==> structured_of(#[trigger] spec.calendar[j]) is Ok) && 0
            <= i < spec.exclude_calendar.len() && structured_of(spec.exclude_calendar[i]) == Err::<
            StructuredCalendarView,
            ErrorView,
        >(e) && (forall|j: int|
            0 <= j < i ==> structured_of(#[trigger] spec.exclude_calendar[j]) is Ok)
            ==> canonical_of(spec) == Err::<ScheduleView, ErrorView>(e),
        (forall|j: int|
            0 <= j < spec.calendar.len() ==> structured_of(#[trigger] spec.calendar[j]) is Ok) && (
        forall|j: int|
            0 <= j < spec.exclude_calendar.len() ==> structured_of(
                #[trigger] spec.exclude_calendar[j],
            ) is Ok) && all_crons(spec.cron_string) == Err::<Seq<CronView>, ErrorView>(e)
            ==> canonical_of(spec) == Err::<ScheduleView, ErrorView>(e),
{
    law_every_calendar_is_read(spec.calendar);
    law_every_calendar_is_read(spec.exclude_calendar);
    lemma_the_first_is_the_error(spec.calendar, i, e);
    lemma_the_first_is_the_error(spec.exclude_calendar, i, e);
}

/// The first calendar in text form that cannot be read says what is wrong with all.
proof fn lemma_the_first_is_the_error(cals: Seq<CalendarView>, i: int, e: ErrorView)
    ensures
        0 <= i < cals.len() && structured_of(cals[i]) == Err::<StructuredCalendarView, ErrorView>(e)
            && (forall|j: int| 0 <= j < i ==> structured_of(#[trigger] cals[j]) is Ok)
            ==> all_structured(cals) == Err::<Seq<StructuredCalendarView>, ErrorView>(e),
{
    if 0 <= i < cals.len() && structured_of(cals[i]) == Err::<StructuredCalendarView, ErrorView>(e)
        && (forall|j: int| 0 <= j < i ==> structured_of(#[trigger] cals[j]) is Ok) {
        let front = cals.take(i);
        law_every_calendar_is_read(front);
        if all_structured(front) is Err {
            let k = choose|k: int|
                0 <= k < front.len() && structured_of(#[trigger] front[k]) == Err::<
                    StructuredCalendarView,
                    ErrorView,
                >(all_structured(front)->Err_0) && forall|j: int|
                    0 <= j < k ==> structured_of(#[trigger] front[j]) is Ok;
            assert(structured_of(cals[k]) is Ok);
        }
        assert(cals.take(i + 1).drop_last() == front);
        lemma_first_calendar_error(cals, i + 1, e);
    }
}

/// What is wrong with the first calendar that is not valid is said with all its faults, separated
/// by commas, and what is wrong with the first interval that is not.
pub proof fn law_the_first_fault(
    cals: Seq<StructuredCalendarView>,
    intervals: Seq<IntervalView>,
    i: int,
)
    ensures
        0 <= i < cals.len() && !is_valid(cals[i]) && (forall|j: int|
            0 <= j < i ==> is_valid(#[trigger] cals[j])) ==> first_calendar_fault(cals) == Some(
            ErrorView::InvalidCalendarSpec(joined(calendar_faults(cals[i]), ", "@)),
        ),
        0 <= i < intervals.len() && intervals[i].interval < 1_000_000_000 && (forall|j: int|
            0 <= j < i ==> (#[trigger] intervals[j]).interval >= 1_000_000_000
                && intervals[j].phase < intervals[j].interval) ==> first_interval_fault(intervals)
            == Some(ErrorView::IntervalTooSmall),
        0 <= i < intervals.len() && intervals[i].interval >= 1_000_000_000 && intervals[i].phase
            >= intervals[i].interval && (forall|j: int|
            0 <= j < i ==> (#[trigger] intervals[j]).interval >= 1_000_000_000
                && intervals[j].phase < intervals[j].interval) ==> first_interval_fault(intervals)
            == Some(ErrorView::PhaseExceedsInterval),
{
    if 0 <= i < cals.len() && !is_valid(cals[i]) && (forall|j: int|
        0 <= j < i ==> is_valid(#[trigger] cals[j])) {
        let front = cals.take(i);
        assert forall|j: int| 0 <= j < front.len() implies is_valid(#[trigger] front[j]) by {
            assert(is_valid(cals[j]));
        }
        lemma_no_fault(front, 0);
        assert(cals.take(i + 1).drop_last() == front);
        lemma_valid(cals[i]);
        lemma_first_calendar_fault(cals, i + 1);
    }
    if 0 <= i < intervals.len() && (intervals[i].interval < 1_000_000_000 || intervals[i].phase
        >= intervals[i].interval) && (forall|j: int|
        0 <= j < i ==> (#[trigger] intervals[j]).interval >= 1_000_000_000 && intervals[j].phase
            < intervals[j].interval) {
        let front = intervals.take(i);
        assert forall|j: int| 0 <= j < front.len() implies (#[trigger] front[j]).interval
            >= 1_000_000_000 && front[j].phase < front[j].interval by {
            assert(intervals[j].interval >= 1_000_000_000);
        }
        lemma_no_interval_fault(front, 0);
        assert(intervals.take(i + 1).drop_last() == front);
        lemma_first_interval_fault(intervals, i + 1);
    }
}

/// Calendars are checked before exclusion calendars, and those before intervals.
pub proof fn law_the_order_of_checks(form: ScheduleView)
    ensures
        first_fault(form) is None <==> first_calendar_fault(form.structured_calendar) is None
            && first_calendar_fault(form.exclude_structured_calendar) is None
            && first_interval_fault(form.interval) is None,
        first_calendar_fault(form.structured_calendar) is Some ==> first_fault(form)
            == first_calendar_fault(form.structured_calendar),
        first_calendar_fault(form.structured_calendar) is None && first_calendar_fault(
            form.exclude_structured_calendar,
        ) is Some ==> first_fault(form) == first_calendar_fault(form.exclude_structured_calendar),
        first_calendar_fault(form.structured_calendar) is None && first_calendar_fault(
            form.exclude_structured_calendar,
        ) is None ==> first_fault(form) == first_interval_fault(form.interval),
{
}

/// Whether the texts of a schedule say this: its calendars, its exclusion calendars and its cron
/// strings, which name one time zone.
pub open spec fn texts_say(
    spec: ScheduleView,
    cals: Seq<StructuredCalendarView>,
    excludes: Seq<StructuredCalendarView>,
    said: Seq<CronView>,
) -> bool {
    &&& cals.len() == spec.calendar.len()
    &&& forall|k: int|
        0 <= k < cals.len() ==> structured_of(spec.calendar[k]) == Ok::<
            StructuredCalendarView,
            ErrorView,
        >(#[trigger] cals[k])
    &&& excludes.len() == spec.exclude_calendar.len()
    &&& forall|k: int|
        0 <= k < excludes.len() ==> structured_of(spec.exclude_calendar[k]) == Ok::<
            StructuredCalendarView,
            ErrorView,
        >(#[trigger] excludes[k])
    &&& said.len() == spec.cron_string.len()
    &&& forall|k: int|
        0 <= k < said.len() ==> cron_of(spec.cron_string[k]) == Ok::<CronView, ErrorView>(
            #[trigger] said[k],
        ) && said[k].timezone == said[0].timezone
}

/// Whether the time zone that cron strings name is in conflict with a schedule's: the schedule
/// holds time zone data, or names another.
pub open spec fn zones_differ(spec: ScheduleView, said: Seq<CronView>) -> bool {
    &&& said.len() > 0
    &&& said[0].timezone is Some
    &&& said[0].timezone->Some_0.len() > 0
    &&& spec.timezone_data is Some || (spec.timezone_name.len() > 0 && spec.timezone_name
        != said[0].timezone->Some_0)
}

/// If all texts can be read, a time zone of the cron strings that is not the schedule's is an
/// error, whatever else is wrong.
#[verifier::rlimit(40)]
pub proof fn law_time_zones_in_conflict(
    spec: ScheduleView,
    cals: Seq<StructuredCalendarView>,
    excludes: Seq<StructuredCalendarView>,
    said: Seq<CronView>,
)
    requires
        texts_say(spec, cals, excludes, said),
    ensures
        zones_differ(spec, said) <==> canonical_of(spec) == Err::<ScheduleView, ErrorView>(
            ErrorView::ConflictingTimezoneNames,
        ),
{
    law_every_cron_string_is_read(spec.cron_string, said);
    lemma_all_read(spec.calendar, cals);
    lemma_all_read(spec.exclude_calendar, excludes);
    let name = zone_name(spec, cron_zone(said));
    if name is Ok {
        let form = without_text(spec, cals, excludes, said, name->Ok_0);
        lemma_faults_are_not_conflicts(form.structured_calendar);
        lemma_faults_are_not_conflicts(form.exclude_structured_calendar);
        lemma_interval_faults_are_not_conflicts(form.interval);
    }
}

/// A fault of a calendar is no conflict of time zones.
proof fn lemma_faults_are_not_conflicts(cals: Seq<StructuredCalendarView>)
    ensures
        first_calendar_fault(cals) != Some(ErrorView::ConflictingTimezoneNames),
    decreases cals.len(),
{
    if cals.len() > 0 {
        lemma_faults_are_not_conflicts(cals.drop_last());
    }
}

/// A fault of an interval is no conflict of time zones.
proof fn lemma_interval_faults_are_not_conflicts(intervals: Seq<IntervalView>)
    ensures
        first_interval_fault(intervals) != Some(ErrorView::ConflictingTimezoneNames),
    decreases intervals.len(),
{
    if intervals.len() > 0 {
        lemma_interval_faults_are_not_conflicts(intervals.drop_last());
    }
}

/// If all texts can be read and the time zones are not in conflict, the error is what is wrong with
/// the first calendar that is not valid, with the first exclusion calendar if all calendars are, or
/// with the first interval if all of these are.
#[verifier::rlimit(40)]
pub proof fn law_the_first_fault_is_the_error(
    spec: ScheduleView,
    cals: Seq<StructuredCalendarView>,
    excludes: Seq<StructuredCalendarView>,
    said: Seq<CronView>,
    i: int,
)
    requires
        texts_say(spec, cals, excludes, said),
        !zones_differ(spec, said),
    ensures
        ({
            let all = spec.structured_calendar + cals + cron_calendars(said);
            0 <= i < all.len() && !is_valid(all[i]) && (forall|j: int|
                0 <= j < i ==> is_valid(#[trigger] all[j])) ==> canonical_of(spec) == Err::<
                ScheduleView,
                ErrorView,
            >(ErrorView::InvalidCalendarSpec(joined(calendar_faults(all[i]), ", "@)))
        }),
        ({
            let before = spec.structured_calendar + cals + cron_calendars(said);
            let all = spec.exclude_structured_calendar + excludes;
            0 <= i < all.len() && !is_valid(all[i]) && (forall|j: int|
                0 <= j < i ==> is_valid(#[trigger] all[j])) && (forall|j: int|
                0 <= j < before.len() ==> is_valid(#[trigger] before[j])) ==> canonical_of(spec)
                == Err::<ScheduleView, ErrorView>(
                ErrorView::InvalidCalendarSpec(joined(calendar_faults(all[i]), ", "@)),
            )
        }),
        ({
            let before = spec.structured_calendar + cals + cron_calendars(said);
            let excluded = spec.exclude_structured_calendar + excludes;
            let all = spec.interval + cron_intervals(said);
            0 <= i < all.len() && (all[i].interval < 1_000_000_000 || all[i].phase
                >= all[i].interval) && (forall|j: int|
                0 <= j < i ==> (#[trigger] all[j]).interval >= 1_000_000_000 && all[j].phase
                    < all[j].interval) && (forall|j: int|
                0 <= j < before.len() ==> is_valid(#[trigger] before[j])) && (forall|j: int|
                0 <= j < excluded.len() ==> is_valid(#[trigger] excluded[j])) ==> canonical_of(spec)
                == Err::<ScheduleView, ErrorView>(
                if all[i].interval < 1_000_000_000 {
                    ErrorView::IntervalTooSmall
                } else {
                    ErrorView::PhaseExceedsInterval
                },
            )
        }),
{
    law_every_cron_string_is_read(spec.cron_string, said);
    lemma_all_read(spec.calendar, cals);
    lemma_all_read(spec.exclude_calendar, excludes);
    let name = zone_name(spec, cron_zone(said));
    assert(name is Ok);
    let form = without_text(spec, cals, excludes, said, name->Ok_0);
    law_the_first_fault(form.structured_calendar, form.interval, i);
    law_the_first_fault(form.exclude_structured_calendar, form.interval, i);
    lemma_no_fault(form.structured_calendar, 0);
    lemma_no_fault(form.exclude_structured_calendar, 0);
}

} // verus!
