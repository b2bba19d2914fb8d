//! What schedules and their parts say: each field stands for itself.
use jiff::tz::TimeZone;
use vstd::prelude::*;

use crate::calendar::{civil_count, seconds, whole_seconds};
use crate::civil::CivilTime;
use crate::error::{ErrorView, SpecError};
use crate::spec::zone_view;
use crate::text::{strings, texts};
use crate::time::{duration_nanos, Timestamp};
use crate::types::{
    calendar_views, interval_views, structured_views, CalendarSpec, IntervalSpec, ScheduleSpec,
    StructuredCalendarSpec,
};

verus! {

/// A calendar says what its fields hold, each under its own name.
pub proof fn law_what_a_calendar_says(cal: StructuredCalendarSpec, text: CalendarSpec)
    ensures
        cal@.second == cal.second@,
        cal@.minute == cal.minute@,
        cal@.hour == cal.hour@,
        cal@.day_of_month == cal.day_of_month@,
        cal@.month == cal.month@,
        cal@.year == cal.year@,
        cal@.day_of_week == cal.day_of_week@,
        cal@.comment == cal.comment@,
        text@.second == text.second@,
        text@.minute == text.minute@,
        text@.hour == text.hour@,
        text@.day_of_month == text.day_of_month@,
        text@.month == text.month@,
        text@.year == text.year@,
        text@.day_of_week == text.day_of_week@,
        text@.comment == text.comment@,
{
}

/// An interval says how long it is and by how much it is moved, in nanoseconds.
pub proof fn law_what_an_interval_says(iv: IntervalSpec)
    ensures
        iv@.interval == duration_nanos(iv.interval),
        iv@.phase == duration_nanos(iv.phase),
{
}

/// A schedule says what its fields hold: each item of a list in its place, and what may be missing
/// if and only if it is there.
pub proof fn law_what_a_schedule_says(spec: ScheduleSpec, i: int)
    ensures
        spec@.structured_calendar.len() == spec.structured_calendar@.len(),
        0 <= i < spec.structured_calendar@.len() ==> spec@.structured_calendar[i]
            == spec.structured_calendar@[i]@,
        spec@.exclude_structured_calendar.len() == spec.exclude_structured_calendar@.len(),
        0 <= i < spec.exclude_structured_calendar@.len() ==> spec@.exclude_structured_calendar[i]
            == spec.exclude_structured_calendar@[i]@,
        spec@.interval.len() == spec.interval@.len(),
        0 <= i < spec.interval@.len() ==> spec@.interval[i] == spec.interval@[i]@,
        spec@.cron_string.len() == spec.cron_string@.len(),
        0 <= i < spec.cron_string@.len() ==> spec@.cron_string[i] == spec.cron_string@[i]@,
        spec@.calendar.len() == spec.calendar@.len(),
        0 <= i < spec.calendar@.len() ==> spec@.calendar[i] == spec.calendar@[i]@,
        spec@.exclude_calendar.len() == spec.exclude_calendar@.len(),
        0 <= i < spec.exclude_calendar@.len() ==> spec@.exclude_calendar[i]
            == spec.exclude_calendar@[i]@,
        spec@.start_time is Some <==> spec.start_time is Some,
        spec.start_time matches Some(t) ==> spec@.start_time == Some(t@),
        spec@.end_time is Some <==> spec.end_time is Some,
        spec.end_time matches Some(t) ==> spec@.end_time == Some(t@),
        spec@.jitter is Some <==> spec.jitter is Some,
        spec.jitter matches Some(d) ==> spec@.jitter == Some(duration_nanos(d)),
        spec@.timezone_name == spec.timezone_name@,
        spec@.timezone_data is Some <==> spec.timezone_data is Some,
        spec.timezone_data matches Some(b) ==> spec@.timezone_data == Some(b@),
{
}

/// What is said of a list is said of each of its items, in the same order.
pub proof fn law_what_lists_say(
    cals: Seq<StructuredCalendarSpec>,
    texts_of_calendars: Seq<CalendarSpec>,
    intervals: Seq<IntervalSpec>,
    words: Seq<String>,
    rows: Seq<&[char]>,
    i: int,
)
    ensures
        structured_views(cals).len() == cals.len(),
        0 <= i < cals.len() ==> structured_views(cals)[i] == cals[i]@,
        calendar_views(texts_of_calendars).len() == texts_of_calendars.len(),
        0 <= i < texts_of_calendars.len() ==> calendar_views(texts_of_calendars)[i]
            == texts_of_calendars[i]@,
        interval_views(intervals).len() == intervals.len(),
        0 <= i < intervals.len() ==> interval_views(intervals)[i] == intervals[i]@,
        strings(words).len() == words.len(),
        0 <= i < words.len() ==> strings(words)[i] == words[i]@,
        texts(rows).len() == rows.len(),
        0 <= i < rows.len() ==> texts(rows)[i] == rows[i]@,
{
}

/// What may be missing is missing if and only if there is nothing to say.
pub proof fn law_what_may_be_missing(
    second: i64,
    t: Timestamp,
    c: CivilTime,
    tz: TimeZone,
    e: SpecError,
)
    ensures
        seconds(Some(second)) == Some(second as int),
        seconds(None) is None,
        whole_seconds(Some(t)) == Some(t@ / 1_000_000_000),
        whole_seconds(None) is None,
        civil_count(Some(c)) == Some(c.count()),
        civil_count(None) is None,
        zone_view(Ok(tz)) == Ok::<TimeZone, ErrorView>(tz),
        zone_view(Err(e)) == Err::<TimeZone, ErrorView>(e@),
{
}

/// An error says which it is, and the text that it holds.
pub proof fn law_what_an_error_says(e: SpecError)
    ensures
        e matches SpecError::InvalidCalendarSpec(text) ==> e@ == ErrorView::InvalidCalendarSpec(
            text@,
        ),
        e is ConflictingTimezoneNames ==> e@ == ErrorView::ConflictingTimezoneNames,
        e is IntervalTooSmall ==> e@ == ErrorView::IntervalTooSmall,
        e is PhaseNegative ==> e@ == ErrorView::PhaseNegative,
        e is PhaseExceedsInterval ==> e@ == ErrorView::PhaseExceedsInterval,
        e is CronStringMissingFields ==> e@ == ErrorView::CronStringMissingFields,
        e is CronStringFieldCount ==> e@ == ErrorView::CronStringFieldCount,
        e is CronStringMissingInterval ==> e@ == ErrorView::CronStringMissingInterval,
        e matches SpecError::RangeError { field, detail } ==> e@ == (ErrorView::RangeError {
            field: field@,
            detail: detail@,
        }),
        e matches SpecError::TimezoneNotFound(text) ==> e@ == ErrorView::TimezoneNotFound(text@),
        e matches SpecError::Internal(text) ==> e@ == ErrorView::Internal(text@),
{
}

} // verus!
