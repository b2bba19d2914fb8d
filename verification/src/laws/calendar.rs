//! Calendars: what they are read from, what they may hold and what they match.
use jiff::tz::TimeZone;
use vstd::prelude::*;

use crate::calendar::{
    all_values, calendar_accepts, calendar_fires, calendar_matches,
    law_matches_what_the_clocks_show, law_valid_years_match_as_written, lemma_all_values,
    lemma_stands_for, range_values, shows, years_have, CompiledCalendar,
};
use crate::canonical::{clean_range, cleaned};
use crate::civil::{day_number, weekday_of, CivilTime};
use crate::error::ErrorView;
use crate::laws::range::{law_a_number, law_steps_and_stars};
use crate::laws::time::law_days_of_the_week;
use crate::range::{
    calendar_faults, field_faults, interval_fault, law_valid_means_well_formed,
    law_written_ranges_are_within, ranges_of, structured_of, within, ParseMode,
};
use crate::text::{decimal, joined, lemma_decimal};
use crate::time::MAX_SECOND;
use crate::types::{
    ranges_have, CalendarView, IntervalView, Range, ScheduleView, StructuredCalendarView,
};
use crate::zone::{orderly_between, zone_offsets};

verus! {

// ---------------------------------------------------------------------------
// Reading
// ---------------------------------------------------------------------------

/// Each field of a calendar is read from its own text, with its own limits and default. A calendar
/// can be read if and only if each of its fields can. Its comment stays as it is.
pub proof fn law_each_field_is_read_from_its_own_text(cal: CalendarView)
    ensures
        ({
            let second = ranges_of(cal.second, "Second"@, "0"@, 0, 59, ParseMode::Int);
            let minute = ranges_of(cal.minute, "Minute"@, "0"@, 0, 59, ParseMode::Int);
            let hour = ranges_of(cal.hour, "Hour"@, "0"@, 0, 23, ParseMode::Int);
            let day = ranges_of(cal.day_of_month, "DayOfMonth"@, "*"@, 1, 31, ParseMode::Int);
            let month = ranges_of(cal.month, "Month"@, "*"@, 1, 12, ParseMode::Month);
            let weekday = ranges_of(cal.day_of_week, "DayOfWeek"@, "*"@, 0, 7, ParseMode::Dow);
            let year = ranges_of(cal.year, "Year"@, "*"@, 2000, 2100, ParseMode::Year);
            match structured_of(cal) {
                Ok(s) => {
                    &&& second == Ok::<Seq<Range>, ErrorView>(s.second)
                    &&& minute == Ok::<Seq<Range>, ErrorView>(s.minute)
                    &&& hour == Ok::<Seq<Range>, ErrorView>(s.hour)
                    &&& day == Ok::<Seq<Range>, ErrorView>(s.day_of_month)
                    &&& month == Ok::<Seq<Range>, ErrorView>(s.month)
                    &&& weekday == Ok::<Seq<Range>, ErrorView>(s.day_of_week)
                    &&& year == Ok::<Seq<Range>, ErrorView>(s.year)
                    &&& s.comment == cal.comment
                },
                Err(e) => {
                    &&& second is Err || minute is Err || hour is Err || day is Err || month is Err
                        || weekday is Err || year is Err
                    &&& e == ErrorView::InvalidCalendarSpec(
                        joined(
                            fault(second) + fault(minute) + fault(hour) + fault(weekday) + fault(
                                day,
                            ) + fault(month) + fault(year),
                            ", "@,
                        ),
                    )
                },
            }
        }),
{
    let fields = crate::range::fields_of(cal);
    assert(fault(fields.second) == crate::range::error_text(fields.second));
    assert(fault(fields.minute) == crate::range::error_text(fields.minute));
    assert(fault(fields.hour) == crate::range::error_text(fields.hour));
    assert(fault(fields.day_of_week) == crate::range::error_text(fields.day_of_week));
    assert(fault(fields.day_of_month) == crate::range::error_text(fields.day_of_month));
    assert(fault(fields.month) == crate::range::error_text(fields.month));
    assert(fault(fields.year) == crate::range::error_text(fields.year));
}

/// What is wrong with a field in words, if anything is.
pub open spec fn fault(r: Result<Seq<Range>, ErrorView>) -> Seq<Seq<char>> {
    if r is Err {
        seq![r->Err_0.message()]
    } else {
        seq![]
    }
}

/// The words of the errors.
pub proof fn law_words_of_errors(field: Seq<char>, text: Seq<char>)
    ensures
        (ErrorView::RangeError { field: field, detail: text }).message() == field + ": "@ + text,
        ErrorView::InvalidCalendarSpec(text).message() == "invalid calendar spec: "@ + text,
        ErrorView::TimezoneNotFound(text).message() == "timezone not found: "@ + text,
        ErrorView::Internal(text).message() == text,
        ErrorView::ConflictingTimezoneNames.message() == "conflicting timezone names"@,
        ErrorView::IntervalTooSmall.message() == "interval is too small (minimum 1 second)"@,
        ErrorView::PhaseNegative.message() == "phase is negative"@,
        ErrorView::PhaseExceedsInterval.message() == "phase cannot be greater than interval"@,
        ErrorView::CronStringMissingFields.message()
            == "cron string has time zone but missing fields"@,
        ErrorView::CronStringFieldCount.message() == "cron string does not have 5-7 fields"@,
        ErrorView::CronStringMissingInterval.message()
            == "cron string does not have interval after @every"@,
{
}

/// A calendar that writes a date and a time of day in numbers accepts that moment and no other.
pub proof fn law_a_written_moment(c: CivilTime, comment: Seq<char>, x: CivilTime)
    requires
        c.valid(),
        x.valid(),
        2000 <= c.year <= 2100,
        -9999 <= x.year <= 9999,
    ensures
        structured_of(
            CalendarView {
                second: decimal(c.second as int),
                minute: decimal(c.minute as int),
                hour: decimal(c.hour as int),
                day_of_month: decimal(c.day as int),
                month: decimal(c.month as int),
                day_of_week: Seq::empty(),
                year: decimal(c.year as int),
                comment: comment,
            },
        ) matches Ok(s) && (calendar_accepts(s, x) <==> x == c),
{
    let cal = CalendarView {
        second: decimal(c.second as int),
        minute: decimal(c.minute as int),
        hour: decimal(c.hour as int),
        day_of_month: decimal(c.day as int),
        month: decimal(c.month as int),
        day_of_week: Seq::empty(),
        year: decimal(c.year as int),
        comment: comment,
    };
    let plain = ParseMode::Int;
    law_each_field_is_read_from_its_own_text(cal);
    law_a_number(c.second as int, "Second"@, "0"@, 0, 59, plain, x.second as int);
    law_a_number(c.minute as int, "Minute"@, "0"@, 0, 59, plain, x.minute as int);
    law_a_number(c.hour as int, "Hour"@, "0"@, 0, 23, plain, x.hour as int);
    law_a_number(c.day as int, "DayOfMonth"@, "*"@, 1, 31, plain, x.day as int);
    law_a_number(c.month as int, "Month"@, "*"@, 1, 12, ParseMode::Month, x.month as int);
    law_a_number(c.year as int, "Year"@, "*"@, 2000, 2100, ParseMode::Year, x.year as int);
    let day = weekday_of(x.day_count());
    law_days_of_the_week(x.day_count());
    lemma_every_day("DayOfWeek"@, day);
    let years = ranges_of(cal.year, "Year"@, "*"@, 2000, 2100, ParseMode::Year)->Ok_0;
    assert(years.len() > 0) by {
        law_a_number(c.year as int, "Year"@, "*"@, 2000, 2100, ParseMode::Year, c.year as int);
        let i = choose|i: int| 0 <= i < years.len() && (#[trigger] years[i]).has(c.year as int);
        assert(0 <= i < years.len());
    }
    law_written_ranges_are_within(cal.year, "Year"@, "*"@, 2000, 2100, ParseMode::Year);
    law_valid_years_match_as_written(years, x.year as int);
}

/// An empty field of the days of the week has every day.
proof fn lemma_every_day(field: Seq<char>, day: int)
    requires
        0 <= day <= 6,
    ensures
        ranges_of(Seq::empty(), field, "*"@, 0, 7, ParseMode::Dow) matches Ok(ranges)
            && ranges_have(ranges, day),
{
    reveal_strlit("*");
    assert("*"@ == seq!['*']);
    law_steps_and_stars(0, 1, field, "*"@, 0, 7, ParseMode::Dow, day);
    crate::laws::range::law_white_space_and_defaults(
        Seq::empty(),
        field,
        "*"@,
        0,
        7,
        ParseMode::Dow,
    );
    assert((day - 0) % 1 == 0 && day == day % 7);
}

/// A calendar of which no field is written accepts midnight of every day, and nothing else.
pub proof fn law_an_empty_calendar_is_every_midnight(comment: Seq<char>, x: CivilTime)
    requires
        x.valid(),
        -9999 <= x.year <= 9999,
    ensures
        structured_of(
            CalendarView {
                second: Seq::empty(),
                minute: Seq::empty(),
                hour: Seq::empty(),
                day_of_month: Seq::empty(),
                month: Seq::empty(),
                day_of_week: Seq::empty(),
                year: Seq::empty(),
                comment: comment,
            },
        ) matches Ok(s) && (calendar_accepts(s, x) <==> x.hour == 0 && x.minute == 0 && x.second
            == 0),
{
    let none = Seq::<char>::empty();
    let cal = CalendarView {
        second: none,
        minute: none,
        hour: none,
        day_of_month: none,
        month: none,
        day_of_week: none,
        year: none,
        comment: comment,
    };
    let plain = ParseMode::Int;
    law_each_field_is_read_from_its_own_text(cal);
    reveal_strlit("*");
    reveal_strlit("0");
    assert("*"@ == seq!['*']);
    assert("0"@ == decimal(0));
    lemma_default("Second"@, "0"@, 0, 59, plain);
    lemma_default("Minute"@, "0"@, 0, 59, plain);
    lemma_default("Hour"@, "0"@, 0, 23, plain);
    lemma_default("DayOfMonth"@, "*"@, 1, 31, plain);
    lemma_default("Month"@, "*"@, 1, 12, ParseMode::Month);
    lemma_default("Year"@, "*"@, 2000, 2100, ParseMode::Year);
    law_a_number(0, "Second"@, "0"@, 0, 59, plain, x.second as int);
    law_a_number(0, "Minute"@, "0"@, 0, 59, plain, x.minute as int);
    law_a_number(0, "Hour"@, "0"@, 0, 23, plain, x.hour as int);
    law_steps_and_stars(1, 1, "DayOfMonth"@, "*"@, 1, 31, plain, x.day as int);
    law_steps_and_stars(1, 1, "Month"@, "*"@, 1, 12, ParseMode::Month, x.month as int);
    law_steps_and_stars(2000, 1, "Year"@, "*"@, 2000, 2100, ParseMode::Year, 2000);
    assert((x.day - 1) % 1 == 0);
    assert((x.month - 1) % 1 == 0);
    law_days_of_the_week(x.day_count());
    lemma_every_day("DayOfWeek"@, weekday_of(x.day_count()));
}

/// An empty field is read as its default.
proof fn lemma_default(field: Seq<char>, def: Seq<char>, min: int, max: int, mode: ParseMode)
    requires
        def == seq!['*'] || def == decimal(0),
    ensures
        ranges_of(Seq::empty(), field, def, min, max, mode) == ranges_of(
            def,
            field,
            def,
            min,
            max,
            mode,
        ),
{
    lemma_decimal(0);
    assert(decimal(0) == seq!['0']);
    crate::laws::range::law_white_space_and_defaults(Seq::empty(), field, def, min, max, mode);
}

// ---------------------------------------------------------------------------
// What a calendar may hold
// ---------------------------------------------------------------------------

/// Whether each range goes up from a value of `min` or more to one of `max` or less.
pub open spec fn all_between(ranges: Seq<Range>, min: int, max: int) -> bool {
    forall|i: int|
        0 <= i < ranges.len() ==> {
            let r = #[trigger] ranges[i];
            min <= r.start && r.start <= max && (r.end == 0 || (r.start <= r.end && r.end <= max))
                && 0 <= r.step
        }
}

/// A calendar is valid if and only if its seconds and minutes go from 0 to 59, its hours to 23, its
/// days from 1 to 31, its months to 12, its years from 2000 to 2100 and its days of the week from 0
/// to 6, and its comment has 200 characters at most.
pub proof fn law_what_a_calendar_may_hold(cal: StructuredCalendarView)
    ensures
        calendar_faults(cal).len() == 0 <==> {
            &&& all_between(cal.second, 0, 59)
            &&& all_between(cal.minute, 0, 59)
            &&& all_between(cal.hour, 0, 23)
            &&& all_between(cal.day_of_month, 1, 31)
            &&& all_between(cal.month, 1, 12)
            &&& all_between(cal.year, 2000, 2100)
            &&& all_between(cal.day_of_week, 0, 6)
            &&& cal.comment.len() <= 200
        },
{
    law_valid_means_well_formed(cal);
    lemma_all_between(cal.second, 0, 59);
    lemma_all_between(cal.minute, 0, 59);
    lemma_all_between(cal.hour, 0, 23);
    lemma_all_between(cal.day_of_month, 1, 31);
    lemma_all_between(cal.month, 1, 12);
    lemma_all_between(cal.year, 2000, 2100);
    lemma_all_between(cal.day_of_week, 0, 6);
}

/// Each range is within limits if it goes up between them.
proof fn lemma_all_between(ranges: Seq<Range>, min: int, max: int)
    ensures
        all_between(ranges, min, max) <==> forall|i: int|
            0 <= i < ranges.len() ==> within(#[trigger] ranges[i], min, max),
{
    if all_between(ranges, min, max) {
        assert forall|i: int| 0 <= i < ranges.len() implies within(
            #[trigger] ranges[i],
            min,
            max,
        ) by {}
    }
    if forall|i: int| 0 <= i < ranges.len() ==> within(#[trigger] ranges[i], min, max) {
        assert forall|i: int| 0 <= i < ranges.len() implies ({
            let r = #[trigger] ranges[i];
            min <= r.start && r.start <= max && (r.end == 0 || (r.start <= r.end && r.end <= max))
                && 0 <= r.step
        }) by {
            assert(within(ranges[i], min, max));
        }
    }
}

/// What is wrong with the ranges of a field is said range by range, and of one range first of its
/// start, then of its end and then of its step.
pub proof fn law_what_is_wrong_with_a_field(
    a: Seq<Range>,
    b: Seq<Range>,
    field: Seq<char>,
    min: int,
    max: int,
    r: Range,
)
    requires
        0 <= min <= max,
    ensures
        field_faults(a + b, field, min, max) == field_faults(a, field, min, max) + field_faults(
            b,
            field,
            min,
            max,
        ),
        ({
            let limits = seq!['['] + decimal(min) + seq!['-'] + decimal(max) + seq![']'];
            let faults = field_faults(seq![r], field, min, max);
            let start = if min <= r.start <= max {
                0int
            } else {
                1
            };
            let end = if r.end == 0 || r.start <= r.end <= max {
                0int
            } else {
                1
            };
            let step = if r.step >= 0 {
                0int
            } else {
                1
            };
            &&& faults.len() == start + end + step
            &&& start == 1 ==> faults[0] == field + " Start is not in range "@ + limits
            &&& end == 1 ==> faults[start] == field + " End is before Start or not in range "@
                + limits
            &&& step == 1 ==> faults[start + end] == field + " has invalid Step"@
        }),
    decreases b.len(),
{
    reveal_strlit("[");
    reveal_strlit("-");
    reveal_strlit("]");
    assert("["@ == seq!['['] && "-"@ == seq!['-'] && "]"@ == seq![']']);
    let limits = seq!['['] + decimal(min) + seq!['-'] + decimal(max) + seq![']'];
    assert(crate::range::limits_text(min, max) == limits);
    assert(seq![r].drop_last() == Seq::<Range>::empty());
    assert(field_faults(seq![r].drop_last(), field, min, max) == Seq::<Seq<char>>::empty());
    if b.len() == 0 {
        assert(a + b == a);
        assert(field_faults(a + b, field, min, max) == field_faults(a, field, min, max)
            + field_faults(b, field, min, max));
    } else {
        assert((a + b).drop_last() == a + b.drop_last());
        law_what_is_wrong_with_a_field(a, b.drop_last(), field, min, max, r);
        assert(field_faults(a + b, field, min, max) == field_faults(a, field, min, max)
            + field_faults(b, field, min, max));
    }
}

/// An interval is valid if it is a second or more, and its phase is less.
pub proof fn law_what_an_interval_may_be(iv: IntervalView)
    ensures
        interval_fault(iv) is None <==> iv.interval >= 1_000_000_000 && iv.phase < iv.interval,
        interval_fault(iv) == Some(ErrorView::IntervalTooSmall) <==> iv.interval < 1_000_000_000,
        interval_fault(iv) == Some(ErrorView::PhaseExceedsInterval) <==> iv.interval
            >= 1_000_000_000 && iv.phase >= iv.interval,
{
}

// ---------------------------------------------------------------------------
// Matching
// ---------------------------------------------------------------------------

/// A valid calendar accepts a civil time if and only if each of its fields has the value: its
/// seconds, minutes, hours, days, months, its days of the week that of the date, and its years, of
/// which none written means all.
pub proof fn law_every_field_must_match(cal: StructuredCalendarView, c: CivilTime)
    requires
        all_between(cal.year, 2000, 2100),
        -9999 <= c.year <= 9999,
    ensures
        calendar_accepts(cal, c) <==> {
            &&& cal.year.len() == 0 || ranges_have(cal.year, c.year as int)
            &&& ranges_have(cal.month, c.month as int)
            &&& ranges_have(cal.day_of_month, c.day as int)
            &&& ranges_have(
                cal.day_of_week,
                (day_number(c.year as int, c.month as int, c.day as int) + 4) % 7,
            )
            &&& ranges_have(cal.hour, c.hour as int)
            &&& ranges_have(cal.minute, c.minute as int)
            &&& ranges_have(cal.second, c.second as int)
        },
{
    lemma_all_between(cal.year, 2000, 2100);
    law_valid_years_match_as_written(cal.year, c.year as int);
}

/// A calendar matches a second if and only if it accepts what the clocks then show, which is as far
/// ahead of UTC as the time zone says, and fires at it if the year is not after 2100.
pub proof fn law_the_clocks_decide(
    cal: StructuredCalendarView,
    tz: TimeZone,
    s: int,
    c: CivilTime,
)
    requires
        c.valid(),
        c.count() == s + zone_offsets(tz)[s],
    ensures
        shows(tz, s, c),
        calendar_matches(cal, tz, s) <==> calendar_accepts(cal, c),
        calendar_fires(cal, tz, s) <==> calendar_accepts(cal, c) && c.year <= 2100,
{
    law_matches_what_the_clocks_show(cal, tz, s, c);
}

/// A compiled calendar matches a second if and only if the calendar accepts what the clocks then
/// show.
pub proof fn law_a_compiled_calendar_matches_what_is_shown(
    compiled: CompiledCalendar,
    cal: StructuredCalendarView,
    tz: TimeZone,
    s: int,
    c: CivilTime,
)
    requires
        compiled.stands_for(cal, tz),
        c.valid(),
        c.count() == s + zone_offsets(tz)[s],
    ensures
        compiled.matches_at(s) <==> calendar_accepts(cal, c),
        compiled.fires_at(s) <==> calendar_accepts(cal, c) && c.year <= 2100,
{
    assert(shows(tz, s, c));
    law_the_clocks_decide(cal, tz, s, c);
    lemma_stands_for(compiled, cal, tz, s);
    assert(compiled.zone() == tz);
}

/// What a compiled calendar finds next comes later, and the calendar accepts what the clocks then
/// show, in a year up to 2100. Nothing that it accepts is passed over: there is no such second
/// before, or at all if nothing is found. This is said where the time zone is orderly up to the
/// second.
pub proof fn law_what_a_compiled_calendar_finds(
    compiled: CompiledCalendar,
    cal: StructuredCalendarView,
    tz: TimeZone,
    after: int,
    r: Option<int>,
    k: int,
    c: CivilTime,
)
    requires
        compiled.stands_for(cal, tz),
        compiled.is_next(after, r),
        c.valid(),
        c.count() == k + zone_offsets(tz)[k],
    ensures
        r == Some(k) ==> after < k <= MAX_SECOND && calendar_accepts(cal, c) && c.year <= 2100,
        after < k <= MAX_SECOND && orderly_between(tz, after + 1, k) && calendar_accepts(cal, c)
            && c.year <= 2100 ==> r is Some && after < r->Some_0 <= k,
{
    law_a_compiled_calendar_matches_what_is_shown(compiled, cal, tz, k, c);
}

/// The values of ranges, listed in order: of each range from its start upwards, range by range, and
/// just those that the ranges have.
pub proof fn law_values_are_listed_in_order(a: Seq<Range>, r: Range, v: int)
    requires
        r.step >= 0,
    ensures
        all_values(a).contains(v) <==> ranges_have(a, v),
        all_values(a.push(r)) == all_values(a) + range_values(r),
        forall|i: int, j: int|
            0 <= i < j < range_values(r).len() ==> #[trigger] range_values(r)[i]
                < #[trigger] range_values(r)[j],
        range_values(r).contains(v) <==> r.has(v),
{
    lemma_all_values(a, v);
    crate::calendar::lemma_range_values(r, v);
    assert(a.push(r).drop_last() == a);
    let step = r.stride();
    assert forall|i: int, j: int| 0 <= i < j < range_values(r).len() implies #[trigger]
        range_values(r)[i] < #[trigger] range_values(r)[j] by {
        assert(i * step < j * step) by (nonlinear_arith)
            requires
                i < j,
                step > 0,
        ;
    }
}

/// Years are told apart by their lower 16 bits, and no range has every year.
pub proof fn law_years(ranges: Seq<Range>, v: int)
    ensures
        ranges.len() == 0 ==> years_have(ranges, v),
        ranges_have(ranges, v) ==> years_have(ranges, v),
        -32_768 <= v <= 32_767 && ranges.len() > 0 && years_have(ranges, v) && (forall|w: int|
            #[trigger]
            ranges_have(ranges, w) ==> -32_768 <= w <= 32_767) ==> ranges_have(ranges, v),
{
}

// ---------------------------------------------------------------------------
// Writing out defaults
// ---------------------------------------------------------------------------

/// Writing out the defaults of a range keeps its start. An end before the start becomes the start,
/// a step of 0 becomes 1, and everything else stays.
pub proof fn law_defaults_written_out(r: Range)
    ensures
        clean_range(r).start == r.start,
        r.end >= r.start ==> clean_range(r).end == r.end,
        r.end < r.start ==> clean_range(r).end == r.start,
        r.step == 0 ==> clean_range(r).step == 1,
        r.step != 0 ==> clean_range(r).step == r.step,
{
}

/// Writing out defaults goes over every range of every field of every calendar and exclusion
/// calendar of a schedule, and changes nothing else.
pub proof fn law_defaults_are_written_out_everywhere(spec: ScheduleView, i: int, j: int)
    ensures
        ({
            let after = cleaned(spec);
            &&& after.structured_calendar.len() == spec.structured_calendar.len()
            &&& after.exclude_structured_calendar.len() == spec.exclude_structured_calendar.len()
            &&& 0 <= i < spec.structured_calendar.len() ==> is_written_out(
                spec.structured_calendar[i],
                after.structured_calendar[i],
                j,
            )
            &&& 0 <= i < spec.exclude_structured_calendar.len() ==> is_written_out(
                spec.exclude_structured_calendar[i],
                after.exclude_structured_calendar[i],
                j,
            )
            &&& after.interval == spec.interval
            &&& after.cron_string == spec.cron_string
            &&& after.calendar == spec.calendar
            &&& after.exclude_calendar == spec.exclude_calendar
            &&& after.start_time == spec.start_time
            &&& after.end_time == spec.end_time
            &&& after.jitter == spec.jitter
            &&& after.timezone_name == spec.timezone_name
            &&& after.timezone_data == spec.timezone_data
        }),
{
}

/// Whether the ranges at place `j` of the fields of a calendar were written out in another.
pub open spec fn is_written_out(
    before: StructuredCalendarView,
    after: StructuredCalendarView,
    j: int,
) -> bool {
    &&& one_written_out(before.second, after.second, j)
    &&& one_written_out(before.minute, after.minute, j)
    &&& one_written_out(before.hour, after.hour, j)
    &&& one_written_out(before.day_of_month, after.day_of_month, j)
    &&& one_written_out(before.month, after.month, j)
    &&& one_written_out(before.year, after.year, j)
    &&& one_written_out(before.day_of_week, after.day_of_week, j)
    &&& before.comment == after.comment
}

/// Whether the range at place `j` was written out, and there are as many as before.
pub open spec fn one_written_out(before: Seq<Range>, after: Seq<Range>, j: int) -> bool {
    before.len() == after.len() && (0 <= j < before.len() ==> after[j] == clean_range(before[j]))
}

} // verus!
