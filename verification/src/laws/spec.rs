//! When a schedule fires.
use jiff::tz::TimeZone;
use vstd::prelude::*;

use crate::calendar::{calendar_accepts, calendar_fires, calendar_matches, shows};
use crate::civil::{year_start, CivilTime};
use crate::interval::ticks;
use crate::jitter::{delayed, fingerprint32, hashed_bytes};
use crate::laws::calendar::law_the_clocks_decide;
use crate::spec::{
    calendar_due, comes_up, excluded, is_next_time, raw_next, search_from, tick_due, too_late,
    zone_to_find,
};
use crate::time::{floor_second, MAX_SECOND, MIN_SECOND};
use crate::types::{GetNextTimeResult, IntervalView, ScheduleView, StructuredCalendarView};
use crate::zone::{
    law_orderly_in_part, orderly, orderly_between, undisturbed, zone_offsets, zone_transitions,
};

verus! {

// ---------------------------------------------------------------------------
// What makes a schedule fire
// ---------------------------------------------------------------------------

/// Whether a calendar accepts what the clocks of a time zone show at second `k`.
pub open spec fn is_shown(cal: StructuredCalendarView, tz: TimeZone, k: int) -> bool {
    exists|c: CivilTime|
        c.valid() && #[trigger] c.count() == k + zone_offsets(tz)[k] && calendar_accepts(cal, c)
}

/// Whether second `k` is as many seconds away from an interval's phase as a multiple of its length
/// has.
pub open spec fn is_tick(iv: IntervalView, k: int) -> bool {
    let length = if iv.interval < 1_000_000_000 {
        1
    } else {
        iv.interval / 1_000_000_000
    };
    let phase = if iv.phase < 0 {
        0
    } else {
        iv.phase / 1_000_000_000
    };
    (k - phase) % length == 0
}

/// A second comes up if and only if, after the one given, one of the schedule's calendars accepts
/// what the clocks then show, in a year up to 2100, or one of its intervals ticks. It is excluded
/// if and only if one of its exclusion calendars accepts what the clocks show.
pub proof fn law_what_comes_up(form: ScheduleView, tz: TimeZone, after: int, k: int, c: CivilTime)
    requires
        c.valid(),
        c.count() == k + zone_offsets(tz)[k],
    ensures
        comes_up(form, tz, after, k) <==> after < k && {
            ||| c.year <= 2100 && exists|i: int|
                0 <= i < form.structured_calendar.len() && calendar_accepts(
                    #[trigger] form.structured_calendar[i],
                    c,
                )
            ||| exists|i: int|
                0 <= i < form.interval.len() && is_tick(#[trigger] form.interval[i], k)
        },
        excluded(form, tz, k) <==> exists|i: int|
            0 <= i < form.exclude_structured_calendar.len() && calendar_accepts(
                #[trigger] form.exclude_structured_calendar[i],
                c,
            ),
{
    assert forall|cal: StructuredCalendarView| #[trigger]
        calendar_fires(cal, tz, k) == (calendar_accepts(cal, c) && c.year <= 2100) by {
        law_the_clocks_decide(cal, tz, k, c);
    }
    assert forall|cal: StructuredCalendarView| #[trigger]
        calendar_matches(cal, tz, k) == calendar_accepts(cal, c) by {
        law_the_clocks_decide(cal, tz, k, c);
    }
    assert(calendar_due(form, tz, k) <==> c.year <= 2100 && exists|i: int|
        0 <= i < form.structured_calendar.len() && calendar_accepts(
            #[trigger] form.structured_calendar[i],
            c,
        )) by {
        if calendar_due(form, tz, k) {
            let i = choose|i: int|
                0 <= i < form.structured_calendar.len() && calendar_fires(
                    #[trigger] form.structured_calendar[i],
                    tz,
                    k,
                );
            assert(calendar_accepts(form.structured_calendar[i], c));
        }
        if c.year <= 2100 && exists|i: int|
            0 <= i < form.structured_calendar.len() && calendar_accepts(
                #[trigger] form.structured_calendar[i],
                c,
            ) {
            let i = choose|i: int|
                0 <= i < form.structured_calendar.len() && calendar_accepts(
                    #[trigger] form.structured_calendar[i],
                    c,
                );
            assert(calendar_fires(form.structured_calendar[i], tz, k));
        }
    }
    lemma_ticks(form, k);
    lemma_excluded(form, tz, k);
    assert forall|i: int| 0 <= i < form.exclude_structured_calendar.len() implies (is_shown(
        #[trigger] form.exclude_structured_calendar[i],
        tz,
        k,
    ) <==> calendar_accepts(form.exclude_structured_calendar[i], c)) by {
        let cal = form.exclude_structured_calendar[i];
        lemma_shown(cal, tz, k);
        assert(calendar_matches(cal, tz, k) == calendar_accepts(cal, c));
    }
}

/// An interval ticks at its ticks.
proof fn lemma_ticks(form: ScheduleView, k: int)
    ensures
        tick_due(form, k) <==> exists|i: int|
            0 <= i < form.interval.len() && is_tick(#[trigger] form.interval[i], k),
{
    assert forall|iv: IntervalView| #[trigger] ticks(iv, k) == is_tick(iv, k) by {}
    if tick_due(form, k) {
        let i = choose|i: int|
            0 <= i < form.interval.len() && ticks(#[trigger] form.interval[i], k);
        assert(is_tick(form.interval[i], k));
    }
    if exists|i: int| 0 <= i < form.interval.len() && is_tick(#[trigger] form.interval[i], k) {
        let i = choose|i: int|
            0 <= i < form.interval.len() && is_tick(#[trigger] form.interval[i], k);
        assert(ticks(form.interval[i], k));
    }
}

/// A calendar matches what is shown.
proof fn lemma_shown(cal: StructuredCalendarView, tz: TimeZone, k: int)
    ensures
        is_shown(cal, tz, k) <==> calendar_matches(cal, tz, k),
{
    if is_shown(cal, tz, k) {
        let c = choose|c: CivilTime|
            c.valid() && #[trigger] c.count() == k + zone_offsets(tz)[k] && calendar_accepts(
                cal,
                c,
            );
        law_the_clocks_decide(cal, tz, k, c);
    }
    if calendar_matches(cal, tz, k) {
        let c = choose|c: CivilTime| #[trigger] shows(tz, k, c) && calendar_accepts(cal, c);
        assert(c.count() == k + zone_offsets(tz)[k]);
    }
}

/// A second is excluded if one of the exclusion calendars matches it.
proof fn lemma_excluded(form: ScheduleView, tz: TimeZone, k: int)
    ensures
        excluded(form, tz, k) <==> exists|i: int|
            0 <= i < form.exclude_structured_calendar.len() && is_shown(
                #[trigger] form.exclude_structured_calendar[i],
                tz,
                k,
            ),
{
    assert forall|i: int| 0 <= i < form.exclude_structured_calendar.len() implies (is_shown(
        #[trigger] form.exclude_structured_calendar[i],
        tz,
        k,
    ) <==> calendar_matches(form.exclude_structured_calendar[i], tz, k)) by {
        lemma_shown(form.exclude_structured_calendar[i], tz, k);
    }
    if excluded(form, tz, k) {
        let i = choose|i: int|
            0 <= i < form.exclude_structured_calendar.len() && calendar_matches(
                #[trigger] form.exclude_structured_calendar[i],
                tz,
                k,
            );
        assert(is_shown(form.exclude_structured_calendar[i], tz, k));
    }
    if exists|i: int|
        0 <= i < form.exclude_structured_calendar.len() && is_shown(
            #[trigger] form.exclude_structured_calendar[i],
            tz,
            k,
        ) {
        let i = choose|i: int|
            0 <= i < form.exclude_structured_calendar.len() && is_shown(
                #[trigger] form.exclude_structured_calendar[i],
                tz,
                k,
            );
        assert(calendar_matches(form.exclude_structured_calendar[i], tz, k));
    }
}

// ---------------------------------------------------------------------------
// What a schedule answers
// ---------------------------------------------------------------------------

/// A time that a schedule answers is a whole second after the one asked for, not before the
/// schedule's start, before its end and before the year 2101. One of its calendars accepts what
/// the clocks then show, or one of its intervals ticks. None of its exclusion calendars accepts
/// what the clocks show.
pub proof fn law_an_answer_is_a_time_that_counts(
    form: ScheduleView,
    tz: TimeZone,
    seed: Seq<char>,
    after: int,
    r: GetNextTimeResult,
    t: int,
)
    requires
        is_next_time(form, tz, seed, after, r),
        r.nominal matches Some(nominal) && t == floor_second(nominal@),
    ensures
        r.nominal->Some_0@ == t * 1_000_000_000,
        after < t * 1_000_000_000,
        form.start_time matches Some(start) ==> start <= t * 1_000_000_000,
        form.end_time matches Some(end) ==> t * 1_000_000_000 < end,
        t < 4_133_980_800,
        (exists|i: int|
            0 <= i < form.structured_calendar.len() && is_shown(
                #[trigger] form.structured_calendar[i],
                tz,
                t,
            )) || (exists|i: int|
            0 <= i < form.interval.len() && is_tick(#[trigger] form.interval[i], t)),
        forall|i: int|
            0 <= i < form.exclude_structured_calendar.len() ==> !is_shown(
                #[trigger] form.exclude_structured_calendar[i],
                tz,
                t,
            ),
{
    lemma_excluded(form, tz, t);
    lemma_ticks(form, t);
    assert(year_start(2101) == 4_133_980_800);
    if calendar_due(form, tz, t) {
        let i = choose|i: int|
            0 <= i < form.structured_calendar.len() && calendar_fires(
                #[trigger] form.structured_calendar[i],
                tz,
                t,
            );
        let cal = form.structured_calendar[i];
        let c = choose|c: CivilTime| #[trigger]
            shows(tz, t, c) && calendar_accepts(cal, c) && c.year <= 2100;
        assert(c.count() == t + zone_offsets(tz)[t]);
        assert(is_shown(cal, tz, t));
    }
}

/// What a schedule answers is the first time that counts: no second counts that comes after the
/// time asked for and before the answer, or at all if nothing is answered. A second counts if it
/// is not before the start, is before the end and before the year 2101, a calendar accepts what
/// the clocks show in a year up to 2100, or an interval ticks, and no exclusion calendar accepts
/// what the clocks show.
///
/// Of calendars this is said where the time zone is orderly up to the second.
pub proof fn law_no_time_that_counts_is_passed_over(
    form: ScheduleView,
    tz: TimeZone,
    seed: Seq<char>,
    after: int,
    r: GetNextTimeResult,
    k: int,
    c: CivilTime,
)
    requires
        is_next_time(form, tz, seed, after, r),
        after < k * 1_000_000_000,
        form.start_time matches Some(start) ==> start <= k * 1_000_000_000,
        form.end_time matches Some(end) ==> k * 1_000_000_000 < end,
        k < 4_133_980_800,
        c.valid(),
        c.count() == k + zone_offsets(tz)[k],
        (exists|i: int|
            0 <= i < form.interval.len() && is_tick(#[trigger] form.interval[i], k)) || (
        orderly_between(tz, floor_second(after) + 1, k) && c.year <= 2100 && exists|i: int|
            0 <= i < form.structured_calendar.len() && calendar_accepts(
                #[trigger] form.structured_calendar[i],
                c,
            )),
        forall|i: int|
            0 <= i < form.exclude_structured_calendar.len() ==> !calendar_accepts(
                #[trigger] form.exclude_structured_calendar[i],
                c,
            ),
    ensures
        r.nominal matches Some(nominal) && nominal@ <= k * 1_000_000_000,
{
    let from = search_from(form, after);
    law_what_comes_up(form, tz, from, k, c);
    assert(year_start(2101) == 4_133_980_800);
    assert(!too_late(form, k));
    assert(!excluded(form, tz, k));
    assert(floor_second(after) <= from < k);
    lemma_ticks(form, k);
    if exists|i: int| 0 <= i < form.interval.len() && is_tick(#[trigger] form.interval[i], k) {
        assert(tick_due(form, k));
    } else {
        law_orderly_in_part(tz, floor_second(after) + 1, k, from + 1, k);
        assert(calendar_due(form, tz, k));
    }
}

/// A start is delayed by the part that its fingerprint gives of the schedule's jitter, or of the
/// time until the second that comes up next, if that is shorter. Excluded seconds come up, too.
/// Without jitter it is not delayed.
///
/// Which second comes up next is said where the time zone is orderly up to it.
pub proof fn law_how_a_start_is_delayed(
    form: ScheduleView,
    tz: TimeZone,
    seed: Seq<char>,
    after: int,
    r: GetNextTimeResult,
    t: int,
    k: int,
)
    requires
        is_next_time(form, tz, seed, after, r),
        r.nominal matches Some(nominal) && t == floor_second(nominal@),
        k <= MAX_SECOND,
        comes_up(form, tz, t, k),
        forall|j: int| t < j < k ==> !#[trigger] comes_up(form, tz, t, j),
        orderly_between(tz, t + 1, k),
    ensures
        form.jitter is None ==> r.next->Some_0@ == t * 1_000_000_000,
        form.jitter matches Some(jitter) ==> {
            let gap = (k - t) * 1_000_000_000;
            let bound = if jitter <= gap {
                jitter
            } else {
                gap
            };
            r.next->Some_0@ == delayed(
                t * 1_000_000_000,
                bound,
                fingerprint32(hashed_bytes(seed, t * 1_000_000_000)),
            )
        },
{
    let following = raw_next(form, tz, t);
    let from = t + 1;
    assert forall|j: int| t < j < k implies #[trigger] orderly_between(tz, from, j) by {
        law_orderly_in_part(tz, from, k, from, j);
    }
    assert(following == Some(k)) by {
        assert(tick_due(form, k) || calendar_due(form, tz, k));
        if let Some(f) = following {
            assert(comes_up(form, tz, t, f));
        }
    }
}

/// Where nothing comes up any more, a start is delayed by the part that its fingerprint gives of
/// the schedule's jitter.
pub proof fn law_how_the_last_start_is_delayed(
    form: ScheduleView,
    tz: TimeZone,
    seed: Seq<char>,
    after: int,
    r: GetNextTimeResult,
    t: int,
)
    requires
        is_next_time(form, tz, seed, after, r),
        r.nominal matches Some(nominal) && t == floor_second(nominal@),
        forall|j: int| t < j <= MAX_SECOND ==> !#[trigger] comes_up(form, tz, t, j),
    ensures
        form.jitter is None ==> r.next->Some_0@ == t * 1_000_000_000,
        form.jitter matches Some(jitter) ==> r.next->Some_0@ == delayed(
            t * 1_000_000_000,
            jitter,
            fingerprint32(hashed_bytes(seed, t * 1_000_000_000)),
        ),
{
    if let Some(f) = raw_next(form, tz, t) {
        assert(comes_up(form, tz, t, f));
    }
}

/// A schedule answers both times or neither.
pub proof fn law_both_times_or_neither(
    form: ScheduleView,
    tz: TimeZone,
    seed: Seq<char>,
    after: int,
    r: GetNextTimeResult,
)
    requires
        is_next_time(form, tz, seed, after, r),
    ensures
        r.nominal is Some <==> r.next is Some,
{
}

// ---------------------------------------------------------------------------
// Time zones
// ---------------------------------------------------------------------------

/// A time zone is orderly if its clocks are less than 26 hours off UTC and keep their offset
/// between transitions, and each transition that it gives as the next one is the first after the
/// second. If it gives none, or one that is over, there is none.
pub proof fn law_zones_that_change_at_transitions_are_orderly(tz: TimeZone, changes: Set<int>)
    requires
        forall|s: int|
            MIN_SECOND <= s <= MAX_SECOND ==> -93_600 < #[trigger] zone_offsets(tz)[s] < 93_600,
        forall|s: int, k: int|
            MIN_SECOND <= s <= k <= MAX_SECOND && (forall|t: int|
                s < t <= k ==> !#[trigger] changes.contains(t)) ==> #[trigger] zone_offsets(tz)[s]
                == #[trigger] zone_offsets(tz)[k],
        forall|s: int|
            MIN_SECOND <= s <= MAX_SECOND ==> match #[trigger] zone_transitions(tz)[s] {
                Some(next) => forall|t: int|
                    s < t <= MAX_SECOND && (next <= s || t < next) ==> !#[trigger] changes.contains(
                        t,
                    ),
                None => forall|t: int|
                    s < t <= MAX_SECOND ==> !#[trigger] changes.contains(t),
            },
    ensures
        orderly(tz),
{
    assert forall|y: int, s: int, k: int|
        #![trigger year_start(y), zone_offsets(tz)[s], zone_offsets(tz)[k]]
        MIN_SECOND <= s <= k <= MAX_SECOND && year_start(y) <= s && k < year_start(y + 1)
            && undisturbed(zone_transitions(tz)[s], s, k) implies zone_offsets(tz)[k]
        == zone_offsets(tz)[s] by {
        let next = zone_transitions(tz)[s];
        assert forall|t: int| s < t <= k implies !#[trigger] changes.contains(t) by {}
    }
}

/// A schedule without a time zone of its own is looked up as UTC, and one with a name under it.
pub proof fn law_the_name_that_is_looked_up(form: ScheduleView)
    ensures
        form.timezone_name.len() == 0 ==> zone_to_find(form) == "UTC"@,
        form.timezone_name.len() > 0 ==> zone_to_find(form) == form.timezone_name,
{
}

} // verus!
