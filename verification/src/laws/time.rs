//! Dates, points in time, intervals and delays.
use vstd::prelude::*;
use vstd::utf8::encode_utf8;

use crate::civil::{
    day_after, day_number, days_before_month, earlier, hour_after, leap_year,
    lemma_count_keeps_order, lemma_later_month, lemma_next_year, minute_after, month_after,
    month_length, second_after, weekday_of, year_after, year_start, CivilTime,
};
use crate::interval::{law_next_tick_is_the_first, next_tick, ticks};
use crate::jitter::{delayed, hashed_bytes};
use crate::rfc3339::rfc3339_text;
use crate::time::{cut_second, floor_second, in_time_range};
use crate::types::IntervalView;

verus! {

// ---------------------------------------------------------------------------
// Dates
// ---------------------------------------------------------------------------

/// The lengths of the months. February has 29 days in the years that 4 divides but not 100, and in
/// those that 400 divides.
pub proof fn law_lengths_of_months(y: int)
    ensures
        leap_year(y) <==> (y % 4 == 0 && y % 100 != 0) || y % 400 == 0,
        month_length(y, 1) == 31,
        month_length(y, 2) == 28 || month_length(y, 2) == 29,
        month_length(y, 2) == 29 <==> (y % 4 == 0 && y % 100 != 0) || y % 400 == 0,
        month_length(y, 3) == 31,
        month_length(y, 4) == 30,
        month_length(y, 5) == 31,
        month_length(y, 6) == 30,
        month_length(y, 7) == 31,
        month_length(y, 8) == 31,
        month_length(y, 9) == 30,
        month_length(y, 10) == 31,
        month_length(y, 11) == 30,
        month_length(y, 12) == 31,
{
}

/// Days are numbered from 1970-01-01 on, one after the other: within a month, from a month to the
/// next and from a year to the next.
pub proof fn law_days_follow_each_other(y: int, mo: int, d: int)
    requires
        1 <= mo <= 12,
    ensures
        day_number(1970, 1, 1) == 0,
        day_number(y, mo, d + 1) == day_number(y, mo, d) + 1,
        mo < 12 ==> day_number(y, mo + 1, 1) == day_number(y, mo, month_length(y, mo)) + 1,
        day_number(y + 1, 1, 1) == day_number(y, 12, 31) + 1,
{
    lemma_next_year(y);
    lemma_later_month(y, 12, 13);
    assert(days_before_month(y, 13) == days_before_month(y, 12) + month_length(y, 12));
}

/// Days of the week follow each other, too: 1970-01-01 was a Thursday, the day after a Saturday is
/// a Sunday.
pub proof fn law_days_of_the_week(day: int)
    ensures
        0 <= weekday_of(day) <= 6,
        weekday_of(0) == 4,
        weekday_of(day) < 6 ==> weekday_of(day + 1) == weekday_of(day) + 1,
        weekday_of(day) == 6 ==> weekday_of(day + 1) == 0,
{
}

/// The time of day counts on from midnight, and a day has 86400 seconds. Hours go up to 23, minutes
/// and seconds up to 59, days up to the length of their month.
pub proof fn law_seconds_of_a_day(c: CivilTime)
    ensures
        c.count() == 86_400 * day_number(c.year as int, c.month as int, c.day as int) + 3600
            * c.hour + 60 * c.minute + c.second,
        c.day_count() == day_number(c.year as int, c.month as int, c.day as int),
        c.valid() <==> 1 <= c.month <= 12 && 1 <= c.day <= month_length(
            c.year as int,
            c.month as int,
        ) && 0 <= c.hour <= 23 && 0 <= c.minute <= 59 && 0 <= c.second <= 59,
        year_start(c.year as int) == 86_400 * day_number(c.year as int, 1, 1),
{
}

/// The start of the next minute, hour or day is the next whole one.
pub proof fn law_the_next_unit_is_the_next_whole_one(c: CivilTime)
    requires
        c.valid(),
        c.year < i32::MAX,
    ensures
        second_after(c).valid() && second_after(c).count() == c.count() + 1,
        minute_after(c).valid() && minute_after(c).count() == (c.count() / 60 + 1) * 60,
        hour_after(c).valid() && hour_after(c).count() == (c.count() / 3600 + 1) * 3600,
        day_after(c).valid() && day_after(c).count() == (c.count() / 86_400 + 1) * 86_400,
{
    law_days_follow_each_other(c.year as int, c.month as int, c.day as int);
    reveal_with_fuel(days_before_month, 14);
    assert(day_after(c).count() == (c.day_count() + 1) * 86_400);
    assert(c.count() / 86_400 == c.day_count());
    assert(c.count() / 3600 == c.day_count() * 24 + c.hour);
    assert(c.count() / 60 == c.day_count() * 1440 + c.hour * 60 + c.minute);
}

/// The start of the next month is the first of the month after, and the start of the next year the
/// first of January of the year after, at midnight.
pub proof fn law_the_next_month_is_the_month_after(c: CivilTime)
    requires
        c.valid(),
        c.year < i32::MAX,
    ensures
        ({
            let m = month_after(c);
            &&& m.day == 1 && m.hour == 0 && m.minute == 0 && m.second == 0
            &&& c.month < 12 ==> m.year == c.year && m.month == c.month + 1
            &&& c.month == 12 ==> m.year == c.year + 1 && m.month == 1
        }),
        ({
            let y = year_after(c);
            &&& y.year == c.year + 1 && y.month == 1 && y.day == 1
            &&& y.hour == 0 && y.minute == 0 && y.second == 0
        }),
{
}

/// Civil times are in the order of their counts.
pub proof fn law_counting_orders_civil_times(a: CivilTime, b: CivilTime)
    requires
        a.valid(),
        b.valid(),
    ensures
        earlier(a, b) <==> a.count() < b.count(),
        a.count() == b.count() <==> a == b,
{
    if earlier(a, b) {
        lemma_count_keeps_order(a, b);
    } else if earlier(b, a) {
        lemma_count_keeps_order(b, a);
    }
}

// ---------------------------------------------------------------------------
// Points in time
// ---------------------------------------------------------------------------

/// A point in time lies in the second that its floor begins, and less than a second beyond the
/// second that is left when its fraction is cut off, on the side away from 1970.
pub proof fn law_the_second_of_a_point_in_time(nanos: int)
    ensures
        floor_second(nanos) * 1_000_000_000 <= nanos,
        nanos < (floor_second(nanos) + 1) * 1_000_000_000,
        nanos >= 0 ==> cut_second(nanos) == floor_second(nanos),
        nanos < 0 ==> nanos <= cut_second(nanos) * 1_000_000_000 < nanos + 1_000_000_000,
{
}

/// Points in time go from -009999-01-02T01:59:59Z to 9999-12-30T22:00:00.999999999Z.
pub proof fn law_the_range_of_time(nanos: int)
    ensures
        in_time_range(nanos) <==> -377_705_023_201_000_000_000 <= nanos
            <= 253_402_207_200_999_999_999,
{
}

// ---------------------------------------------------------------------------
// Intervals
// ---------------------------------------------------------------------------

/// An interval ticks at the seconds that differ from its phase by a multiple of its length, both
/// in whole seconds, and the next tick is the first after the second given. An interval of less
/// than a second counts as one.
pub proof fn law_ticks_of_an_interval(iv: IntervalView, after: int, k: int)
    requires
        iv.phase >= 0,
    ensures
        ({
            let length = if iv.interval < 1_000_000_000 {
                1
            } else {
                iv.interval / 1_000_000_000
            };
            let phase = iv.phase / 1_000_000_000;
            let next = next_tick(iv, after);
            &&& ticks(iv, phase + k * length)
            &&& ticks(iv, k) ==> (k - phase) % length == 0
            &&& after < next <= after + length
            &&& (next - phase) % length == 0
            &&& after < k < next ==> (k - phase) % length != 0
        }),
{
    let length = if iv.interval < 1_000_000_000 {
        1
    } else {
        iv.interval / 1_000_000_000
    };
    let phase = iv.phase / 1_000_000_000;
    law_next_tick_is_the_first(iv, after);
    vstd::arithmetic::div_mod::lemma_mod_multiples_basic(k, length);
    assert(phase + k * length - phase == k * length);
    if after < k < next_tick(iv, after) {
        assert(!ticks(iv, k));
    }
}

// ---------------------------------------------------------------------------
// Delays
// ---------------------------------------------------------------------------

/// A delay is the part of the bound that the fingerprint is of 2 to the power of 32, both in whole
/// milliseconds: it is that part, rounded down. A bound of more milliseconds than 32 bits hold
/// counts as the most that they hold.
pub proof fn law_a_delay_is_a_part_of_the_bound(nominal: int, max: int, fingerprint: u32)
    requires
        max >= 0,
        in_time_range(nominal),
    ensures
        ({
            let ms = if max / 1_000_000 <= 4_294_967_295 {
                max / 1_000_000
            } else {
                4_294_967_295
            };
            let late = delayed(nominal, max, fingerprint);
            exists|delay: int|
                0 <= delay && #[trigger] (delay * 0x1_0000_0000) <= fingerprint * ms < (delay + 1)
                    * 0x1_0000_0000 && (late == nominal + delay * 1_000_000 || (late == nominal
                    && nominal + delay * 1_000_000 > 253_402_207_200_999_999_999))
        }),
{
    let ms = if max / 1_000_000 <= 4_294_967_295 {
        max / 1_000_000
    } else {
        4_294_967_295
    };
    let delay = fingerprint * ms / 0x1_0000_0000;
    assert(fingerprint * ms >= 0) by (nonlinear_arith)
        requires
            fingerprint >= 0,
            ms >= 0,
    ;
    if max == 0 {
        assert(fingerprint * ms == 0) by (nonlinear_arith)
            requires
                ms == 0,
        ;
    }
    assert(delay * 0x1_0000_0000 <= fingerprint * ms < (delay + 1) * 0x1_0000_0000);
}

/// What is hashed for a delay is the text of the time and then the seed: a longer seed adds its own
/// bytes, and without a seed the text of the time is left.
pub proof fn law_the_seed_follows_the_time(a: Seq<char>, b: Seq<char>, nominal: int)
    ensures
        hashed_bytes(Seq::empty(), nominal) == encode_utf8(rfc3339_text(nominal)),
        hashed_bytes(a + b, nominal) == hashed_bytes(a, nominal) + encode_utf8(b),
{
    reveal_with_fuel(encode_utf8, 2);
    assert(encode_utf8(Seq::<char>::empty()) == Seq::<u8>::empty());
    lemma_encoded_in_parts(a, b);
    assert(hashed_bytes(a + b, nominal) == hashed_bytes(a, nominal) + encode_utf8(b));
}

/// Text is encoded character by character.
proof fn lemma_encoded_in_parts(a: Seq<char>, b: Seq<char>)
    ensures
        encode_utf8(a + b) == encode_utf8(a) + encode_utf8(b),
    decreases a.len(),
{
    if a.len() == 0 {
        assert(a + b == b);
    } else {
        assert((a + b).drop_first() == a.drop_first() + b);
        lemma_encoded_in_parts(a.drop_first(), b);
        assert(encode_utf8(a + b) == encode_utf8(a) + encode_utf8(b));
    }
}

} // verus!
