//! Calendars: compiled for matching and for the search of the next match.
use jiff::tz::TimeZone;
use vstd::prelude::*;

pub use crate::cron::{handle_predefined_cron_strings, parse_cron_string};
pub use crate::duration::parse_duration;
pub use crate::range::{
    make_range, parse_calendar_to_structured, validate_interval, validate_structured_calendar,
    ParseMode,
};

use crate::civil::{
    civil_of, count_seconds, days_before_year, lemma_civil_of, lemma_count_is_injective,
    lemma_day_in_year, lemma_later_year, lemma_next_year, next_day, next_hour, next_minute,
    next_month, next_second, next_year, weekday_of, year_start, CivilTime,
};
use crate::range::within;
use crate::time::{floor_second, Timestamp, MAX_SECOND, MIN_SECOND};
use crate::types::{
    ranges_have, Range, StructuredCalendarSpec, StructuredCalendarView, MAX_CALENDAR_YEAR,
    MIN_CALENDAR_YEAR,
};
use crate::zone::{
    date_weekday, law_orderly_in_part, local_count, local_time, next_transition, orderly,
    orderly_between, utc, zone_offsets, zone_transitions,
};

verus! {

// ---------------------------------------------------------------------------
// The values of ranges
// ---------------------------------------------------------------------------

/// The number of values of a range.
pub open spec fn value_count(r: Range) -> int {
    if r.start > r.last() {
        0
    } else if r.stride() > 0 {
        (r.last() - r.start) / r.stride() + 1
    } else {
        1
    }
}

/// The values of a range, in order.
pub open spec fn range_values(r: Range) -> Seq<int> {
    Seq::new(value_count(r) as nat, |i: int| r.start + i * r.stride())
}

/// The values of the ranges of a list, in order.
pub open spec fn all_values(ranges: Seq<Range>) -> Seq<int>
    decreases ranges.len(),
{
    if ranges.len() == 0 {
        Seq::empty()
    } else {
        all_values(ranges.drop_last()) + range_values(ranges.last())
    }
}

/// The row of numbers that a row of `i32` stands for.
pub open spec fn as_ints(s: Seq<i32>) -> Seq<int> {
    s.map_values(|v: i32| v as int)
}

/// A range has a number if and only if it lists it.
pub proof fn lemma_range_values(r: Range, v: int)
    ensures
        range_values(r).contains(v) <==> r.has(v),
{
    let values = range_values(r);
    let step = r.stride();
    if values.contains(v) {
        let i = choose|i: int| 0 <= i < values.len() && values[i] == v;
        if step > 0 {
            assert((v - r.start) % step == 0 && v - r.start >= 0 && v <= r.last())
                by (nonlinear_arith)
                requires
                    step > 0,
                    0 <= i <= (r.last() - r.start) / step,
                    v == r.start + i * step,
                    r.start <= r.last(),
            {
                vstd::arithmetic::div_mod::lemma_mod_multiples_basic(i, step);
                vstd::arithmetic::div_mod::lemma_fundamental_div_mod(r.last() - r.start, step);
            }
        }
    }
    if r.has(v) {
        if step > 0 {
            let i = (v - r.start) / step;
            assert(v == r.start + i * step && 0 <= i <= (r.last() - r.start) / step)
                by (nonlinear_arith)
                requires
                    step > 0,
                    i == (v - r.start) / step,
                    (v - r.start) % step == 0,
                    r.start <= v <= r.last(),
            {
                vstd::arithmetic::div_mod::lemma_fundamental_div_mod(v - r.start, step);
                vstd::arithmetic::div_mod::lemma_div_is_ordered(
                    v - r.start,
                    r.last() - r.start,
                    step,
                );
            }
            assert(values[i] == v);
        } else {
            assert(values[0] == r.start + 0 * step);
            assert(values[0] == v);
        }
    }
}

/// The ranges of a list have a number if and only if they list it.
pub proof fn lemma_all_values(ranges: Seq<Range>, v: int)
    ensures
        all_values(ranges).contains(v) <==> ranges_have(ranges, v),
    decreases ranges.len(),
{
    if ranges.len() > 0 {
        let front = ranges.drop_last();
        let whole = all_values(ranges);
        lemma_all_values(front, v);
        lemma_range_values(ranges.last(), v);
        if whole.contains(v) {
            let i = choose|i: int| 0 <= i < whole.len() && whole[i] == v;
            if i < all_values(front).len() {
                assert(all_values(front)[i] == v);
                let j = choose|j: int| 0 <= j < front.len() && (#[trigger] front[j]).has(v);
                assert(ranges[j].has(v));
            } else {
                assert(range_values(ranges.last())[i - all_values(front).len()] == v);
                assert(ranges[ranges.len() - 1].has(v));
            }
        }
        if ranges_have(ranges, v) {
            let j = choose|j: int| 0 <= j < ranges.len() && (#[trigger] ranges[j]).has(v);
            if j < front.len() {
                assert(front[j].has(v));
                let i = choose|i: int|
                    0 <= i < all_values(front).len() && all_values(front)[i] == v;
                assert(whole[i] == v);
            } else {
                let i = choose|i: int|
                    0 <= i < range_values(ranges.last()).len() && range_values(ranges.last())[i]
                        == v;
                assert(whole[all_values(front).len() + i] == v);
            }
        }
    }
}

/// The values of the ranges, in order.
pub fn iterate_ranges(ranges: &Vec<Range>) -> (r: Vec<i32>)
    ensures
        as_ints(r@) == all_values(ranges@),
{
    let mut r: Vec<i32> = Vec::new();
    let mut i: usize = 0;
    while i < ranges.len()
        invariant
            i <= ranges.len(),
            as_ints(r@) == all_values(ranges@.take(i as int)),
        decreases ranges.len() - i,
    {
        let ghost before = as_ints(r@);
        let range = ranges[i];
        let start: i64 = range.start as i64;
        let end: i64 = range.effective_end() as i64;
        let step: i64 = range.effective_step() as i64;
        let ghost mut k: int = 0;
        let mut v: i64 = start;
        assert(range_values(range).take(0) == Seq::<int>::empty());
        assert(0 * step == 0) by (nonlinear_arith);
        proof {
            lemma_value_bound(range, 0);
        }
        while v <= end
            invariant
                range == ranges@[i as int],
                start == range.start,
                end == range.last(),
                step == range.stride(),
                0 <= k <= value_count(range),
                v == start + k * step || (k == 1 && v > end),
                start <= v <= end + 2_147_483_647 || v == start,
                v <= end ==> k < value_count(range),
                v > end ==> k == value_count(range),
                as_ints(r@) == before + range_values(range).take(k),
            decreases value_count(range) - k,
        {
            let ghost old_r = r@;
            r.push(v as i32);
            proof {
                assert(as_ints(r@) == as_ints(old_r).push(v as int));
                assert(range_values(range)[k] == v);
                assert(range_values(range).take(k + 1) == range_values(range).take(k).push(
                    v as int,
                ));
                assert((k + 1) * step == k * step + step) by (nonlinear_arith);
                lemma_value_bound(range, k + 1);
                k = k + 1;
            }
            if step > 0 {
                v = v + step;
            } else {
                v = end + 1;
            }
        }
        proof {
            assert(range_values(range).take(k) == range_values(range));
            assert(ranges@.take(i + 1).drop_last() == ranges@.take(i as int));
            assert(ranges@.take(i + 1).last() == range);
        }
        i = i + 1;
    }
    assert(ranges@.take(ranges@.len() as int) == ranges@);
    r
}

/// The value number `k` of a range is beyond its end exactly when there are only `k` values.
proof fn lemma_value_bound(r: Range, k: int)
    requires
        k >= 0,
    ensures
        r.stride() > 0 ==> (r.start + k * r.stride() <= r.last() <==> k < value_count(r)),
        r.stride() <= 0 ==> value_count(r) <= 1,
        k == 0 ==> (r.start <= r.last() <==> k < value_count(r)),
        value_count(r) >= 0,
{
    let step = r.stride();
    let span = r.last() - r.start;
    if step > 0 {
        if span >= 0 {
            assert(k * step <= span <==> k <= span / step) by (nonlinear_arith)
                requires
                    step > 0,
                    span >= 0,
                    k >= 0,
            {
                vstd::arithmetic::div_mod::lemma_fundamental_div_mod(span, step);
            }
            assert(span / step >= 0) by (nonlinear_arith)
                requires
                    step > 0,
                    span >= 0,
            ;
        } else {
            assert(k * step >= 0) by (nonlinear_arith)
                requires
                    step > 0,
                    k >= 0,
            ;
        }
    }
}

// ---------------------------------------------------------------------------
// Matching one field
// ---------------------------------------------------------------------------

/// Whether bit `v` of `bits` is set.
pub open spec fn bit(bits: u64, v: u64) -> bool {
    bits & (1u64 << v) != 0
}

/// Whether `v` is a value of one of the ranges.
fn contains_value(ranges: &Vec<Range>, v: i32) -> (r: bool)
    ensures
        r == ranges_have(ranges@, v as int),
{
    let mut i: usize = 0;
    while i < ranges.len()
        invariant
            i <= ranges.len(),
            forall|j: int| 0 <= j < i ==> !(#[trigger] ranges@[j]).has(v as int),
        decreases ranges.len() - i,
    {
        let range = ranges[i];
        let step: i64 = range.effective_step() as i64;
        if range.start <= v && v <= range.effective_end() && (v == range.start || (step > 0 && (
        v as i64 - range.start as i64) % step == 0)) {
            proof {
                if step > 0 {
                    vstd::arithmetic::div_mod::lemma_small_mod(0, step as nat);
                }
            }
            return true;
        }
        i = i + 1;
    }
    false
}

/// A set of values from 0 to 63, one bit for each.
#[derive(Debug, Clone, Copy, PartialEq, Eq, Structural)]
pub struct BitMatcher(u64);

impl BitMatcher {
    /// Whether `v` is in the set.
    pub closed spec fn accepts(self, v: int) -> bool {
        0 <= v < 64 && bit(self.0, v as u64)
    }

    /// The values of the ranges; with `default_all`, every value if there are no ranges.
    pub fn new(ranges: &Vec<Range>, default_all: bool) -> (r: BitMatcher)
        ensures
            forall|v: int|
                #[trigger] r.accepts(v) <==> 0 <= v < 64 && (ranges_have(ranges@, v) || (
                default_all && ranges@.len() == 0)),
    {
        let all = ranges.len() == 0 && default_all;
        let mut bits: u64 = 0;
        let mut place: u64 = 0;
        assert(forall|v: u64| v < 64 ==> 0u64 & (1u64 << v) == 0) by (bit_vector);
        while place < 64
            invariant
                place <= 64,
                all == (ranges@.len() == 0 && default_all),
                forall|v: u64|
                    v < 64 ==> (#[trigger] bit(bits, v) <==> v < place && (ranges_have(
                        ranges@,
                        v as int,
                    ) || all)),
            decreases 64 - place,
        {
            if all || contains_value(ranges, place as i32) {
                let ghost before = bits;
                bits = bits | (1u64 << place);
                proof {
                    assert forall|v: u64| v < 64 implies (#[trigger] bit(bits, v) <==> bit(
                        before,
                        v,
                    ) || v == place) by {
                        assert((before | (1u64 << place)) & (1u64 << v) != 0 <==> before & (1u64
                            << v) != 0 || v == place) by (bit_vector)
                            requires
                                v < 64,
                                place < 64,
                        ;
                    }
                }
            }
            place = place + 1;
        }
        BitMatcher(bits)
    }

    /// Whether `v` is in the set.
    pub fn matches(&self, v: i32) -> (r: bool)
        ensures
            r == self.accepts(v as int),
    {
        if v < 0 || v >= 64 {
            return false;
        }
        (self.0 & (1u64 << (v as u64))) != 0
    }
}

/// A set of years.
#[derive(Debug, PartialEq, Eq)]
pub enum YearMatcher {
    /// Every year.
    All,
    /// The years listed.
    Values(Vec<i16>),
}

/// Whether a list of ranges of years has year `v`. Years are told apart by their lower 16 bits;
/// an empty list has every year.
pub open spec fn years_have(ranges: Seq<Range>, v: int) -> bool {
    ranges.len() == 0 || exists|w: int|
        #[trigger] ranges_have(ranges, w) && (w as i32) as i16 == (v as i32) as i16
}

impl Clone for YearMatcher {
    fn clone(&self) -> (r: YearMatcher)
        ensures
            forall|v: int| #[trigger] r.accepts(v) == self.accepts(v),
    {
        match self {
            YearMatcher::All => YearMatcher::All,
            YearMatcher::Values(values) => {
                let copy = values.clone();
                assert(copy@ == values@);
                YearMatcher::Values(copy)
            },
        }
    }
}

impl YearMatcher {
    /// Whether year `v` is in the set.
    pub open spec fn accepts(self, v: int) -> bool {
        match self {
            YearMatcher::All => true,
            YearMatcher::Values(values) => values@.contains((v as i32) as i16),
        }
    }

    /// The years of the ranges; every year if there are no ranges.
    pub fn new(ranges: &Vec<Range>) -> (r: YearMatcher)
        ensures
            forall|v: int|
                i32::MIN <= v <= i32::MAX ==> #[trigger] r.accepts(v) == years_have(ranges@, v),
    {
        if ranges.len() == 0 {
            return YearMatcher::All;
        }
        let values = iterate_ranges(ranges);
        let mut years: Vec<i16> = Vec::new();
        let mut i: usize = 0;
        while i < values.len()
            invariant
                i <= values.len(),
                years.len() == i,
                forall|j: int| 0 <= j < i ==> #[trigger] years@[j] == values@[j] as i16,
            decreases values.len() - i,
        {
            years.push(#[verifier::truncate] (values[i] as i16));
            i = i + 1;
        }
        let r = YearMatcher::Values(years);
        proof {
            assert forall|v: int| i32::MIN <= v <= i32::MAX implies #[trigger] r.accepts(v)
                == years_have(ranges@, v) by {
                let y = (v as i32) as i16;
                if r.accepts(v) {
                    let j = choose|j: int| 0 <= j < years@.len() && years@[j] == y;
                    let w = values@[j] as int;
                    assert(as_ints(values@)[j] == w);
                    lemma_all_values(ranges@, w);
                    assert(ranges_have(ranges@, w));
                }
                if years_have(ranges@, v) {
                    let w = choose|w: int|
                        #[trigger] ranges_have(ranges@, w) && (w as i32) as i16 == y;
                    lemma_all_values(ranges@, w);
                    let j = choose|j: int|
                        0 <= j < all_values(ranges@).len() && all_values(ranges@)[j] == w;
                    assert(as_ints(values@)[j] == w);
                    assert(values@[j] == w);
                    assert(years@[j] == y);
                }
            }
        }
        r
    }

    /// Whether year `v` is in the set.
    pub fn matches(&self, v: i32) -> (r: bool)
        ensures
            r == self.accepts(v as int),
    {
        match self {
            YearMatcher::All => true,
            YearMatcher::Values(values) => {
                contains_year(values, #[verifier::truncate] (v as i16))
            },
        }
    }
}

/// Whether `year` is in the list.
fn contains_year(values: &Vec<i16>, year: i16) -> (r: bool)
    ensures
        r == values@.contains(year),
{
    let mut i: usize = 0;
    while i < values.len()
        invariant
            i <= values.len(),
            forall|j: int| 0 <= j < i ==> values@[j] != year,
        decreases values.len() - i,
    {
        if values[i] == year {
            return true;
        }
        i = i + 1;
    }
    false
}

// ---------------------------------------------------------------------------
// Compiled calendars
// ---------------------------------------------------------------------------

/// The second from which on every clock of the world shows a year after 2100.
pub const SEARCH_END: i64 = 4_134_074_400;

/// Whether every field of a calendar matches a civil time.
pub open spec fn calendar_accepts(cal: StructuredCalendarView, c: CivilTime) -> bool {
    &&& years_have(cal.year, c.year as int)
    &&& ranges_have(cal.month, c.month as int)
    &&& ranges_have(cal.day_of_month, c.day as int)
    &&& ranges_have(cal.day_of_week, weekday_of(c.day_count()))
    &&& ranges_have(cal.hour, c.hour as int)
    &&& ranges_have(cal.minute, c.minute as int)
    &&& ranges_have(cal.second, c.second as int)
}

/// Whether the clocks of a zone show the civil time `c` at second `s`.
pub open spec fn shows(tz: TimeZone, s: int, c: CivilTime) -> bool {
    c.valid() && c.count() == local_count(tz, s)
}

/// Whether a calendar matches second `s` in a time zone.
pub open spec fn calendar_matches(cal: StructuredCalendarView, tz: TimeZone, s: int) -> bool {
    exists|c: CivilTime| #[trigger] shows(tz, s, c) && calendar_accepts(cal, c)
}

/// Whether a calendar fires at second `s` in a time zone: it matches, and the year is not after
/// 2100.
pub open spec fn calendar_fires(cal: StructuredCalendarView, tz: TimeZone, s: int) -> bool {
    exists|c: CivilTime| #[trigger]
        shows(tz, s, c) && calendar_accepts(cal, c) && c.year <= MAX_CALENDAR_YEAR
}

/// The civil times that a calendar accepts.
pub open spec fn accepted_by(cal: StructuredCalendarView) -> spec_fn(CivilTime) -> bool {
    |c: CivilTime| c.valid() && calendar_accepts(cal, c)
}

/// Whether the clocks show one of the given civil times at second `s`, up to the year 2100.
pub open spec fn fires_with(
    accepted: spec_fn(CivilTime) -> bool,
    tz: TimeZone,
    s: int,
) -> bool {
    exists|c: CivilTime| #[trigger] shows(tz, s, c) && accepted(c) && c.year <= MAX_CALENDAR_YEAR
}

/// Whether `r` is the count of the first of the given civil times that counts at least `from` and
/// less than `limit`, up to the year 2100.
pub open spec fn is_first_accepted(
    accepted: spec_fn(CivilTime) -> bool,
    from: int,
    limit: int,
    r: Option<int>,
) -> bool {
    match r {
        Some(n) => {
            &&& from <= n < limit
            &&& exists|c: CivilTime| #[trigger]
                c.count() == n && accepted(c) && c.year <= MAX_CALENDAR_YEAR
            &&& forall|c: CivilTime|
                from <= #[trigger] c.count() < n && c.year <= MAX_CALENDAR_YEAR ==> !accepted(c)
        },
        None => forall|c: CivilTime|
            from <= #[trigger] c.count() < limit && c.year <= MAX_CALENDAR_YEAR ==> !accepted(c),
    }
}

/// The count of the first of the given civil times that counts at least `from` and less than
/// `limit`, up to the year 2100.
pub open spec fn first_accepted(
    accepted: spec_fn(CivilTime) -> bool,
    from: int,
    limit: int,
) -> Option<int> {
    choose|r: Option<int>| is_first_accepted(accepted, from, limit, r)
}

/// The end of a stretch of seconds from `t` on in which the clocks of an orderly zone run evenly:
/// the next transition, or the end of the year in UTC.
pub open spec fn steady_end(tz: TimeZone, t: int) -> int {
    let year_end = year_start(civil_of(t).year + 1);
    match zone_transitions(tz)[t] {
        Some(change) => if t < change < year_end {
            change
        } else {
            year_end
        },
        None => year_end,
    }
}

/// The second from `t` on at which the clocks are found to show one of the given civil times:
/// they are looked for in one stretch after the other, as if the clocks ran evenly in each, and
/// what is found is held against the clocks. In an orderly zone it is the first such second.
#[verifier::opaque]
pub open spec fn first_fire(
    accepted: spec_fn(CivilTime) -> bool,
    tz: TimeZone,
    t: int,
) -> Option<int>
    decreases
            (if t < SEARCH_END {
                SEARCH_END - t
            } else {
                0
            }),
{
    let here = local_count(tz, t);
    let end = steady_end(tz, t);
    if t >= SEARCH_END || end <= t {
        None
    } else {
        match first_accepted(accepted, here, here + (end - t)) {
            Some(n) => {
                let s = t + (n - here);
                if s <= MAX_SECOND && fires_with(accepted, tz, s) {
                    Some(s)
                } else if s < t {
                    None
                } else {
                    first_fire(accepted, tz, s + 1)
                }
            },
            None => first_fire(accepted, tz, end),
        }
    }
}

/// There is only one first of some civil times.
proof fn lemma_first_accepted(
    accepted: spec_fn(CivilTime) -> bool,
    from: int,
    limit: int,
    r: Option<int>,
)
    requires
        is_first_accepted(accepted, from, limit, r),
    ensures
        first_accepted(accepted, from, limit) == r,
{
    let other = first_accepted(accepted, from, limit);
    assert(is_first_accepted(accepted, from, limit, other));
    match (r, other) {
        (Some(n), Some(m)) => {
            let c = choose|c: CivilTime| #[trigger]
                c.count() == n && accepted(c) && c.year <= MAX_CALENDAR_YEAR;
            let d = choose|d: CivilTime| #[trigger]
                d.count() == m && accepted(d) && d.year <= MAX_CALENDAR_YEAR;
            assert(!(n < m) && !(m < n));
        },
        (Some(n), None) => {
            let c = choose|c: CivilTime| #[trigger]
                c.count() == n && accepted(c) && c.year <= MAX_CALENDAR_YEAR;
            assert(from <= c.count() < limit);
        },
        (None, Some(m)) => {
            let d = choose|d: CivilTime| #[trigger]
                d.count() == m && accepted(d) && d.year <= MAX_CALENDAR_YEAR;
            assert(from <= d.count() < limit);
        },
        (None, None) => {},
    }
}

/// One step of the search through the stretches.
proof fn lemma_first_fire_step(
    accepted: spec_fn(CivilTime) -> bool,
    tz: TimeZone,
    t: int,
    found: Option<int>,
)
    requires
        t < SEARCH_END,
        t < steady_end(tz, t),
        is_first_accepted(
            accepted,
            local_count(tz, t),
            local_count(tz, t) + (steady_end(tz, t) - t),
            found,
        ),
    ensures
        first_fire(accepted, tz, t) == match found {
            Some(n) => {
                let s = t + (n - local_count(tz, t));
                if s <= MAX_SECOND && fires_with(accepted, tz, s) {
                    Some(s)
                } else {
                    first_fire(accepted, tz, s + 1)
                }
            },
            None => first_fire(accepted, tz, steady_end(tz, t)),
        },
{
    reveal_with_fuel(first_fire, 2);
    lemma_first_accepted(
        accepted,
        local_count(tz, t),
        local_count(tz, t) + (steady_end(tz, t) - t),
        found,
    );
}

/// A calendar in a time zone, compiled for matching at a resolution of one second.
pub struct CompiledCalendar {
    tz: TimeZone,
    year: YearMatcher,
    month: BitMatcher,
    day_of_month: BitMatcher,
    day_of_week: BitMatcher,
    hour: BitMatcher,
    minute: BitMatcher,
    second: BitMatcher,
}

impl Clone for CompiledCalendar {
    fn clone(&self) -> (r: CompiledCalendar)
        ensures
            r.zone() == self.zone(),
            forall|c: CivilTime| #[trigger] r.accepts(c) == self.accepts(c),
    {
        CompiledCalendar {
            tz: self.tz.clone(),
            year: self.year.clone(),
            month: self.month,
            day_of_month: self.day_of_month,
            day_of_week: self.day_of_week,
            hour: self.hour,
            minute: self.minute,
            second: self.second,
        }
    }
}

impl CompiledCalendar {
    /// The time zone whose clocks the calendar goes by.
    pub closed spec fn zone(self) -> TimeZone {
        self.tz
    }

    /// Whether every field matches a civil time.
    pub closed spec fn accepts(self, c: CivilTime) -> bool {
        &&& self.year.accepts(c.year as int)
        &&& self.month.accepts(c.month as int)
        &&& self.day_of_month.accepts(c.day as int)
        &&& self.day_of_week.accepts(weekday_of(c.day_count()))
        &&& self.hour.accepts(c.hour as int)
        &&& self.minute.accepts(c.minute as int)
        &&& self.second.accepts(c.second as int)
    }

    /// Whether this is what a calendar in a time zone compiles to.
    pub open spec fn stands_for(self, cal: StructuredCalendarView, tz: TimeZone) -> bool {
        &&& self.zone() == tz
        &&& forall|c: CivilTime|
            c.valid() ==> #[trigger] self.accepts(c) == calendar_accepts(cal, c)
    }

    /// The civil times that every field matches.
    pub open spec fn accepted(self) -> spec_fn(CivilTime) -> bool {
        |c: CivilTime| c.valid() && self.accepts(c)
    }

    /// Whether second `s` matches the calendar.
    pub open spec fn matches_at(self, s: int) -> bool {
        exists|c: CivilTime| #[trigger] shows(self.zone(), s, c) && self.accepts(c)
    }

    /// Whether the calendar fires at second `s`: it matches, and the year is not after 2100.
    pub open spec fn fires_at(self, s: int) -> bool {
        exists|c: CivilTime| #[trigger]
            shows(self.zone(), s, c) && self.accepts(c) && c.year <= MAX_CALENDAR_YEAR
    }

    /// Whether `r` is the first second after `after` at which the calendar fires.
    ///
    /// That `r` comes later and that the calendar fires then holds in every time zone; that a
    /// second was not passed over holds if the zone is orderly up to it.
    pub open spec fn is_next(self, after: int, r: Option<int>) -> bool {
        match r {
            Some(t) => {
                &&& after < t <= MAX_SECOND
                &&& self.fires_at(t)
                &&& forall|k: int|
                    after < k < t && orderly_between(self.zone(), after + 1, k)
                        ==> !#[trigger] self.fires_at(k)
            },
            None => forall|k: int|
                after < k <= MAX_SECOND && orderly_between(self.zone(), after + 1, k)
                    ==> !#[trigger] self.fires_at(k),
        }
    }

    /// Compiles a calendar for a time zone.
    pub fn new(cal: &StructuredCalendarSpec, tz: TimeZone) -> (r: CompiledCalendar)
        ensures
            r.stands_for(cal@, tz),
    {
        CompiledCalendar {
            tz,
            year: YearMatcher::new(&cal.year),
            month: BitMatcher::new(&cal.month, false),
            day_of_month: BitMatcher::new(&cal.day_of_month, false),
            day_of_week: BitMatcher::new(&cal.day_of_week, false),
            hour: BitMatcher::new(&cal.hour, false),
            minute: BitMatcher::new(&cal.minute, false),
            second: BitMatcher::new(&cal.second, false),
        }
    }

    /// Whether every field matches a civil time.
    fn accepts_civil(&self, c: CivilTime) -> (r: bool)
        requires
            c.valid(),
            -9999 <= c.year <= 9999,
        ensures
            r == self.accepts(c),
    {
        self.year.matches(c.year) && self.month.matches(c.month) && self.day_of_month.matches(c.day)
            && self.day_of_week.matches(date_weekday(c.year, c.month, c.day)) && self.hour.matches(
            c.hour,
        ) && self.minute.matches(c.minute) && self.second.matches(c.second)
    }

    /// A second matches if the civil time that the clocks then show is accepted.
    proof fn lemma_one_civil_time(self, s: int, c: CivilTime)
        requires
            shows(self.zone(), s, c),
        ensures
            self.matches_at(s) == self.accepts(c),
            self.fires_at(s) == (self.accepts(c) && c.year <= MAX_CALENDAR_YEAR),
    {
        assert forall|x: CivilTime| #[trigger] shows(self.zone(), s, x) implies x == c by {
            lemma_count_is_injective(x, c);
        }
    }

    /// The calendar fires when the clocks show a civil time that it accepts.
    proof fn lemma_fires_with(self, s: int)
        ensures
            fires_with(self.accepted(), self.zone(), s) == self.fires_at(s),
    {
        let accepted = self.accepted();
        if self.fires_at(s) {
            let c = choose|c: CivilTime| #[trigger]
                shows(self.zone(), s, c) && self.accepts(c) && c.year <= MAX_CALENDAR_YEAR;
            assert(accepted(c));
        }
    }

    /// Whether the calendar fires at a second.
    fn fires(&self, second: i64) -> (r: bool)
        requires
            MIN_SECOND <= second <= MAX_SECOND,
        ensures
            r == self.fires_at(second as int),
    {
        let c = local_time(&self.tz, second);
        proof {
            self.lemma_one_civil_time(second as int, c);
        }
        c.year <= MAX_CALENDAR_YEAR && self.accepts_civil(c)
    }

    /// Whether a second matches the calendar.
    pub(crate) fn matches_second(&self, second: i64) -> (r: bool)
        requires
            MIN_SECOND <= second <= MAX_SECOND,
        ensures
            r == self.matches_at(second as int),
    {
        let c = local_time(&self.tz, second);
        proof {
            self.lemma_one_civil_time(second as int, c);
        }
        self.accepts_civil(c)
    }

    /// Whether a point in time matches the calendar. A fraction of a second does not count.
    pub fn matches(&self, ts: Timestamp) -> (r: bool)
        ensures
            r == self.matches_at(floor_second(ts@)),
    {
        self.matches_second(ts.second_floor())
    }

    /// The first civil time from `start` on, and before the one that counts `limit`, that the
    /// calendar accepts, up to the end of the year 2100.
    ///
    /// Goes through the fields from the year down to the second. Where a field does not match,
    /// everything is passed over that has the same value in it.
    pub fn search(&self, start: CivilTime, limit: i64) -> (r: Option<CivilTime>)
        requires
            start.valid(),
            -9999 <= start.year <= 9999,
        ensures
            match r {
                Some(c) => {
                    &&& c.valid()
                    &&& start.count() <= c.count() < limit
                    &&& -9999 <= c.year <= MAX_CALENDAR_YEAR
                    &&& self.accepts(c)
                    &&& forall|x: CivilTime|
                        x.valid() && start.count() <= #[trigger] x.count() < c.count()
                            ==> !self.accepts(x)
                },
                None => forall|x: CivilTime|
                    x.valid() && start.count() <= #[trigger] x.count() < limit && x.year
                        <= MAX_CALENDAR_YEAR ==> !self.accepts(x),
            },
            is_first_accepted(self.accepted(), start.count(), limit as int, civil_count(r)),
    {
        let mut c = start;
        let mut count: i64 = count_seconds(c);
        while c.year <= MAX_CALENDAR_YEAR && count < limit
            invariant
                start.valid(),
                c.valid(),
                -9999 <= c.year <= 9999,
                count == c.count(),
                start.count() <= count,
                forall|x: CivilTime|
                    x.valid() && start.count() <= #[trigger] x.count() < count ==> !self.accepts(x),
            decreases
                (if count < limit {
                    limit - count
                } else {
                    0
                }),
        {
            let next = if !self.year.matches(c.year) {
                next_year(c)
            } else if !self.month.matches(c.month) {
                next_month(c)
            } else if !self.day_of_month.matches(c.day) || !self.day_of_week.matches(
                date_weekday(c.year, c.month, c.day),
            ) {
                next_day(c)
            } else if !self.hour.matches(c.hour) {
                next_hour(c)
            } else if !self.minute.matches(c.minute) {
                next_minute(c)
            } else if !self.second.matches(c.second) {
                next_second(c)
            } else {
                assert(self.accepted()(c) && c.count() == count);
                return Some(c);
            };
            proof {
                assert forall|x: CivilTime|
                    x.valid() && start.count() <= #[trigger] x.count() < next.count() implies
                    !self.accepts(x) by {
                    if count <= x.count() {
                        // The field that does not match `c` has the same value in `x`.
                        assert(c.count() <= x.count() < next.count());
                    }
                }
            }
            c = next;
            count = count_seconds(c);
        }
        proof {
            if c.year > MAX_CALENDAR_YEAR {
                assert forall|x: CivilTime|
                    x.valid() && start.count() <= #[trigger] x.count() < limit && x.year
                        <= MAX_CALENDAR_YEAR implies !self.accepts(x) by {
                    if count <= x.count() {
                        lemma_not_earlier(c, x);
                    }
                }
            }
        }
        assert(is_first_accepted(self.accepted(), start.count(), limit as int, None));
        None
    }

    /// Where the clocks run evenly and show nothing that the calendar accepts, it does not fire.
    proof fn lemma_nothing_missed(self, t: int, until: int)
        requires
            forall|k: int|
                t <= k < until && k <= MAX_SECOND && orderly_between(self.zone(), t, k)
                    ==> #[trigger] zone_offsets(self.zone())[k] == zone_offsets(self.zone())[t],
            forall|x: CivilTime|
                x.valid() && local_count(self.zone(), t) <= #[trigger] x.count() < local_count(
                    self.zone(),
                    t,
                ) + (until - t) && x.year <= MAX_CALENDAR_YEAR ==> !self.accepts(x),
        ensures
            forall|k: int|
                t <= k < until && k <= MAX_SECOND && orderly_between(self.zone(), t, k)
                    ==> !#[trigger] self.fires_at(k),
    {
        assert forall|k: int|
            t <= k < until && k <= MAX_SECOND && orderly_between(
                self.zone(),
                t,
                k,
            ) implies !#[trigger] self.fires_at(k) by {
            assert(zone_offsets(self.zone())[k] == zone_offsets(self.zone())[t]);
        }
    }

    /// One step of the search: the second at which the calendar fires in the stretch from `t` on,
    /// or `None` and the second from which to go on.
    fn search_stretch(&self, t: i64) -> (r: (Option<i64>, i64))
        requires
            MIN_SECOND <= t < SEARCH_END,
        ensures
            t < r.1,
            match r.0 {
                Some(s) => {
                    &&& t <= s <= MAX_SECOND
                    &&& self.fires_at(s as int)
                    &&& first_fire(self.accepted(), self.zone(), t as int) == Some(s as int)
                    &&& forall|k: int|
                        t <= k < s && orderly_between(self.zone(), t as int, k)
                            ==> !#[trigger] self.fires_at(k)
                },
                None => {
                    &&& first_fire(self.accepted(), self.zone(), t as int) == first_fire(
                        self.accepted(),
                        self.zone(),
                        r.1 as int,
                    )
                    &&& forall|k: int|
                        t <= k < r.1 && k <= MAX_SECOND && orderly_between(
                            self.zone(),
                            t as int,
                            k,
                        ) ==> !#[trigger] self.fires_at(k)
                },
            },
    {
        let here = local_time(&self.tz, t);
        let here_count: i64 = count_seconds(here);
        let end: i64 = steady_until(&self.tz, t);
        let found = self.search(here, here_count + (end - t));
        proof {
            lemma_first_fire_step(
                self.accepted(),
                self.zone(),
                t as int,
                civil_count(found),
            );
        }
        match found {
            Some(c) => {
                let second: i64 = t + (count_seconds(c) - here_count);
                proof {
                    self.lemma_fires_with(second as int);
                    self.lemma_nothing_missed(t as int, second as int);
                }
                if second <= MAX_SECOND && self.fires(second) {
                    (Some(second), second + 1)
                } else {
                    (None, second + 1)
                }
            },
            None => {
                proof {
                    self.lemma_nothing_missed(t as int, end as int);
                }
                (None, end)
            },
        }
    }

    /// The first second after `after` at which the calendar fires.
    ///
    /// The clocks of the zone run evenly from one transition to the next. So the seconds are
    /// taken in stretches, in each of which the civil times are searched; an hour that the
    /// clocks repeat is searched twice, and one that they leave out is never reached.
    pub(crate) fn next_second_after(&self, after: i64) -> (r: Option<i64>)
        requires
            MIN_SECOND <= after <= MAX_SECOND,
        ensures
            self.is_next(after as int, seconds(r)),
            seconds(r) == first_fire(self.accepted(), self.zone(), after + 1),
            r matches Some(t) ==> MIN_SECOND <= t,
    {
        let ghost answer = first_fire(self.accepted(), self.zone(), after + 1);
        let mut t: i64 = after + 1;
        while t < SEARCH_END
            invariant
                MIN_SECOND <= after < t,
                answer == first_fire(self.accepted(), self.zone(), after + 1),
                answer == first_fire(self.accepted(), self.zone(), t as int),
                forall|k: int|
                    after < k < t && k <= MAX_SECOND && orderly_between(self.zone(), after + 1, k)
                        ==> !#[trigger] self.fires_at(k),
            decreases
                (if t < SEARCH_END {
                    SEARCH_END - t
                } else {
                    0
                }),
        {
            let (found, next) = self.search_stretch(t);
            proof {
                assert forall|k: int|
                    t <= k && orderly_between(self.zone(), after + 1, k) implies orderly_between(
                    self.zone(),
                    t as int,
                    k,
                ) by {
                    law_orderly_in_part(self.zone(), after + 1, k, t as int, k);
                }
            }
            if let Some(second) = found {
                return Some(second);
            }
            t = next;
        }
        proof {
            reveal_with_fuel(first_fire, 1);
            assert forall|k: int|
                after < k <= MAX_SECOND && orderly_between(
                    self.zone(),
                    after + 1,
                    k,
                ) implies !#[trigger] self.fires_at(k) by {
                if t <= k {
                    assert forall|c: CivilTime| #[trigger]
                        shows(self.zone(), k, c) implies c.year > MAX_CALENDAR_YEAR by {
                        assert(-93_600 < zone_offsets(self.zone())[k]);
                        lemma_year_after_2100(c);
                    }
                }
            }
        }
        None
    }

    /// The first second after a point in time at which the calendar fires.
    pub fn next(&self, after: Timestamp) -> (r: Option<Timestamp>)
        ensures
            self.is_next(floor_second(after@), whole_seconds(r)),
            whole_seconds(r) == first_fire(
                self.accepted(),
                self.zone(),
                floor_second(after@) + 1,
            ),
            r matches Some(t) ==> t@ == floor_second(t@) * 1_000_000_000,
    {
        match self.next_second_after(after.second_floor()) {
            Some(second) => Timestamp::from_second(second),
            None => None,
        }
    }
}

/// What a calendar compiles to matches and fires at the same seconds.
pub proof fn lemma_stands_for(
    compiled: CompiledCalendar,
    cal: StructuredCalendarView,
    tz: TimeZone,
    s: int,
)
    requires
        compiled.stands_for(cal, tz),
    ensures
        compiled.matches_at(s) == calendar_matches(cal, tz, s),
        compiled.fires_at(s) == calendar_fires(cal, tz, s),
        compiled.accepted() == accepted_by(cal),
{
    assert(compiled.accepted() =~= accepted_by(cal));
}

/// What a civil time counts, if there is one.
pub open spec fn civil_count(c: Option<CivilTime>) -> Option<int> {
    match c {
        Some(c) => Some(c.count()),
        None => None,
    }
}

/// The second, if there is one.
pub open spec fn seconds(t: Option<i64>) -> Option<int> {
    match t {
        Some(t) => Some(t as int),
        None => None,
    }
}

/// The whole second of a point in time, if there is one.
pub open spec fn whole_seconds(t: Option<Timestamp>) -> Option<int> {
    match t {
        Some(t) => Some(floor_second(t@)),
        None => None,
    }
}

/// A civil time that does not count less than another is not earlier.
proof fn lemma_not_earlier(a: CivilTime, b: CivilTime)
    requires
        a.valid(),
        b.valid(),
        a.count() <= b.count(),
    ensures
        a.year <= b.year,
{
    lemma_day_in_year(a);
    lemma_day_in_year(b);
    if b.year < a.year {
        lemma_later_year(b.year as int, a.year as int);
        lemma_next_year(b.year as int);
    }
}

/// The search ends where every year is after 2100.
proof fn lemma_year_after_2100(c: CivilTime)
    requires
        c.valid(),
        c.count() >= SEARCH_END - 93_600,
    ensures
        c.year > MAX_CALENDAR_YEAR,
{
    lemma_day_in_year(c);
    assert(days_before_year(2101) * 86_400 == SEARCH_END - 93_600);
    if c.year < 2101 {
        lemma_later_year(c.year as int, 2101);
        lemma_next_year(c.year as int);
    }
}

/// The end of a stretch of seconds from `second` on in which an orderly zone's clocks run evenly:
/// the next transition, or the end of the year in UTC.
fn steady_until(tz: &TimeZone, second: i64) -> (r: i64)
    requires
        MIN_SECOND <= second <= MAX_SECOND,
    ensures
        second < r <= second + 366 * 86_400,
        r == steady_end(*tz, second as int),
        forall|k: int|
            second <= k < r && k <= MAX_SECOND && orderly_between(*tz, second as int, k)
                ==> #[trigger] zone_offsets(*tz)[k] == zone_offsets(*tz)[second as int],
{
    let shown = local_time(&utc(), second);
    let next_january = CivilTime {
        year: shown.year + 1,
        month: 1,
        day: 1,
        hour: 0,
        minute: 0,
        second: 0,
    };
    let year_end: i64 = count_seconds(next_january);
    proof {
        lemma_civil_of(shown);
        lemma_day_in_year(shown);
        lemma_next_year(shown.year as int);
        assert(year_start(shown.year as int) <= second < year_start(shown.year + 1) == year_end);
    }
    match next_transition(tz, second) {
        Some(t) => {
            if second < t && t < year_end {
                t
            } else {
                year_end
            }
        },
        None => year_end,
    }
}

// ---------------------------------------------------------------------------
// Laws
// ---------------------------------------------------------------------------

/// The years of a valid calendar match as they are written.
pub proof fn law_valid_years_match_as_written(ranges: Seq<Range>, v: int)
    requires
        forall|i: int|
            0 <= i < ranges.len() ==> within(
                #[trigger] ranges[i],
                MIN_CALENDAR_YEAR as int,
                MAX_CALENDAR_YEAR as int,
            ),
        -9999 <= v <= 9999,
    ensures
        years_have(ranges, v) <==> ranges.len() == 0 || ranges_have(ranges, v),
{
    assert forall|w: int| #[trigger] ranges_have(ranges, w) implies 2000 <= w <= 2100 by {
        let i = choose|i: int| 0 <= i < ranges.len() && (#[trigger] ranges[i]).has(w);
        assert(within(ranges[i], 2000, 2100));
    }
}

/// A calendar matches a second if and only if it accepts what the clocks then show, and it fires
/// if the year is not after 2100 as well. What the clocks show twice, it matches twice; what they
/// never show, it never matches.
pub proof fn law_matches_what_the_clocks_show(
    cal: StructuredCalendarView,
    tz: TimeZone,
    s: int,
    c: CivilTime,
)
    requires
        shows(tz, s, c),
    ensures
        calendar_matches(cal, tz, s) == calendar_accepts(cal, c),
        calendar_fires(cal, tz, s) == (calendar_accepts(cal, c) && c.year <= MAX_CALENDAR_YEAR),
{
    assert forall|x: CivilTime| #[trigger] shows(tz, s, x) implies x == c by {
        lemma_count_is_injective(x, c);
    }
}

/// The search passes over no match: if the clocks show a civil time that the calendar accepts,
/// up to the year 2100, at a second up to which the time zone is orderly, then that second is
/// found, or an earlier one that matches.
pub proof fn law_next_passes_over_no_match(
    compiled: CompiledCalendar,
    cal: StructuredCalendarView,
    tz: TimeZone,
    after: int,
    r: Option<int>,
    k: int,
    c: CivilTime,
)
    requires
        compiled.stands_for(cal, tz),
        compiled.is_next(after, r),
        after < k <= MAX_SECOND,
        orderly_between(tz, after + 1, k),
        shows(tz, k, c),
        calendar_accepts(cal, c),
        c.year <= MAX_CALENDAR_YEAR,
    ensures
        r matches Some(t) && after < t <= k && calendar_matches(cal, tz, t),
{
    lemma_stands_for(compiled, cal, tz, k);
    assert(calendar_fires(cal, tz, k));
    if let Some(t) = r {
        lemma_stands_for(compiled, cal, tz, t);
    }
}

/// In an orderly time zone there is one first second at which a calendar fires, or none.
pub proof fn law_next_is_unique(
    compiled: CompiledCalendar,
    after: int,
    a: Option<int>,
    b: Option<int>,
)
    requires
        orderly(compiled.zone()),
        compiled.is_next(after, a),
        compiled.is_next(after, b),
    ensures
        a == b,
{
    let tz = compiled.zone();
    assert forall|k: int| #[trigger] orderly_between(tz, after + 1, k) by {
        law_orderly_in_part(tz, MIN_SECOND as int, MAX_SECOND as int, after + 1, k);
    }
    if let Some(t) = a {
        assert(compiled.fires_at(t));
    }
    if let Some(t) = b {
        assert(compiled.fires_at(t));
    }
}

} // verus!
