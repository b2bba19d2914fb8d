//! Arithmetic of the proleptic Gregorian calendar.
use vstd::prelude::*;

verus! {

/// Seconds in a civil day.
pub const SECONDS_PER_DAY: i64 = 86_400;

/// Whether `y` is a leap year.
pub open spec fn leap_year(y: int) -> bool {
    y % 4 == 0 && (y % 100 != 0 || y % 400 == 0)
}

/// The number of days of month `mo` (1-12) of year `y`; 30 for any other `mo`.
pub open spec fn month_length(y: int, mo: int) -> int {
    if mo == 2 {
        if leap_year(y) {
            29
        } else {
            28
        }
    } else if mo == 1 || mo == 3 || mo == 5 || mo == 7 || mo == 8 || mo == 10 || mo == 12 {
        31
    } else {
        30
    }
}

/// The number of days of year `y`.
pub open spec fn year_length(y: int) -> int {
    if leap_year(y) {
        366
    } else {
        365
    }
}

/// The number of days of year `y` that lie before month `mo`.
pub open spec fn days_before_month(y: int, mo: int) -> int
    decreases mo,
{
    if mo <= 1 {
        0
    } else {
        days_before_month(y, mo - 1) + month_length(y, mo - 1)
    }
}

/// The number of leap years among the years 1 to `y` (negative for years before).
pub open spec fn leap_years_through(y: int) -> int {
    y / 4 - y / 100 + y / 400
}

/// The number of days from 1970-01-01 to the first of January of year `y`.
pub open spec fn days_before_year(y: int) -> int {
    365 * (y - 1970) + leap_years_through(y - 1) - leap_years_through(1969)
}

/// The number of days from 1970-01-01 to the given date.
pub open spec fn day_number(y: int, mo: int, d: int) -> int {
    days_before_year(y) + days_before_month(y, mo) + d - 1
}

/// The second, counted from 1970-01-01T00:00:00, at which year `y` begins.
pub open spec fn year_start(y: int) -> int {
    days_before_year(y) * 86_400
}

/// The day of the week of a day given by its number: 0 is Sunday, 6 is Saturday.
pub open spec fn weekday_of(day: int) -> int {
    (day + 4) % 7
}

/// A date and a time of day, as a clock on the wall shows them.
#[derive(Debug, Clone, Copy, PartialEq, Eq, Structural)]
pub struct CivilTime {
    pub year: i32,
    /// 1 is January.
    pub month: i32,
    /// 1 is the first of the month.
    pub day: i32,
    pub hour: i32,
    pub minute: i32,
    pub second: i32,
}

impl CivilTime {
    /// Whether the fields name a date and a time of day that exist in the calendar.
    pub open spec fn valid(self) -> bool {
        &&& 1 <= self.month <= 12
        &&& 1 <= self.day <= month_length(self.year as int, self.month as int)
        &&& 0 <= self.hour < 24
        &&& 0 <= self.minute < 60
        &&& 0 <= self.second < 60
    }

    /// The number of the date's day, counted from 1970-01-01.
    pub open spec fn day_count(self) -> int {
        day_number(self.year as int, self.month as int, self.day as int)
    }

    /// The number of seconds from 1970-01-01T00:00:00 on the same clock.
    pub open spec fn count(self) -> int {
        self.day_count() * 86_400 + self.hour * 3600 + self.minute * 60 + self.second
    }
}

/// Whether `y` is a leap year.
#[verifier::rlimit(30)]
pub fn is_leap_year(y: i32) -> (r: bool)
    ensures
        r == leap_year(y as int),
{
    y % 4 == 0 && (y % 100 != 0 || y % 400 == 0)
}

/// The number of days of month `mo` (1-12) of year `y`; 30 for any other `mo`.
pub fn days_in_month(mo: i32, y: i32) -> (r: i32)
    ensures
        r == month_length(y as int, mo as int),
{
    match mo {
        1 => 31,
        2 => {
            if is_leap_year(y) {
                29
            } else {
                28
            }
        },
        3 => 31,
        4 => 30,
        5 => 31,
        6 => 30,
        7 => 31,
        8 => 31,
        9 => 30,
        10 => 31,
        11 => 30,
        12 => 31,
        _ => 30,
    }
}

// ---------------------------------------------------------------------------
// Order of civil times
// ---------------------------------------------------------------------------

/// Whether `a` comes before `b` when the fields are compared from the year down to the second.
pub open spec fn earlier(a: CivilTime, b: CivilTime) -> bool {
    ||| a.year < b.year
    ||| a.year == b.year && a.month < b.month
    ||| a.year == b.year && a.month == b.month && a.day < b.day
    ||| a.year == b.year && a.month == b.month && a.day == b.day && a.hour < b.hour
    ||| a.year == b.year && a.month == b.month && a.day == b.day && a.hour == b.hour && a.minute
        < b.minute
    ||| a.year == b.year && a.month == b.month && a.day == b.day && a.hour == b.hour && a.minute
        == b.minute && a.second < b.second
}

/// A year is followed by the next one after as many days as it has.
pub proof fn lemma_next_year(y: int)
    ensures
        days_before_year(y + 1) == days_before_year(y) + year_length(y),
{
}

/// A year ends before, or as, any later year begins.
pub proof fn lemma_later_year(a: int, b: int)
    requires
        a < b,
    ensures
        days_before_year(a) + year_length(a) <= days_before_year(b),
    decreases b - a,
{
    lemma_next_year(b - 1);
    if a < b - 1 {
        lemma_later_year(a, b - 1);
    }
}

/// A month ends before, or as, any later month of the year begins; the twelve make up the year.
pub proof fn lemma_later_month(y: int, a: int, b: int)
    requires
        1 <= a < b <= 13,
    ensures
        days_before_month(y, a) + month_length(y, a) <= days_before_month(y, b),
        b == 13 ==> days_before_month(y, b) == year_length(y),
        0 <= days_before_month(y, a),
    decreases b - a,
{
    assert(0 <= days_before_month(y, a) && days_before_month(y, 13) == year_length(y)) by {
        reveal_with_fuel(days_before_month, 14);
    }
    if a < b - 1 {
        lemma_later_month(y, a, b - 1);
    }
}

/// A date lies within its year.
pub proof fn lemma_day_in_year(c: CivilTime)
    requires
        c.valid(),
    ensures
        days_before_year(c.year as int) <= c.day_count() < days_before_year(c.year + 1),
{
    lemma_later_month(c.year as int, c.month as int, 13);
    lemma_next_year(c.year as int);
}

/// Counting seconds keeps the order of civil times.
pub proof fn lemma_count_keeps_order(a: CivilTime, b: CivilTime)
    requires
        a.valid(),
        b.valid(),
        earlier(a, b),
    ensures
        a.count() < b.count(),
{
    lemma_day_in_year(a);
    lemma_day_in_year(b);
    if a.year < b.year {
        lemma_next_year(a.year as int);
        lemma_later_year(a.year as int, b.year as int);
        assert(a.day_count() < b.day_count());
    } else if a.month < b.month {
        lemma_later_month(a.year as int, a.month as int, b.month as int);
        assert(a.day_count() < b.day_count());
    } else if a.day < b.day {
        assert(a.day_count() < b.day_count());
    }
}

/// Two civil times with the same count are the same.
pub proof fn lemma_count_is_injective(a: CivilTime, b: CivilTime)
    requires
        a.valid(),
        b.valid(),
        a.count() == b.count(),
    ensures
        a == b,
{
    if earlier(a, b) {
        lemma_count_keeps_order(a, b);
    } else if earlier(b, a) {
        lemma_count_keeps_order(b, a);
    }
}

// ---------------------------------------------------------------------------
// Stepping to the start of the next unit
// ---------------------------------------------------------------------------

/// The first second of the year after that of `c`.
pub open spec fn year_after(c: CivilTime) -> CivilTime {
    CivilTime { year: (c.year + 1) as i32, month: 1, day: 1, hour: 0, minute: 0, second: 0 }
}

/// The first second of the month after that of `c`.
pub open spec fn month_after(c: CivilTime) -> CivilTime {
    if c.month == 12 {
        year_after(c)
    } else {
        CivilTime { month: (c.month + 1) as i32, day: 1, hour: 0, minute: 0, second: 0, ..c }
    }
}

/// Midnight of the day after that of `c`.
pub open spec fn day_after(c: CivilTime) -> CivilTime {
    if c.day == month_length(c.year as int, c.month as int) {
        month_after(c)
    } else {
        CivilTime { day: (c.day + 1) as i32, hour: 0, minute: 0, second: 0, ..c }
    }
}

/// The start of the hour after that of `c`.
pub open spec fn hour_after(c: CivilTime) -> CivilTime {
    if c.hour == 23 {
        day_after(c)
    } else {
        CivilTime { hour: (c.hour + 1) as i32, minute: 0, second: 0, ..c }
    }
}

/// The start of the minute after that of `c`.
pub open spec fn minute_after(c: CivilTime) -> CivilTime {
    if c.minute == 59 {
        hour_after(c)
    } else {
        CivilTime { minute: (c.minute + 1) as i32, second: 0, ..c }
    }
}

/// The second after `c`.
pub open spec fn second_after(c: CivilTime) -> CivilTime {
    if c.second == 59 {
        minute_after(c)
    } else {
        CivilTime { second: (c.second + 1) as i32, ..c }
    }
}

/// Whether every civil time from `a` on and before `b` agrees with `a` in its year.
pub open spec fn year_until(a: CivilTime, b: CivilTime) -> bool {
    forall|x: CivilTime|
        x.valid() && a.count() <= #[trigger] x.count() < b.count() ==> x.year == a.year
}

/// Whether every civil time from `a` on and before `b` agrees with `a` in year and month.
pub open spec fn month_until(a: CivilTime, b: CivilTime) -> bool {
    forall|x: CivilTime|
        x.valid() && a.count() <= #[trigger] x.count() < b.count() ==> x.year == a.year && x.month
            == a.month
}

/// Whether every civil time from `a` on and before `b` has the date of `a`.
pub open spec fn date_until(a: CivilTime, b: CivilTime) -> bool {
    forall|x: CivilTime|
        x.valid() && a.count() <= #[trigger] x.count() < b.count() ==> x.year == a.year && x.month
            == a.month && x.day == a.day
}

/// Whether every civil time from `a` on and before `b` has the date and the hour of `a`.
pub open spec fn hour_until(a: CivilTime, b: CivilTime) -> bool {
    forall|x: CivilTime|
        x.valid() && a.count() <= #[trigger] x.count() < b.count() ==> x.year == a.year && x.month
            == a.month && x.day == a.day && x.hour == a.hour
}

/// Whether every civil time from `a` on and before `b` has the date, the hour and the minute of
/// `a`.
pub open spec fn minute_until(a: CivilTime, b: CivilTime) -> bool {
    forall|x: CivilTime|
        x.valid() && a.count() <= #[trigger] x.count() < b.count() ==> x.year == a.year && x.month
            == a.month && x.day == a.day && x.hour == a.hour && x.minute == a.minute
}

/// The first second of the year after that of `c`.
pub fn next_year(c: CivilTime) -> (r: CivilTime)
    requires
        c.valid(),
        c.year < i32::MAX,
    ensures
        r == year_after(c),
        r.valid(),
        c.year <= r.year <= c.year + 1,
        c.count() < r.count(),
        year_until(c, r),
{
    let r = CivilTime { year: c.year + 1, month: 1, day: 1, hour: 0, minute: 0, second: 0 };
    proof {
        lemma_count_keeps_order(c, r);
        assert forall|x: CivilTime|
            x.valid() && c.count() <= #[trigger] x.count() < r.count() implies x.year == c.year by {
            lemma_bracketed(c, r, x);
        }
    }
    r
}

/// A civil time whose count lies between two others lies between them field by field.
pub proof fn lemma_bracketed(a: CivilTime, b: CivilTime, x: CivilTime)
    requires
        a.valid(),
        b.valid(),
        x.valid(),
        a.count() <= x.count() < b.count(),
    ensures
        !earlier(x, a),
        earlier(x, b),
{
    if earlier(x, a) {
        lemma_count_keeps_order(x, a);
    }
    if !earlier(x, b) {
        if earlier(b, x) {
            lemma_count_keeps_order(b, x);
        } else {
            assert(x == b);
        }
    }
}

/// The first second of the month after that of `c`.
pub fn next_month(c: CivilTime) -> (r: CivilTime)
    requires
        c.valid(),
        c.year < i32::MAX,
    ensures
        r == month_after(c),
        r.valid(),
        c.year <= r.year <= c.year + 1,
        c.count() < r.count(),
        month_until(c, r),
{
    if c.month == 12 {
        let r = next_year(c);
        proof {
            assert forall|x: CivilTime|
                x.valid() && c.count() <= #[trigger] x.count() < r.count() implies x.year == c.year
                && x.month == c.month by {
                lemma_bracketed(c, r, x);
            }
        }
        r
    } else {
        let r = CivilTime {
            year: c.year,
            month: c.month + 1,
            day: 1,
            hour: 0,
            minute: 0,
            second: 0,
        };
        proof {
            lemma_count_keeps_order(c, r);
            assert forall|x: CivilTime|
                x.valid() && c.count() <= #[trigger] x.count() < r.count() implies x.year == c.year
                && x.month == c.month by {
                lemma_bracketed(c, r, x);
            }
        }
        r
    }
}

/// Midnight of the day after that of `c`.
pub fn next_day(c: CivilTime) -> (r: CivilTime)
    requires
        c.valid(),
        c.year < i32::MAX,
    ensures
        r == day_after(c),
        r.valid(),
        c.year <= r.year <= c.year + 1,
        c.count() < r.count(),
        date_until(c, r),
{
    let r = if c.day == days_in_month(c.month, c.year) {
        next_month(c)
    } else {
        CivilTime {
            year: c.year,
            month: c.month,
            day: c.day + 1,
            hour: 0,
            minute: 0,
            second: 0,
        }
    };
    proof {
        if c.day < month_length(c.year as int, c.month as int) {
            lemma_count_keeps_order(c, r);
        }
        assert forall|x: CivilTime|
            x.valid() && c.count() <= #[trigger] x.count() < r.count() implies x.year == c.year
            && x.month == c.month && x.day == c.day by {
            lemma_bracketed(c, r, x);
        }
    }
    r
}

/// The start of the hour after that of `c`.
pub fn next_hour(c: CivilTime) -> (r: CivilTime)
    requires
        c.valid(),
        c.year < i32::MAX,
    ensures
        r == hour_after(c),
        r.valid(),
        c.year <= r.year <= c.year + 1,
        c.count() < r.count(),
        hour_until(c, r),
{
    let r = if c.hour == 23 {
        next_day(c)
    } else {
        CivilTime { hour: c.hour + 1, minute: 0, second: 0, ..c }
    };
    proof {
        if c.hour < 23 {
            lemma_count_keeps_order(c, r);
        }
        assert forall|x: CivilTime|
            x.valid() && c.count() <= #[trigger] x.count() < r.count() implies x.year == c.year
            && x.month == c.month && x.day == c.day && x.hour == c.hour by {
            lemma_bracketed(c, r, x);
        }
    }
    r
}

/// The start of the minute after that of `c`.
pub fn next_minute(c: CivilTime) -> (r: CivilTime)
    requires
        c.valid(),
        c.year < i32::MAX,
    ensures
        r == minute_after(c),
        r.valid(),
        c.year <= r.year <= c.year + 1,
        c.count() < r.count(),
        minute_until(c, r),
{
    let r = if c.minute == 59 {
        next_hour(c)
    } else {
        CivilTime { minute: c.minute + 1, second: 0, ..c }
    };
    proof {
        if c.minute < 59 {
            lemma_count_keeps_order(c, r);
        }
        assert forall|x: CivilTime|
            x.valid() && c.count() <= #[trigger] x.count() < r.count() implies x.year == c.year
            && x.month == c.month && x.day == c.day && x.hour == c.hour && x.minute == c.minute by {
            lemma_bracketed(c, r, x);
        }
    }
    r
}

/// The second after `c`.
pub fn next_second(c: CivilTime) -> (r: CivilTime)
    requires
        c.valid(),
        c.year < i32::MAX,
    ensures
        r == second_after(c),
        r.valid(),
        c.year <= r.year <= c.year + 1,
        c.count() < r.count(),
        forall|x: CivilTime| x.valid() && c.count() <= #[trigger] x.count() < r.count() ==> x == c,
{
    let r = if c.second == 59 {
        next_minute(c)
    } else {
        CivilTime { second: c.second + 1, ..c }
    };
    proof {
        if c.second < 59 {
            lemma_count_keeps_order(c, r);
        }
        assert forall|x: CivilTime|
            x.valid() && c.count() <= #[trigger] x.count() < r.count() implies x == c by {
            lemma_bracketed(c, r, x);
        }
    }
    r
}

/// The number of days from 1970-01-01 to the first of January of year `y`.
#[verifier::rlimit(30)]
fn days_to_year(y: i32) -> (r: i64)
    requires
        -9999 <= y <= 10_000,
    ensures
        r == days_before_year(y as int),
        -4_400_000 < r < 3_000_000,
{
    // Ten thousand years are a whole number of leap year cycles, with 2425 leap years.
    let shifted: i64 = y as i64 + 9999;
    365 * (y as i64 - 1970) + (shifted / 4 - shifted / 100 + shifted / 400) - 2425 - 477
}

/// The number of days of year `y` that lie before month `mo`.
fn days_to_month(y: i32, mo: i32) -> (r: i64)
    requires
        1 <= mo <= 12,
    ensures
        r == days_before_month(y as int, mo as int),
        0 <= r < 366,
{
    let mut days: i64 = 0;
    let mut m: i32 = 1;
    while m < mo
        invariant
            1 <= m <= mo <= 12,
            days == days_before_month(y as int, m as int),
            0 <= days <= 31 * (m - 1),
        decreases mo - m,
    {
        days = days + days_in_month(m, y) as i64;
        m = m + 1;
    }
    proof {
        lemma_later_month(y as int, mo as int, 13);
    }
    days
}

/// The number of seconds from 1970-01-01T00:00:00 to `c` on the same clock.
pub fn count_seconds(c: CivilTime) -> (r: i64)
    requires
        c.valid(),
        -9999 <= c.year <= 10_000,
    ensures
        r == c.count(),
{
    let days: i64 = days_to_year(c.year) + days_to_month(c.year, c.month) + c.day as i64 - 1;
    days * SECONDS_PER_DAY + c.hour as i64 * 3600 + c.minute as i64 * 60 + c.second as i64
}

/// The civil time that counts `s` seconds.
pub open spec fn civil_of(s: int) -> CivilTime {
    choose|c: CivilTime| c.valid() && #[trigger] c.count() == s
}

/// A civil time is the one that counts as many seconds as it does.
pub proof fn lemma_civil_of(c: CivilTime)
    requires
        c.valid(),
    ensures
        civil_of(c.count()) == c,
{
    lemma_count_is_injective(civil_of(c.count()), c);
}

/// One step of the second hand advances the count by one.
pub proof fn law_a_second_later_counts_one_more(c: CivilTime)
    requires
        c.valid(),
        c.year < i32::MAX,
    ensures
        second_after(c).valid(),
        second_after(c).count() == c.count() + 1,
{
    lemma_next_year(c.year as int);
    lemma_later_month(c.year as int, c.month as int, 13);
    if c.month == 12 {
        reveal_with_fuel(days_before_month, 14);
    }
}

} // verus!
