//! Calendar fields in text form, and what a calendar may hold.
use vstd::prelude::*;

use crate::error::{ErrorView, SpecError};
use crate::text::{
    abbreviates, all_digits, characters, cut, cut_at, decimal, decimal_string, digits_value, find,
    integer, is_digit, join, joined, lemma_decimal, lemma_length_before, lemma_nothing_to_trim,
    lemma_pieces_of_both, lemma_pieces_trimmed, lowercase, parse_integer, pieces, reads,
    same_letters, same_trimmed, split, strings, texts, trim, trimmed, unsigned, white,
};
use crate::time::total_nanos;
use crate::types::{
    ranges_have, CalendarSpec, CalendarView, IntervalSpec, IntervalView, Range,
    StructuredCalendarSpec, StructuredCalendarView, MAX_CALENDAR_YEAR, MAX_COMMENT_LEN,
    MIN_CALENDAR_YEAR,
};

verus! {

/// How the values of a field are written.
#[derive(Debug, Clone, Copy, PartialEq, Eq, Structural)]
pub enum ParseMode {
    /// As integers.
    Int,
    /// As integers; `*` gives an empty list, which stands for all years.
    Year,
    /// As integers or by the first three or more letters of the name of a month.
    Month,
    /// As integers, 7 is Sunday too, or by the first two or more letters of the name of a day.
    Dow,
}

// ---------------------------------------------------------------------------
// Names
// ---------------------------------------------------------------------------

/// The name of a month, 1 is January.
pub open spec fn month_text(month: int) -> Seq<char> {
    if month == 1 {
        "january"@
    } else if month == 2 {
        "february"@
    } else if month == 3 {
        "march"@
    } else if month == 4 {
        "april"@
    } else if month == 5 {
        "may"@
    } else if month == 6 {
        "june"@
    } else if month == 7 {
        "july"@
    } else if month == 8 {
        "august"@
    } else if month == 9 {
        "september"@
    } else if month == 10 {
        "october"@
    } else if month == 11 {
        "november"@
    } else {
        "december"@
    }
}

/// The name of a day of the week, 0 is Sunday.
pub open spec fn day_text(day: int) -> Seq<char> {
    if day == 0 {
        "sunday"@
    } else if day == 1 {
        "monday"@
    } else if day == 2 {
        "tuesday"@
    } else if day == 3 {
        "wednesday"@
    } else if day == 4 {
        "thursday"@
    } else if day == 5 {
        "friday"@
    } else {
        "saturday"@
    }
}

/// Whether `s` is short for `name`: its first letters, and at least `least` of them.
pub open spec fn short_for(s: Seq<char>, name: Seq<char>, least: int) -> bool {
    least <= s.len() <= name.len() && same_letters(s, name.take(s.len() as int))
}

/// The first month from `month` on that `s` is short for.
pub open spec fn named_month(s: Seq<char>, month: int) -> Option<int>
    decreases 13 - month,
{
    if month > 12 {
        None
    } else if short_for(s, month_text(month), 3) {
        Some(month)
    } else {
        named_month(s, month + 1)
    }
}

/// The first day of the week from `day` on that `s` is short for.
pub open spec fn named_day(s: Seq<char>, day: int) -> Option<int>
    decreases 7 - day,
{
    if day > 6 {
        None
    } else if short_for(s, day_text(day), 2) {
        Some(day)
    } else {
        named_day(s, day + 1)
    }
}

/// The name of a month, 1 is January.
fn month_name(month: i32) -> (r: &'static str)
    requires
        1 <= month <= 12,
    ensures
        r@ == month_text(month as int),
{
    match month {
        1 => "january",
        2 => "february",
        3 => "march",
        4 => "april",
        5 => "may",
        6 => "june",
        7 => "july",
        8 => "august",
        9 => "september",
        10 => "october",
        11 => "november",
        _ => "december",
    }
}

/// The name of a day of the week, 0 is Sunday.
fn day_name(day: i32) -> (r: &'static str)
    requires
        0 <= day <= 6,
    ensures
        r@ == day_text(day as int),
{
    match day {
        0 => "sunday",
        1 => "monday",
        2 => "tuesday",
        3 => "wednesday",
        4 => "thursday",
        5 => "friday",
        _ => "saturday",
    }
}

/// Whether the characters are short for a name.
fn is_short_for(s: &[char], name: &str, least: usize) -> (r: bool)
    ensures
        r == short_for(s@, name@, least as int),
{
    s.len() >= least && abbreviates(s, characters(name).as_slice())
}

/// The month that the characters are short for.
fn month_of(s: &[char]) -> (r: Option<i32>)
    ensures
        match r {
            Some(m) => named_month(s@, 1) == Some(m as int),
            None => named_month(s@, 1) is None,
        },
{
    let mut month: i32 = 1;
    while month <= 12
        invariant
            1 <= month <= 13,
            named_month(s@, 1) == named_month(s@, month as int),
        decreases 13 - month,
    {
        if is_short_for(s, month_name(month), 3) {
            return Some(month);
        }
        month = month + 1;
    }
    None
}

/// The day of the week that the characters are short for.
fn day_of(s: &[char]) -> (r: Option<i32>)
    ensures
        match r {
            Some(d) => named_day(s@, 0) == Some(d as int),
            None => named_day(s@, 0) is None,
        },
{
    let mut day: i32 = 0;
    while day <= 6
        invariant
            0 <= day <= 7,
            named_day(s@, 0) == named_day(s@, day as int),
        decreases 7 - day,
    {
        if is_short_for(s, day_name(day), 2) {
            return Some(day);
        }
        day = day + 1;
    }
    None
}

// ---------------------------------------------------------------------------
// Values
// ---------------------------------------------------------------------------

/// The value that `s` writes, a name or an integer, if it is one from `min` to `max`.
pub open spec fn value_of(s: Seq<char>, min: int, max: int, mode: ParseMode) -> Option<int> {
    let t = trimmed(s);
    let named = match mode {
        ParseMode::Month => named_month(t, 1),
        ParseMode::Dow => named_day(t, 0),
        _ => None,
    };
    let value = if named is Some {
        named
    } else {
        integer(t)
    };
    match value {
        Some(v) => if min <= v <= max {
            Some(v)
        } else {
            None
        },
        None => None,
    }
}

/// The value that the characters write, a name or an integer, if it is one from `min` to `max`.
fn parse_value(s: &[char], min: i32, max: i32, mode: ParseMode) -> (r: Option<i32>)
    ensures
        match r {
            Some(v) => value_of(s@, min as int, max as int, mode) == Some(v as int),
            None => value_of(s@, min as int, max as int, mode) is None,
        },
{
    let t = trim(s);
    let named = match mode {
        ParseMode::Month => month_of(t),
        ParseMode::Dow => day_of(t),
        _ => None,
    };
    let value = match named {
        Some(v) => Some(v),
        None => parse_integer(t),
    };
    match value {
        Some(v) => if min <= v && v <= max {
            Some(v)
        } else {
            None
        },
        None => None,
    }
}

// ---------------------------------------------------------------------------
// Ranges
// ---------------------------------------------------------------------------

/// What a field allows, in words: `[min-max]`.
pub open spec fn limits_text(min: int, max: int) -> Seq<char> {
    "["@ + decimal(min) + "-"@ + decimal(max) + "]"@
}

/// The step that follows a slash, or in words what is wrong with it.
pub open spec fn step_of(step: Seq<char>, field: Seq<char>) -> Result<int, Seq<char>> {
    if cut_at(step, '/') is Some {
        Err(field + " has too many slashes"@)
    } else if step.len() == 0 {
        Err(field + " missing step value"@)
    } else {
        match integer(step) {
            None => Err("invalid step"@),
            Some(n) => if n < 1 {
                Err(field + " has invalid Step"@)
            } else {
                Ok(n)
            },
        }
    }
}

/// The first and the last value of what stands before the step: `*`, `x-z` or `x`. With a step,
/// `x` goes on up to `max`. Else in words what is wrong with it.
pub open spec fn bounds_of(
    base: Seq<char>,
    stepped: bool,
    field: Seq<char>,
    min: int,
    max: int,
    mode: ParseMode,
) -> Result<(int, int), Seq<char>> {
    if base == "*"@ {
        Ok((min, max))
    } else {
        match cut_at(base, '-') {
            Some((first, last)) => if cut_at(last, '-') is Some {
                Err(field + " has too many dashes"@)
            } else {
                match value_of(first, min, max, mode) {
                    None => Err(field + " Start is not in range "@ + limits_text(min, max)),
                    Some(start) => match value_of(last, start, max, mode) {
                        None => Err(
                            field + " End is before Start or not in range "@ + limits_text(
                                min,
                                max,
                            ),
                        ),
                        Some(end) => Ok((start, end)),
                    },
                }
            },
            None => match value_of(base, min, max, mode) {
                None => Err(field + " is not in range "@ + limits_text(min, max)),
                Some(v) => Ok(
                    (
                        v,
                        if stepped {
                            max
                        } else {
                            v
                        },
                    ),
                ),
            },
        }
    }
}

/// The range from `start` to `end` in steps of `step`, in its shortest form.
pub open spec fn range_from(start: int, end: int, step: int) -> Range {
    Range {
        start: start as i32,
        end: (if start == end {
            0
        } else {
            end
        }) as i32,
        step: (if step == 1 {
            0
        } else {
            step
        }) as i32,
    }
}

/// The ranges of the values from `start` to `end` in steps of `step`.
///
/// Where days of the week end with 7, 7 is taken as 0: if it is one of the values, 0 is.
pub open spec fn stepped_ranges(start: int, end: int, step: int, mode: ParseMode) -> Seq<Range> {
    if mode == ParseMode::Dow && end == 7 {
        if start == 7 {
            seq![range_from(0, 0, 1)]
        } else if (7 - start) % step != 0 {
            seq![range_from(start, 6, step)]
        } else if step > 1 || start > 1 {
            seq![range_from(0, 0, 1), range_from(start, 6, step)]
        } else if start == 1 {
            seq![range_from(0, 6, 1)]
        } else {
            seq![range_from(start, 6, 1)]
        }
    } else {
        seq![range_from(start, end, step)]
    }
}

/// The ranges of one part of a field, `*`, `x`, `x-z`, `x-z/y` or `x/y`, or in words what is
/// wrong with it.
pub open spec fn part_of(
    part: Seq<char>,
    field: Seq<char>,
    min: int,
    max: int,
    mode: ParseMode,
) -> Result<Seq<Range>, Seq<char>> {
    match cut_at(part, '/') {
        None => match bounds_of(part, false, field, min, max, mode) {
            Err(text) => Err(text),
            Ok((start, end)) => Ok(stepped_ranges(start, end, 1, mode)),
        },
        Some((base, after)) => match step_of(after, field) {
            Err(text) => Err(text),
            Ok(step) => match bounds_of(base, true, field, min, max, mode) {
                Err(text) => Err(text),
                Ok((start, end)) => Ok(stepped_ranges(start, end, step, mode)),
            },
        },
    }
}

/// The ranges of the parts of a field, empty parts left out, or in words what is wrong with the
/// first part that cannot be read.
pub open spec fn parts_of(
    parts: Seq<Seq<char>>,
    field: Seq<char>,
    min: int,
    max: int,
    mode: ParseMode,
) -> Result<Seq<Range>, Seq<char>>
    decreases parts.len(),
{
    if parts.len() == 0 {
        Ok(Seq::empty())
    } else {
        match parts_of(parts.drop_last(), field, min, max, mode) {
            Err(text) => Err(text),
            Ok(before) => if trimmed(parts.last()).len() == 0 {
                Ok(before)
            } else {
                match part_of(trimmed(parts.last()), field, min, max, mode) {
                    Err(text) => Err(text),
                    Ok(ranges) => Ok(before + ranges),
                }
            },
        }
    }
}

/// The text of a field: its default if it is empty.
pub open spec fn field_text(s: Seq<char>, def: Seq<char>) -> Seq<char> {
    if trimmed(s).len() == 0 {
        def
    } else {
        trimmed(s)
    }
}

/// The ranges that a field writes, or what is wrong with it.
pub open spec fn ranges_of(
    s: Seq<char>,
    field: Seq<char>,
    def: Seq<char>,
    min: int,
    max: int,
    mode: ParseMode,
) -> Result<Seq<Range>, ErrorView> {
    let t = field_text(s, def);
    if t == "*"@ && mode == ParseMode::Year {
        Ok(Seq::empty())
    } else {
        match parts_of(pieces(t, ','), field, min, max, mode) {
            Ok(ranges) => Ok(ranges),
            Err(text) => Err(ErrorView::RangeError { field: field, detail: text }),
        }
    }
}

/// What a field allows, in words: `[min-max]`.
fn limits(min: i32, max: i32) -> (r: String)
    ensures
        r@ == limits_text(min as int, max as int),
{
    "[".to_owned().concat(decimal_string(min).as_str()).concat("-").concat(
        decimal_string(max).as_str(),
    ).concat("]")
}

/// The step that follows a slash, or in words what is wrong with it.
fn parse_step(step: &[char], field: &str) -> (r: Result<i32, String>)
    ensures
        match r {
            Ok(n) => step_of(step@, field@) == Ok::<int, Seq<char>>(n as int) && n >= 1,
            Err(text) => step_of(step@, field@) == Err::<int, Seq<char>>(text@),
        },
{
    if find(step, '/') < step.len() {
        Err(field.to_owned().concat(" has too many slashes"))
    } else if step.len() == 0 {
        Err(field.to_owned().concat(" missing step value"))
    } else {
        match parse_integer(step) {
            None => Err("invalid step".to_owned()),
            Some(n) => if n < 1 {
                Err(field.to_owned().concat(" has invalid Step"))
            } else {
                Ok(n)
            },
        }
    }
}

/// The first and the last value of what stands before the step, or in words what is wrong with
/// it.
fn parse_bounds(
    base: &[char],
    stepped: bool,
    field: &str,
    min_val: i32,
    max_val: i32,
    mode: ParseMode,
) -> (r: Result<(i32, i32), String>)
    ensures
        ({
            let expected = bounds_of(base@, stepped, field@, min_val as int, max_val as int, mode);
            match r {
                Ok((start, end)) => expected == Ok::<(int, int), Seq<char>>(
                    (start as int, end as int),
                ),
                Err(text) => expected == Err::<(int, int), Seq<char>>(text@),
            }
        }),
{
    if reads(base, "*") {
        return Ok((min_val, max_val));
    }
    match cut(base, '-') {
        Some((first, last)) => {
            if find(last, '-') < last.len() {
                return Err(field.to_owned().concat(" has too many dashes"));
            }
            match parse_value(first, min_val, max_val, mode) {
                None => Err(
                    field.to_owned().concat(" Start is not in range ").concat(
                        limits(min_val, max_val).as_str(),
                    ),
                ),
                Some(start) => match parse_value(last, start, max_val, mode) {
                    None => Err(
                        field.to_owned().concat(" End is before Start or not in range ").concat(
                            limits(min_val, max_val).as_str(),
                        ),
                    ),
                    Some(end) => Ok((start, end)),
                },
            }
        },
        None => match parse_value(base, min_val, max_val, mode) {
            None => Err(
                field.to_owned().concat(" is not in range ").concat(
                    limits(min_val, max_val).as_str(),
                ),
            ),
            Some(v) => Ok(
                (
                    v,
                    if stepped {
                        max_val
                    } else {
                        v
                    },
                ),
            ),
        },
    }
}

/// Appends the range from `start` to `end` in steps of `step`.
fn add_range(ranges: &mut Vec<Range>, start: i32, end: i32, step: i32)
    ensures
        final(ranges)@ == old(ranges)@.push(range_from(start as int, end as int, step as int)),
{
    let end_enc: i32 = if start == end {
        0
    } else {
        end
    };
    let step_enc: i32 = if step == 1 {
        0
    } else {
        step
    };
    ranges.push(Range { start, end: end_enc, step: step_enc });
}

/// Appends the ranges of the values from `start` to `end` in steps of `step`, a day of the week
/// of 7 taken as 0.
fn add_stepped(ranges: &mut Vec<Range>, start: i32, end: i32, step: i32, mode: ParseMode)
    requires
        step >= 1,
    ensures
        final(ranges)@ == old(ranges)@ + stepped_ranges(
            start as int,
            end as int,
            step as int,
            mode,
        ),
{
    if mode == ParseMode::Dow && end == 7 {
        let to_seven: i64 = 7 - start as i64;
        let seven_included = if to_seven >= 0 {
            to_seven % (step as i64) == 0
        } else {
            (-to_seven) % (step as i64) == 0
        };
        proof {
            if to_seven < 0 {
                lemma_divides_both_ways(-to_seven, step as int);
            }
        }
        if start == 7 {
            add_range(ranges, 0, 0, 1);
        } else if !seven_included {
            add_range(ranges, start, 6, step);
        } else if step > 1 || start > 1 {
            add_range(ranges, 0, 0, 1);
            add_range(ranges, start, 6, step);
        } else if start == 1 {
            add_range(ranges, 0, 6, 1);
        } else {
            add_range(ranges, start, 6, 1);
        }
    } else {
        add_range(ranges, start, end, step);
    }
    assert(ranges@ == old(ranges)@ + stepped_ranges(start as int, end as int, step as int, mode));
}

/// A number divides another if and only if it divides its negative.
proof fn lemma_divides_both_ways(a: int, d: int)
    requires
        d > 0,
    ensures
        (a % d == 0) <==> ((-a) % d == 0),
{
    vstd::arithmetic::div_mod::lemma_fundamental_div_mod(a, d);
    vstd::arithmetic::div_mod::lemma_fundamental_div_mod(-a, d);
    if a % d == 0 {
        vstd::arithmetic::div_mod::lemma_mod_multiples_basic(-(a / d), d);
        assert(-(a / d) * d == -a) by (nonlinear_arith)
            requires
                a == d * (a / d),
        ;
    }
    if (-a) % d == 0 {
        vstd::arithmetic::div_mod::lemma_mod_multiples_basic(-((-a) / d), d);
        assert(-((-a) / d) * d == a) by (nonlinear_arith)
            requires
                -a == d * ((-a) / d),
        ;
    }
}

/// Appends the ranges of one part of a field. If it cannot be read, says in words what is wrong
/// with it.
fn add_part(
    ranges: &mut Vec<Range>,
    part: &[char],
    field: &str,
    min_val: i32,
    max_val: i32,
    mode: ParseMode,
) -> (r: Result<(), String>)
    ensures
        ({
            let expected = part_of(part@, field@, min_val as int, max_val as int, mode);
            match r {
                Ok(_) => expected matches Ok(added) && final(ranges)@ == old(ranges)@ + added,
                Err(text) => expected == Err::<Seq<Range>, Seq<char>>(text@),
            }
        }),
{
    let (base, step, stepped) = match cut(part, '/') {
        Some((base, after)) => match parse_step(after, field) {
            Ok(step) => (base, step, true),
            Err(text) => {
                return Err(text);
            },
        },
        None => (part, 1, false),
    };
    match parse_bounds(base, stepped, field, min_val, max_val, mode) {
        Ok((start, end)) => {
            add_stepped(ranges, start, end, step, mode);
            Ok(())
        },
        Err(text) => Err(text),
    }
}

/// The ranges that a field writes.
///
/// | text    | values                                |
/// |---------|---------------------------------------|
/// | `*`     | all from `min_val` to `max_val`       |
/// | `x`     | x                                     |
/// | `x-z`   | from x to z                           |
/// | `x-z/y` | from x to z, in steps of y            |
/// | `x/y`   | from x to `max_val`, in steps of y    |
/// | `j,k,l` | those of each part                    |
///
/// An empty field stands for `def`. `field` is the name that an error gives.
pub fn make_range(
    s: &str,
    field: &str,
    def: &str,
    min_val: i32,
    max_val: i32,
    parse_mode: ParseMode,
) -> (r: Result<Vec<Range>, SpecError>)
    ensures
        ({
            let expected = ranges_of(
                s@,
                field@,
                def@,
                min_val as int,
                max_val as int,
                parse_mode,
            );
            match r {
                Ok(ranges) => expected == Ok::<Seq<Range>, ErrorView>(ranges@),
                Err(e) => expected == Err::<Seq<Range>, ErrorView>(e@),
            }
        }),
{
    let given = characters(s);
    let default = characters(def);
    let text = trim(given.as_slice());
    let text = if text.len() == 0 {
        default.as_slice()
    } else {
        text
    };
    let ghost t = field_text(s@, def@);
    assert(text@ == t);
    let mut ranges: Vec<Range> = Vec::new();
    if parse_mode == ParseMode::Year && reads(text, "*") {
        return Ok(ranges);
    }
    let parts = split(text, ',');
    let ghost all = pieces(t, ',');
    let ghost min = min_val as int;
    let ghost max = max_val as int;
    let mut i: usize = 0;
    while i < parts.len()
        invariant
            i <= parts.len(),
            t == field_text(s@, def@),
            all == pieces(t, ','),
            texts(parts@) == all,
            min == min_val,
            max == max_val,
            !(t == "*"@ && parse_mode == ParseMode::Year),
            parts_of(all.take(i as int), field@, min, max, parse_mode) == Ok::<
                Seq<Range>,
                Seq<char>,
            >(ranges@),
        decreases parts.len() - i,
    {
        let part = trim(parts[i]);
        proof {
            assert(all.take(i + 1).drop_last() == all.take(i as int));
            assert(all.take(i + 1).last() == parts@[i as int]@);
        }
        if part.len() > 0 {
            match add_part(&mut ranges, part, field, min_val, max_val, parse_mode) {
                Ok(_) => {},
                Err(text) => {
                    proof {
                        lemma_first_error(all, i + 1, field@, min, max, parse_mode, text@);
                    }
                    return Err(SpecError::RangeError { field: field.to_owned(), detail: text });
                },
            }
        }
        i = i + 1;
    }
    assert(all.take(all.len() as int) == all);
    Ok(ranges)
}

/// What is wrong with the first parts of a field is what is wrong with all of them.
proof fn lemma_first_error(
    parts: Seq<Seq<char>>,
    n: int,
    field: Seq<char>,
    min: int,
    max: int,
    mode: ParseMode,
    text: Seq<char>,
)
    requires
        0 <= n <= parts.len(),
        parts_of(parts.take(n), field, min, max, mode) == Err::<Seq<Range>, Seq<char>>(text),
    ensures
        parts_of(parts, field, min, max, mode) == Err::<Seq<Range>, Seq<char>>(text),
    decreases parts.len() - n,
{
    if n == parts.len() {
        assert(parts.take(n) == parts);
    } else {
        assert(parts.take(n + 1).drop_last() == parts.take(n));
        lemma_first_error(parts, n + 1, field, min, max, mode, text);
    }
}

// ---------------------------------------------------------------------------
// Calendars in text form
// ---------------------------------------------------------------------------

/// The ranges of a calendar's fields, each of which may be wrong.
pub struct FieldsView {
    pub second: Result<Seq<Range>, ErrorView>,
    pub minute: Result<Seq<Range>, ErrorView>,
    pub hour: Result<Seq<Range>, ErrorView>,
    pub day_of_week: Result<Seq<Range>, ErrorView>,
    pub day_of_month: Result<Seq<Range>, ErrorView>,
    pub month: Result<Seq<Range>, ErrorView>,
    pub year: Result<Seq<Range>, ErrorView>,
}

/// The ranges that the fields of a calendar write.
pub open spec fn fields_of(cal: CalendarView) -> FieldsView {
    FieldsView {
        second: ranges_of(cal.second, "Second"@, "0"@, 0, 59, ParseMode::Int),
        minute: ranges_of(cal.minute, "Minute"@, "0"@, 0, 59, ParseMode::Int),
        hour: ranges_of(cal.hour, "Hour"@, "0"@, 0, 23, ParseMode::Int),
        day_of_week: ranges_of(cal.day_of_week, "DayOfWeek"@, "*"@, 0, 7, ParseMode::Dow),
        day_of_month: ranges_of(cal.day_of_month, "DayOfMonth"@, "*"@, 1, 31, ParseMode::Int),
        month: ranges_of(cal.month, "Month"@, "*"@, 1, 12, ParseMode::Month),
        year: ranges_of(
            cal.year,
            "Year"@,
            "*"@,
            MIN_CALENDAR_YEAR as int,
            MAX_CALENDAR_YEAR as int,
            ParseMode::Year,
        ),
    }
}

/// The text of the error, if there is one.
pub open spec fn error_text(r: Result<Seq<Range>, ErrorView>) -> Seq<Seq<char>> {
    match r {
        Ok(_) => Seq::empty(),
        Err(e) => seq![e.message()],
    }
}

/// The texts of all errors.
pub open spec fn error_texts(fields: FieldsView) -> Seq<Seq<char>> {
    error_text(fields.second) + error_text(fields.minute) + error_text(fields.hour) + error_text(
        fields.day_of_week,
    ) + error_text(fields.day_of_month) + error_text(fields.month) + error_text(fields.year)
}

/// The calendar that a calendar in text form writes, or what is wrong with it.
pub open spec fn structured_of(cal: CalendarView) -> Result<StructuredCalendarView, ErrorView> {
    let fields = fields_of(cal);
    if error_texts(fields).len() > 0 {
        Err(ErrorView::InvalidCalendarSpec(joined(error_texts(fields), ", "@)))
    } else {
        Ok(
            StructuredCalendarView {
                second: fields.second->Ok_0,
                minute: fields.minute->Ok_0,
                hour: fields.hour->Ok_0,
                day_of_month: fields.day_of_month->Ok_0,
                month: fields.month->Ok_0,
                year: fields.year->Ok_0,
                day_of_week: fields.day_of_week->Ok_0,
                comment: cal.comment,
            },
        )
    }
}

/// The ranges that a field writes. If it cannot be read, appends the error's text to `errs`.
fn make_range_or_note(
    s: &str,
    field: &str,
    def: &str,
    min_val: i32,
    max_val: i32,
    mode: ParseMode,
    errs: &mut Vec<String>,
) -> (r: Vec<Range>)
    ensures
        ({
            let expected = ranges_of(s@, field@, def@, min_val as int, max_val as int, mode);
            &&& strings(final(errs)@) == strings(old(errs)@) + error_text(expected)
            &&& expected is Ok ==> expected == Ok::<Seq<Range>, ErrorView>(r@)
        }),
{
    match make_range(s, field, def, min_val, max_val, mode) {
        Ok(ranges) => {
            assert(strings(errs@) + Seq::<Seq<char>>::empty() == strings(errs@));
            ranges
        },
        Err(e) => {
            let text = e.to_string();
            errs.push(text);
            assert(strings(errs@) == strings(old(errs)@) + seq![text@]);
            Vec::new()
        },
    }
}

/// The calendar that a calendar in text form writes. The error lists what is wrong with each
/// field.
pub fn parse_calendar_to_structured(cal: &CalendarSpec) -> (r: Result<
    StructuredCalendarSpec,
    SpecError,
>)
    ensures
        match r {
            Ok(structured) => structured_of(cal@) == Ok::<StructuredCalendarView, ErrorView>(
                structured@,
            ),
            Err(e) => structured_of(cal@) == Err::<StructuredCalendarView, ErrorView>(e@),
        },
{
    let mut errs: Vec<String> = Vec::new();
    assert(strings(errs@) == Seq::<Seq<char>>::empty());
    let plain = ParseMode::Int;
    let second = make_range_or_note(cal.second.as_str(), "Second", "0", 0, 59, plain, &mut errs);
    let minute = make_range_or_note(cal.minute.as_str(), "Minute", "0", 0, 59, plain, &mut errs);
    let hour = make_range_or_note(cal.hour.as_str(), "Hour", "0", 0, 23, plain, &mut errs);
    let day_of_week = make_range_or_note(
        cal.day_of_week.as_str(),
        "DayOfWeek",
        "*",
        0,
        7,
        ParseMode::Dow,
        &mut errs,
    );
    let day_of_month = make_range_or_note(
        cal.day_of_month.as_str(),
        "DayOfMonth",
        "*",
        1,
        31,
        plain,
        &mut errs,
    );
    let month = make_range_or_note(
        cal.month.as_str(),
        "Month",
        "*",
        1,
        12,
        ParseMode::Month,
        &mut errs,
    );
    let year = make_range_or_note(
        cal.year.as_str(),
        "Year",
        "*",
        MIN_CALENDAR_YEAR,
        MAX_CALENDAR_YEAR,
        ParseMode::Year,
        &mut errs,
    );
    assert(strings(errs@) == error_texts(fields_of(cal@)));
    if errs.len() > 0 {
        return Err(SpecError::InvalidCalendarSpec(join(&errs, ", ")));
    }
    Ok(
        StructuredCalendarSpec {
            second,
            minute,
            hour,
            day_of_month,
            month,
            year,
            day_of_week,
            comment: cal.comment.clone(),
        },
    )
}

// ---------------------------------------------------------------------------
// What a calendar may hold
// ---------------------------------------------------------------------------

/// What is wrong with a range of a field that allows the values from `min` to `max`, in words.
pub open spec fn range_faults(r: Range, field: Seq<char>, min: int, max: int) -> Seq<Seq<char>> {
    let start = if r.start < min || r.start > max {
        seq![field + " Start is not in range "@ + limits_text(min, max)]
    } else {
        Seq::empty()
    };
    let end = if r.end != 0 && (r.end < r.start || r.end > max) {
        seq![field + " End is before Start or not in range "@ + limits_text(min, max)]
    } else {
        Seq::empty()
    };
    let step = if r.step < 0 {
        seq![field + " has invalid Step"@]
    } else {
        Seq::empty()
    };
    start + end + step
}

/// What is wrong with the ranges of a field, in words.
pub open spec fn field_faults(ranges: Seq<Range>, field: Seq<char>, min: int, max: int) -> Seq<
    Seq<char>,
>
    decreases ranges.len(),
{
    if ranges.len() == 0 {
        Seq::empty()
    } else {
        field_faults(ranges.drop_last(), field, min, max) + range_faults(
            ranges.last(),
            field,
            min,
            max,
        )
    }
}

/// What is wrong with a calendar, in words.
pub open spec fn calendar_faults(cal: StructuredCalendarView) -> Seq<Seq<char>> {
    let fields = field_faults(cal.second, "Second"@, 0, 59) + field_faults(
        cal.minute,
        "Minute"@,
        0,
        59,
    ) + field_faults(cal.hour, "Hour"@, 0, 23) + field_faults(
        cal.day_of_month,
        "DayOfMonth"@,
        1,
        31,
    ) + field_faults(cal.month, "Month"@, 1, 12) + field_faults(
        cal.year,
        "Year"@,
        MIN_CALENDAR_YEAR as int,
        MAX_CALENDAR_YEAR as int,
    ) + field_faults(cal.day_of_week, "DayOfWeek"@, 0, 6);
    if cal.comment.len() > MAX_COMMENT_LEN {
        fields.push("comment is too long"@)
    } else {
        fields
    }
}

/// Appends in words what is wrong with the ranges of a field.
fn check_field(
    ranges: &Vec<Range>,
    field: &str,
    min_val: i32,
    max_val: i32,
    errs: &mut Vec<String>,
)
    ensures
        strings(final(errs)@) == strings(old(errs)@) + field_faults(
            ranges@,
            field@,
            min_val as int,
            max_val as int,
        ),
{
    let ghost before = strings(errs@);
    let ghost min = min_val as int;
    let ghost max = max_val as int;
    assert(before + field_faults(ranges@.take(0), field@, min, max) == before);
    let mut i: usize = 0;
    while i < ranges.len()
        invariant
            i <= ranges.len(),
            min == min_val,
            max == max_val,
            strings(errs@) == before + field_faults(ranges@.take(i as int), field@, min, max),
        decreases ranges.len() - i,
    {
        let r = ranges[i];
        let ghost so_far = strings(errs@);
        assert(so_far =~= so_far + Seq::<Seq<char>>::empty());
        if r.start < min_val || r.start > max_val {
            let text = field.to_owned().concat(" Start is not in range ").concat(
                limits(min_val, max_val).as_str(),
            );
            let ghost s0 = strings(errs@);
            errs.push(text);
            assert(strings(errs@) =~= s0.push(text@));
        }
        if r.end != 0 && (r.end < r.start || r.end > max_val) {
            let text = field.to_owned().concat(" End is before Start or not in range ").concat(
                limits(min_val, max_val).as_str(),
            );
            let ghost s0 = strings(errs@);
            errs.push(text);
            assert(strings(errs@) =~= s0.push(text@));
        }
        if r.step < 0 {
            let text = field.to_owned().concat(" has invalid Step");
            let ghost s0 = strings(errs@);
            errs.push(text);
            assert(strings(errs@) =~= s0.push(text@));
        }
        proof {
            assert(ranges@.take(i + 1).drop_last() == ranges@.take(i as int));
            assert(strings(errs@) =~= so_far + range_faults(r, field@, min, max));
            assert(strings(errs@) =~= before + field_faults(
                ranges@.take(i + 1),
                field@,
                min,
                max,
            ));
        }
        i = i + 1;
    }
    assert(ranges@.take(ranges@.len() as int) == ranges@);
}

/// Checks that every value of a calendar is one that its field allows, and that the comment is
/// not too long. The error lists everything that is wrong.
pub fn validate_structured_calendar(scs: &StructuredCalendarSpec) -> (r: Result<(), SpecError>)
    ensures
        match r {
            Ok(_) => calendar_faults(scs@).len() == 0,
            Err(e) => calendar_faults(scs@).len() > 0 && e@ == ErrorView::InvalidCalendarSpec(
                joined(calendar_faults(scs@), ", "@),
            ),
        },
{
    let mut errs: Vec<String> = Vec::new();
    assert(strings(errs@) == Seq::<Seq<char>>::empty());
    check_field(&scs.second, "Second", 0, 59, &mut errs);
    check_field(&scs.minute, "Minute", 0, 59, &mut errs);
    check_field(&scs.hour, "Hour", 0, 23, &mut errs);
    check_field(&scs.day_of_month, "DayOfMonth", 1, 31, &mut errs);
    check_field(&scs.month, "Month", 1, 12, &mut errs);
    check_field(&scs.year, "Year", MIN_CALENDAR_YEAR, MAX_CALENDAR_YEAR, &mut errs);
    check_field(&scs.day_of_week, "DayOfWeek", 0, 6, &mut errs);
    let ghost before = strings(errs@);
    if characters(scs.comment.as_str()).len() > MAX_COMMENT_LEN {
        errs.push("comment is too long".to_owned());
        assert(strings(errs@) == before.push("comment is too long"@));
    }
    assert(strings(errs@) == calendar_faults(scs@));
    if errs.len() > 0 {
        return Err(SpecError::InvalidCalendarSpec(join(&errs, ", ")));
    }
    Ok(())
}

/// What is wrong with an interval: it is at least a second, and its phase is less.
pub open spec fn interval_fault(iv: IntervalView) -> Option<ErrorView> {
    if iv.interval < 1_000_000_000 {
        Some(ErrorView::IntervalTooSmall)
    } else if iv.phase >= iv.interval {
        Some(ErrorView::PhaseExceedsInterval)
    } else {
        None
    }
}

/// Checks that an interval is at least a second, and its phase less than the interval.
pub fn validate_interval(iv: &IntervalSpec) -> (r: Result<(), SpecError>)
    ensures
        match r {
            Ok(_) => interval_fault(iv@) is None,
            Err(e) => interval_fault(iv@) == Some(e@),
        },
{
    if total_nanos(iv.interval) < 1_000_000_000 {
        Err(SpecError::IntervalTooSmall)
    } else if total_nanos(iv.phase) >= total_nanos(iv.interval) {
        Err(SpecError::PhaseExceedsInterval)
    } else {
        Ok(())
    }
}

// ---------------------------------------------------------------------------
// Laws
// ---------------------------------------------------------------------------

/// The values from `start` to `end` in steps of `step` are those that the ranges have.
pub proof fn law_stepped_ranges_match_every_step(
    start: int,
    end: int,
    step: int,
    mode: ParseMode,
    v: int,
)
    requires
        0 <= start <= end <= i32::MAX,
        1 <= step <= i32::MAX,
        mode != ParseMode::Dow || end != 7,
    ensures
        ranges_have(stepped_ranges(start, end, step, mode), v) <==> start <= v <= end && (v
            - start) % step == 0,
{
    let ranges = stepped_ranges(start, end, step, mode);
    let r = range_from(start, end, step);
    assert(ranges[0] == r);
    vstd::arithmetic::div_mod::lemma_small_mod(0, step as nat);
    assert(r.has(v) <==> start <= v <= end && (v - start) % step == 0);
}

/// Where days of the week end with 7, the ranges have the days from 0 to 6 that the steps reach,
/// 7 taken as 0, and no others.
pub proof fn law_seven_is_sunday(start: int, step: int, v: int)
    requires
        0 <= start <= 7,
        1 <= step <= i32::MAX,
    ensures
        ranges_have(stepped_ranges(start, 7, step, ParseMode::Dow), v) <==> exists|w: int|
            start <= w <= 7 && #[trigger] ((w - start) % step) == 0 && v == w % 7,
{
    let ranges = stepped_ranges(start, 7, step, ParseMode::Dow);
    vstd::arithmetic::div_mod::lemma_small_mod(0, step as nat);
    if start == 7 {
        assert((7 - start) % step == 0);
        assert(ranges[0].has(v) <==> v == 0);
    } else {
        let r = ranges.last();
        assert(ranges[ranges.len() - 1] == r);
        if start != 1 || step > 1 || (7 - start) % step != 0 {
            assert forall|u: int|
                r.has(u) <==> start <= u <= 6 && (u - start) % step == 0 by {}
        }
        if (7 - start) % step != 0 {
            assert(ranges_have(ranges, v) <==> r.has(v));
            if r.has(v) {
                assert((v - start) % step == 0 && v == v % 7);
            }
        } else if step > 1 || start > 1 {
            assert(ranges[0].has(v) <==> v == 0);
            if r.has(v) {
                assert((v - start) % step == 0 && v == v % 7);
            }
            if v == 0 {
                assert((7 - start) % step == 0 && v == 7int % 7);
            }
        } else if start == 1 {
            assert(r.has(v) <==> 0 <= v <= 6);
            if 1 <= v <= 6 {
                assert((v - start) % step == 0 && v == v % 7);
            }
            if v == 0 {
                assert((7 - start) % step == 0 && v == 7int % 7);
            }
        } else {
            assert(r.has(v) <==> 0 <= v <= 6);
            if 0 <= v <= 6 {
                assert((v - start) % step == 0 && v == v % 7);
            }
        }
    }
}

/// Whether a range holds only values from `min` to `max`.
pub open spec fn within(r: Range, min: int, max: int) -> bool {
    &&& min <= r.start <= max
    &&& r.end == 0 || r.start <= r.end <= max
    &&& r.step >= 0
}

/// Whether every field of a calendar holds only values that it allows, and the comment is not too
/// long.
pub open spec fn well_formed(cal: StructuredCalendarView) -> bool {
    &&& forall|i: int| 0 <= i < cal.second.len() ==> within(#[trigger] cal.second[i], 0, 59)
    &&& forall|i: int| 0 <= i < cal.minute.len() ==> within(#[trigger] cal.minute[i], 0, 59)
    &&& forall|i: int| 0 <= i < cal.hour.len() ==> within(#[trigger] cal.hour[i], 0, 23)
    &&& forall|i: int|
        0 <= i < cal.day_of_month.len() ==> within(#[trigger] cal.day_of_month[i], 1, 31)
    &&& forall|i: int| 0 <= i < cal.month.len() ==> within(#[trigger] cal.month[i], 1, 12)
    &&& forall|i: int|
        0 <= i < cal.year.len() ==> within(
            #[trigger] cal.year[i],
            MIN_CALENDAR_YEAR as int,
            MAX_CALENDAR_YEAR as int,
        )
    &&& forall|i: int|
        0 <= i < cal.day_of_week.len() ==> within(#[trigger] cal.day_of_week[i], 0, 6)
    &&& cal.comment.len() <= MAX_COMMENT_LEN
}

/// A field is without fault if and only if each of its ranges is within the limits.
proof fn lemma_field_faults(ranges: Seq<Range>, field: Seq<char>, min: int, max: int)
    ensures
        field_faults(ranges, field, min, max).len() == 0 <==> forall|i: int|
            0 <= i < ranges.len() ==> within(#[trigger] ranges[i], min, max),
    decreases ranges.len(),
{
    if ranges.len() > 0 {
        lemma_field_faults(ranges.drop_last(), field, min, max);
        let last = ranges.last();
        assert(range_faults(last, field, min, max).len() == 0 <==> within(last, min, max));
        if forall|i: int| 0 <= i < ranges.len() ==> within(#[trigger] ranges[i], min, max) {
            assert(within(ranges[ranges.len() - 1], min, max));
            assert forall|i: int| 0 <= i < ranges.len() - 1 implies within(
                #[trigger] ranges.drop_last()[i],
                min,
                max,
            ) by {
                assert(within(ranges[i], min, max));
            }
        }
        if field_faults(ranges, field, min, max).len() == 0 {
            assert forall|i: int| 0 <= i < ranges.len() implies within(
                #[trigger] ranges[i],
                min,
                max,
            ) by {
                if i < ranges.len() - 1 {
                    assert(within(ranges.drop_last()[i], min, max));
                }
            }
        }
    }
}

/// A calendar is valid if and only if every field holds only values that it allows, and the
/// comment is not too long.
pub proof fn law_valid_means_well_formed(cal: StructuredCalendarView)
    ensures
        calendar_faults(cal).len() == 0 <==> well_formed(cal),
{
    lemma_field_faults(cal.second, "Second"@, 0, 59);
    lemma_field_faults(cal.minute, "Minute"@, 0, 59);
    lemma_field_faults(cal.hour, "Hour"@, 0, 23);
    lemma_field_faults(cal.day_of_month, "DayOfMonth"@, 1, 31);
    lemma_field_faults(cal.month, "Month"@, 1, 12);
    lemma_field_faults(
        cal.year,
        "Year"@,
        MIN_CALENDAR_YEAR as int,
        MAX_CALENDAR_YEAR as int,
    );
    lemma_field_faults(cal.day_of_week, "DayOfWeek"@, 0, 6);
}

/// The largest value that a field's ranges hold: of the days of the week, 7 is taken as 0.
pub open spec fn top(max: int, mode: ParseMode) -> int {
    if mode == ParseMode::Dow && max == 7 {
        6
    } else {
        max
    }
}

/// The ranges that a field writes hold only values that it allows.
pub proof fn law_written_ranges_are_within(
    s: Seq<char>,
    field: Seq<char>,
    def: Seq<char>,
    min: int,
    max: int,
    mode: ParseMode,
)
    requires
        0 <= min <= max <= i32::MAX,
        mode == ParseMode::Dow ==> min == 0 && max <= 7,
    ensures
        ranges_of(s, field, def, min, max, mode) matches Ok(ranges) ==> forall|i: int|
            0 <= i < ranges.len() ==> within(#[trigger] ranges[i], min, top(max, mode)),
{
    lemma_parts_within(pieces(field_text(s, def), ','), field, min, max, mode);
}

/// The ranges of the parts of a field hold only values that it allows.
proof fn lemma_parts_within(
    parts: Seq<Seq<char>>,
    field: Seq<char>,
    min: int,
    max: int,
    mode: ParseMode,
)
    requires
        0 <= min <= max <= i32::MAX,
        mode == ParseMode::Dow ==> min == 0 && max <= 7,
    ensures
        parts_of(parts, field, min, max, mode) matches Ok(ranges) ==> forall|i: int|
            0 <= i < ranges.len() ==> within(#[trigger] ranges[i], min, top(max, mode)),
    decreases parts.len(),
{
    if parts.len() > 0 {
        lemma_parts_within(parts.drop_last(), field, min, max, mode);
        let part = trimmed(parts.last());
        if let Ok(ranges) = part_of(part, field, min, max, mode) {
            assert forall|i: int| 0 <= i < ranges.len() implies within(
                #[trigger] ranges[i],
                min,
                top(max, mode),
            ) by {}
        }
    }
}

/// A calendar that was read from text is valid, unless its comment is too long.
pub proof fn law_written_calendar_is_valid(cal: CalendarView)
    ensures
        structured_of(cal) matches Ok(structured) ==> (calendar_faults(structured).len() == 0
            <==> cal.comment.len() <= MAX_COMMENT_LEN),
{
    if let Ok(structured) = structured_of(cal) {
        let plain = ParseMode::Int;
        law_written_ranges_are_within(cal.second, "Second"@, "0"@, 0, 59, plain);
        law_written_ranges_are_within(cal.minute, "Minute"@, "0"@, 0, 59, plain);
        law_written_ranges_are_within(cal.hour, "Hour"@, "0"@, 0, 23, plain);
        law_written_ranges_are_within(cal.day_of_week, "DayOfWeek"@, "*"@, 0, 7, ParseMode::Dow);
        law_written_ranges_are_within(cal.day_of_month, "DayOfMonth"@, "*"@, 1, 31, plain);
        law_written_ranges_are_within(cal.month, "Month"@, "*"@, 1, 12, ParseMode::Month);
        law_written_ranges_are_within(
            cal.year,
            "Year"@,
            "*"@,
            MIN_CALENDAR_YEAR as int,
            MAX_CALENDAR_YEAR as int,
            ParseMode::Year,
        );
        let fields = fields_of(cal);
        assert(error_text(fields.second).len() == 0);
        assert(error_text(fields.minute).len() == 0);
        assert(error_text(fields.hour).len() == 0);
        assert(error_text(fields.day_of_week).len() == 0);
        assert(error_text(fields.day_of_month).len() == 0);
        assert(error_text(fields.month).len() == 0);
        assert(error_text(fields.year).len() == 0);
        law_valid_means_well_formed(structured);
    }
}

/// Parts that are the same but for white space at their ends give the same ranges.
proof fn lemma_parts_go_by_trimmed(
    a: Seq<Seq<char>>,
    b: Seq<Seq<char>>,
    field: Seq<char>,
    min: int,
    max: int,
    mode: ParseMode,
)
    requires
        same_trimmed(a, b),
    ensures
        parts_of(a, field, min, max, mode) == parts_of(b, field, min, max, mode),
    decreases a.len(),
{
    if a.len() > 0 {
        assert(trimmed(a[a.len() - 1]) == trimmed(b[a.len() - 1]));
        assert forall|i: int| 0 <= i < a.len() - 1 implies trimmed(
            #[trigger] a.drop_last()[i],
        ) == trimmed(b.drop_last()[i]) by {
            assert(trimmed(a[i]) == trimmed(b[i]));
        }
        lemma_parts_go_by_trimmed(a.drop_last(), b.drop_last(), field, min, max, mode);
    }
}

/// The outcome of reading one thing and then another: the ranges of both, or the first error.
pub open spec fn one_after_the_other<E>(
    a: Result<Seq<Range>, E>,
    b: Result<Seq<Range>, E>,
) -> Result<Seq<Range>, E> {
    match (a, b) {
        (Err(e), _) => Err(e),
        (Ok(_), Err(e)) => Err(e),
        (Ok(first), Ok(second)) => Ok(first + second),
    }
}

/// Parts are read one after the other.
proof fn lemma_parts_of_both(
    a: Seq<Seq<char>>,
    b: Seq<Seq<char>>,
    field: Seq<char>,
    min: int,
    max: int,
    mode: ParseMode,
)
    ensures
        parts_of(a + b, field, min, max, mode) == one_after_the_other(
            parts_of(a, field, min, max, mode),
            parts_of(b, field, min, max, mode),
        ),
    decreases b.len(),
{
    let first = parts_of(a, field, min, max, mode);
    if b.len() == 0 {
        assert(a + b == a);
        if let Ok(ranges) = first {
            assert(ranges + Seq::<Range>::empty() == ranges);
        }
    } else {
        assert((a + b).drop_last() == a + b.drop_last());
        lemma_parts_of_both(a, b.drop_last(), field, min, max, mode);
        if let Ok(ranges) = first {
            if let Ok(before) = parts_of(b.drop_last(), field, min, max, mode) {
                if let Ok(last) = part_of(trimmed(b.last()), field, min, max, mode) {
                    assert(ranges + before + last == ranges + (before + last));
                }
            }
        }
    }
}

/// A list separated by commas is read part by part: its ranges are those of what stands before a
/// comma, and then those of what stands after it. If both cannot be read, what is wrong with the
/// first is said.
///
/// White space alone stands for the field's default, and in a field of years `*` alone stands for
/// all years: neither means the same beside a comma.
pub proof fn law_a_list_is_read_part_by_part(
    a: Seq<char>,
    b: Seq<char>,
    field: Seq<char>,
    def: Seq<char>,
    min: int,
    max: int,
    mode: ParseMode,
)
    requires
        trimmed(a).len() > 0,
        trimmed(b).len() > 0,
        mode == ParseMode::Year ==> trimmed(a) != "*"@ && trimmed(b) != "*"@,
    ensures
        ranges_of(a + seq![','] + b, field, def, min, max, mode) == one_after_the_other(
            ranges_of(a, field, def, min, max, mode),
            ranges_of(b, field, def, min, max, mode),
        ),
{
    let both = a + seq![','] + b;
    lemma_pieces_trimmed(a, ',');
    lemma_pieces_trimmed(b, ',');
    lemma_pieces_trimmed(both, ',');
    lemma_pieces_of_both(a, b, ',');
    lemma_parts_go_by_trimmed(
        pieces(a, ','),
        pieces(trimmed(a), ','),
        field,
        min,
        max,
        mode,
    );
    lemma_parts_go_by_trimmed(
        pieces(b, ','),
        pieces(trimmed(b), ','),
        field,
        min,
        max,
        mode,
    );
    lemma_parts_go_by_trimmed(
        pieces(both, ','),
        pieces(trimmed(both), ','),
        field,
        min,
        max,
        mode,
    );
    lemma_parts_of_both(pieces(a, ','), pieces(b, ','), field, min, max, mode);
    assert(pieces(a, ',').len() >= 1 && pieces(b, ',').len() >= 1);
    assert(pieces(trimmed(both), ',').len() >= 2);
    reveal_strlit("*");
    lemma_length_before("*"@, ',', 1);
    assert(pieces("*"@, ',').len() == 1);
    assert(trimmed(both).len() > 0 && trimmed(both) != "*"@);
}

/// Digits are no name, and have no white space.
pub(crate) proof fn lemma_digits_are_plain(s: Seq<char>, mode: ParseMode, min: int, max: int)
    requires
        s.len() > 0,
        all_digits(s),
        min <= digits_value(s) <= max,
        max <= i32::MAX,
        min >= 0,
    ensures
        value_of(s, min, max, mode) == Some(digits_value(s)),
        integer(s) == Some(digits_value(s)),
{
    assert(is_digit(s[0]));
    assert(is_digit(s[s.len() - 1]));
    lemma_nothing_to_trim(s);
    assert(unsigned(s) == s);
    lemma_digits_name_no_month(s, 1);
    lemma_digits_name_no_day(s, 0);
}

/// Digits are not short for the name of a month.
proof fn lemma_digits_name_no_month(s: Seq<char>, month: int)
    requires
        s.len() > 0,
        is_digit(s[0]),
        1 <= month <= 13,
    ensures
        named_month(s, month) is None,
    decreases 13 - month,
{
    reveal_strlit("january");
    reveal_strlit("february");
    reveal_strlit("march");
    reveal_strlit("april");
    reveal_strlit("may");
    reveal_strlit("june");
    reveal_strlit("july");
    reveal_strlit("august");
    reveal_strlit("september");
    reveal_strlit("october");
    reveal_strlit("november");
    reveal_strlit("december");
    if month <= 12 {
        assert(lowercase(s[0]) == s[0]);
        assert(!short_for(s, month_text(month), 3));
        lemma_digits_name_no_month(s, month + 1);
    }
}

/// Digits are not short for the name of a day.
proof fn lemma_digits_name_no_day(s: Seq<char>, day: int)
    requires
        s.len() > 0,
        is_digit(s[0]),
        0 <= day <= 7,
    ensures
        named_day(s, day) is None,
    decreases 7 - day,
{
    reveal_strlit("sunday");
    reveal_strlit("monday");
    reveal_strlit("tuesday");
    reveal_strlit("wednesday");
    reveal_strlit("thursday");
    reveal_strlit("friday");
    reveal_strlit("saturday");
    if day <= 6 {
        assert(lowercase(s[0]) == s[0]);
        assert(!short_for(s, day_text(day), 2));
        lemma_digits_name_no_day(s, day + 1);
    }
}

/// A field of one part is read as that part.
pub(crate) proof fn lemma_single_part(
    s: Seq<char>,
    field: Seq<char>,
    def: Seq<char>,
    min: int,
    max: int,
    mode: ParseMode,
)
    requires
        s.len() > 1,
        forall|i: int| 0 <= i < s.len() ==> !white(#[trigger] s[i]) && s[i] != ',',
    ensures
        ranges_of(s, field, def, min, max, mode) == match part_of(s, field, min, max, mode) {
            Ok(ranges) => Ok::<Seq<Range>, ErrorView>(ranges),
            Err(text) => Err(ErrorView::RangeError { field: field, detail: text }),
        },
{
    assert(!white(s[0]) && !white(s[s.len() - 1]));
    lemma_nothing_to_trim(s);
    assert forall|i: int| 0 <= i < s.len() implies s[i] != ',' by {
        assert(!white(s[i]) && s[i] != ',');
    }
    lemma_length_before(s, ',', s.len() as int);
    assert(pieces(s, ',') == seq![s]);
    assert(seq![s].drop_last() == Seq::<Seq<char>>::empty());
    assert(parts_of(seq![s].drop_last(), field, min, max, mode) == Ok::<Seq<Range>, Seq<char>>(
        Seq::empty(),
    ));
    if let Ok(ranges) = part_of(s, field, min, max, mode) {
        assert(Seq::<Range>::empty() + ranges == ranges);
    }
    reveal_strlit("*");
}

/// Whether the characters are ones of which a part with a step is written in numbers.
pub(crate) open spec fn is_plain(s: Seq<char>) -> bool {
    forall|i: int|
        0 <= i < s.len() ==> is_digit(#[trigger] s[i]) || s[i] == '-' || s[i] == '*'
}

/// What stands before the slash gives the bounds, and what stands after it the step.
pub(crate) proof fn lemma_stepped_part(
    base: Seq<char>,
    step: int,
    field: Seq<char>,
    def: Seq<char>,
    min: int,
    max: int,
    mode: ParseMode,
)
    requires
        is_plain(base),
        base.len() > 0,
        1 <= step <= i32::MAX,
    ensures
        ranges_of(base + seq!['/'] + decimal(step), field, def, min, max, mode) == match bounds_of(
            base,
            true,
            field,
            min,
            max,
            mode,
        ) {
            Ok((start, end)) => Ok::<Seq<Range>, ErrorView>(
                stepped_ranges(start, end, step, mode),
            ),
            Err(text) => Err(ErrorView::RangeError { field: field, detail: text }),
        },
{
    let d = decimal(step);
    let s = base + seq!['/'] + d;
    lemma_decimal(step);
    assert forall|i: int| 0 <= i < s.len() implies !white(#[trigger] s[i]) && s[i] != ',' by {
        if i > base.len() {
            assert(is_digit(d[i - base.len() - 1]));
        } else if i < base.len() {
            assert(s[i] == base[i]);
        }
    }
    lemma_single_part(s, field, def, min, max, mode);
    assert forall|i: int| 0 <= i < base.len() implies s[i] != '/' by {
        assert(s[i] == base[i]);
    }
    lemma_length_before(s, '/', base.len() as int);
    assert(s.take(base.len() as int) == base);
    assert(s.skip(base.len() as int + 1) == d);
    assert forall|i: int| 0 <= i < d.len() implies d[i] != '/' by {
        assert(is_digit(d[i]));
    }
    lemma_length_before(d, '/', d.len() as int);
    lemma_digits_are_plain(d, mode, 0, i32::MAX as int);
}

/// The bounds that two numbers with a dash between them, one number, or a star give.
pub(crate) proof fn lemma_number_bounds(
    x: int,
    field: Seq<char>,
    min: int,
    max: int,
    mode: ParseMode,
)
    requires
        0 <= min <= x <= max <= i32::MAX,
    ensures
        bounds_of(decimal(x), true, field, min, max, mode) == Ok::<(int, int), Seq<char>>(
            (x, max),
        ),
        bounds_of(decimal(x) + seq!['-'] + decimal(max), true, field, min, max, mode) == Ok::<
            (int, int),
            Seq<char>,
        >((x, max)),
        is_plain(decimal(x)),
        is_plain(decimal(x) + seq!['-'] + decimal(max)),
        decimal(x).len() > 0,
{
    let a = decimal(x);
    let b = decimal(max);
    let s = a + seq!['-'] + b;
    lemma_decimal(x);
    lemma_decimal(max);
    reveal_strlit("*");
    assert(is_digit(a[0]));
    assert(s[0] == a[0]);
    assert forall|i: int| 0 <= i < a.len() implies a[i] != '-' by {
        assert(is_digit(a[i]));
    }
    assert forall|i: int| 0 <= i < b.len() implies b[i] != '-' by {
        assert(is_digit(b[i]));
    }
    lemma_length_before(a, '-', a.len() as int);
    lemma_length_before(b, '-', b.len() as int);
    assert forall|i: int| 0 <= i < a.len() implies s[i] != '-' by {
        assert(s[i] == a[i]);
    }
    lemma_length_before(s, '-', a.len() as int);
    assert(s.take(a.len() as int) == a);
    assert(s.skip(a.len() as int + 1) == b);
    lemma_digits_are_plain(a, mode, min, max);
    lemma_digits_are_plain(b, mode, x, max);
    assert forall|i: int| 0 <= i < s.len() implies is_digit(#[trigger] s[i]) || s[i] == '-' || s[i]
        == '*' by {
        if i < a.len() {
            assert(is_digit(a[i]));
        } else if i > a.len() {
            assert(is_digit(b[i - a.len() - 1]));
        }
    }
}

/// With a step, a value alone goes on up to the greatest: `x/y` is `x-max/y`. Both give the
/// values from x to the greatest in steps of y.
pub proof fn law_an_open_range_goes_to_the_greatest(
    x: int,
    y: int,
    field: Seq<char>,
    def: Seq<char>,
    min: int,
    max: int,
    mode: ParseMode,
)
    requires
        0 <= min <= x <= max <= i32::MAX,
        1 <= y <= i32::MAX,
    ensures
        ({
            let expected = Ok::<Seq<Range>, ErrorView>(stepped_ranges(x, max, y, mode));
            &&& ranges_of(decimal(x) + seq!['/'] + decimal(y), field, def, min, max, mode)
                == expected
            &&& ranges_of(
                decimal(x) + seq!['-'] + decimal(max) + seq!['/'] + decimal(y),
                field,
                def,
                min,
                max,
                mode,
            ) == expected
        }),
{
    lemma_number_bounds(x, field, min, max, mode);
    lemma_stepped_part(decimal(x), y, field, def, min, max, mode);
    lemma_stepped_part(
        decimal(x) + seq!['-'] + decimal(max),
        y,
        field,
        def,
        min,
        max,
        mode,
    );
}

/// With a step, a star goes over all values: `*/y` is `min-max/y`. Both give the values from the
/// least to the greatest in steps of y.
pub proof fn law_a_star_goes_over_all_values(
    y: int,
    field: Seq<char>,
    def: Seq<char>,
    min: int,
    max: int,
    mode: ParseMode,
)
    requires
        0 <= min <= max <= i32::MAX,
        1 <= y <= i32::MAX,
    ensures
        ({
            let expected = Ok::<Seq<Range>, ErrorView>(stepped_ranges(min, max, y, mode));
            &&& ranges_of(seq!['*', '/'] + decimal(y), field, def, min, max, mode) == expected
            &&& ranges_of(
                decimal(min) + seq!['-'] + decimal(max) + seq!['/'] + decimal(y),
                field,
                def,
                min,
                max,
                mode,
            ) == expected
        }),
{
    law_an_open_range_goes_to_the_greatest(min, y, field, def, min, max, mode);
    reveal_strlit("*");
    assert("*"@ == seq!['*']);
    assert(seq!['*'] + seq!['/'] + decimal(y) == seq!['*', '/'] + decimal(y));
    lemma_stepped_part(seq!['*'], y, field, def, min, max, mode);
}

} // verus!
