//! Cron strings.
use std::time::Duration;

use vstd::prelude::*;
use vstd::slice::slice_subrange;

use crate::duration::{nanos_of, parse_duration};
use crate::error::{ErrorView, SpecError};
use crate::range::{field_text, fields_of, parse_calendar_to_structured, structured_of};
use crate::text::{
    characters, cut, cut_at, reads, split_words, starts_with, string_of, texts, trim, trimmed,
    without_leading_space, without_trailing_space, words,
};
use crate::types::{
    CalendarSpec, CalendarView, IntervalSpec, IntervalView, StructuredCalendarSpec,
    StructuredCalendarView,
};

verus! {

// ---------------------------------------------------------------------------
// What a cron string says
// ---------------------------------------------------------------------------

/// The time zone that a cron string starts with, if it does, and what follows.
pub open spec fn zone_and_rest(s: Seq<char>) -> Result<(Option<Seq<char>>, Seq<char>), ErrorView> {
    let after_prefix = if "TZ="@.is_prefix_of(s) {
        Some(s.skip("TZ="@.len() as int))
    } else if "CRON_TZ="@.is_prefix_of(s) {
        Some(s.skip("CRON_TZ="@.len() as int))
    } else {
        None
    };
    match after_prefix {
        None => Ok((None, s)),
        Some(t) => match cut_at(t, ' ') {
            Some((zone, rest)) => Ok((Some(zone), rest)),
            None => Err(ErrorView::CronStringMissingFields),
        },
    }
}

/// What stands before the comment of a cron string, and the comment.
pub open spec fn rule_and_comment(s: Seq<char>) -> (Seq<char>, Seq<char>) {
    match cut_at(s, '#') {
        Some((rule, comment)) => (trimmed(rule), trimmed(comment)),
        None => (s, Seq::empty()),
    }
}

/// The error of a length of time, under the name of what it was for.
pub open spec fn named_error(field: Seq<char>, e: ErrorView) -> ErrorView {
    ErrorView::RangeError { field: field, detail: e.message() }
}

/// The interval and the phase that `@every interval/phase` says.
pub open spec fn interval_of(rule: Seq<char>) -> Result<IntervalView, ErrorView> {
    match cut_at(rule, ' ') {
        None => Err(ErrorView::CronStringMissingInterval),
        Some((_, rest)) => {
            let (interval, phase) = match cut_at(rest, '/') {
                Some((i, p)) => (nanos_of(i), nanos_of(p)),
                None => (nanos_of(rest), Ok(0)),
            };
            match interval {
                Err(e) => Err(named_error("Interval"@, e)),
                Ok(i) => match phase {
                    Err(e) => Err(named_error("Phase"@, e)),
                    Ok(p) => Ok(IntervalView { interval: i, phase: p }),
                },
            }
        },
    }
}

/// The fields that a name such as `@daily` stands for; anything else stands for itself.
pub open spec fn predefined(rule: Seq<char>) -> Seq<char> {
    if rule == "@yearly"@ || rule == "@annually"@ {
        "0 0 1 1 *"@
    } else if rule == "@monthly"@ {
        "0 0 1 * *"@
    } else if rule == "@weekly"@ {
        "0 0 * * 0"@
    } else if rule == "@daily"@ || rule == "@midnight"@ {
        "0 0 * * *"@
    } else if rule == "@hourly"@ {
        "0 * * * *"@
    } else {
        rule
    }
}

/// The calendar of 5 to 7 fields: the second comes first of 7, the year last of 6 or 7.
pub open spec fn calendar_of(fields: Seq<Seq<char>>, comment: Seq<char>) -> CalendarView {
    let first = if fields.len() == 7 {
        1int
    } else {
        0
    };
    CalendarView {
        second: if fields.len() == 7 {
            fields[0]
        } else {
            Seq::empty()
        },
        minute: fields[first],
        hour: fields[first + 1],
        day_of_month: fields[first + 2],
        month: fields[first + 3],
        day_of_week: fields[first + 4],
        year: if fields.len() == 5 {
            Seq::empty()
        } else {
            fields[first + 5]
        },
        comment: comment,
    }
}

/// What a cron string says: a calendar with its time zone, or an interval.
#[verifier::ext_equal]
pub struct CronView {
    pub calendar: Option<StructuredCalendarView>,
    pub interval: Option<IntervalView>,
    pub timezone: Option<Seq<char>>,
}

/// What a rule of 5 to 7 fields, or one that a name stands for, says.
pub open spec fn fields_rule(
    rule: Seq<char>,
    comment: Seq<char>,
    zone: Option<Seq<char>>,
) -> Result<CronView, ErrorView> {
    let fields = words(predefined(rule));
    if 5 <= fields.len() <= 7 {
        match structured_of(calendar_of(fields, comment)) {
            Ok(calendar) => Ok(
                CronView { calendar: Some(calendar), interval: None, timezone: zone },
            ),
            Err(e) => Err(e),
        }
    } else {
        Err(ErrorView::CronStringFieldCount)
    }
}

/// What a cron string says, or what is wrong with it.
pub open spec fn cron_of(c: Seq<char>) -> Result<CronView, ErrorView> {
    match zone_and_rest(trimmed(c)) {
        Err(e) => Err(e),
        Ok((zone, rest)) => {
            let (rule, comment) = rule_and_comment(rest);
            if "@every"@.is_prefix_of(rule) {
                match interval_of(rule) {
                    Ok(interval) => Ok(
                        CronView { calendar: None, interval: Some(interval), timezone: None },
                    ),
                    Err(e) => Err(e),
                }
            } else {
                fields_rule(rule, comment, zone)
            }
        },
    }
}

/// What the result of reading a cron string says.
pub open spec fn cron_view(
    r: (Option<StructuredCalendarSpec>, Option<IntervalSpec>, Option<String>),
) -> CronView {
    CronView {
        calendar: match r.0 {
            Some(calendar) => Some(calendar@),
            None => None,
        },
        interval: match r.1 {
            Some(interval) => Some(interval@),
            None => None,
        },
        timezone: match r.2 {
            Some(name) => Some(name@),
            None => None,
        },
    }
}

// ---------------------------------------------------------------------------
// Reading
// ---------------------------------------------------------------------------

/// What follows `prefix`, if the characters start with it.
fn strip_prefix<'a>(s: &'a [char], prefix: &str) -> (r: Option<&'a [char]>)
    ensures
        match r {
            Some(t) => prefix@.is_prefix_of(s@) && t@ == s@.skip(prefix@.len() as int),
            None => !prefix@.is_prefix_of(s@),
        },
{
    let start = characters(prefix);
    if starts_with(s, start.as_slice()) {
        Some(slice_subrange(s, start.len(), s.len()))
    } else {
        None
    }
}

/// A length of time, whose error is given under the name of what it was for.
fn parse_named_duration(s: &[char], field: &str) -> (r: Result<Duration, SpecError>)
    ensures
        match r {
            Ok(d) => nanos_of(s@) == Ok::<int, ErrorView>(crate::time::duration_nanos(d)),
            Err(e) => nanos_of(s@) is Err && e@ == named_error(field@, nanos_of(s@)->Err_0),
        },
{
    match parse_duration(string_of(s).as_str()) {
        Ok(d) => Ok(d),
        Err(e) => Err(SpecError::RangeError { field: field.to_owned(), detail: e.to_string() }),
    }
}

/// The interval and the phase that `@every interval/phase` says.
fn parse_cron_interval(c: &[char]) -> (r: Result<IntervalSpec, SpecError>)
    ensures
        match r {
            Ok(iv) => interval_of(c@) == Ok::<IntervalView, ErrorView>(iv@),
            Err(e) => interval_of(c@) == Err::<IntervalView, ErrorView>(e@),
        },
{
    let rest = match cut(c, ' ') {
        Some((_, rest)) => rest,
        None => {
            return Err(SpecError::CronStringMissingInterval);
        },
    };
    let (interval_text, phase_text) = match cut(rest, '/') {
        Some((i, p)) => (i, Some(p)),
        None => (rest, None),
    };
    let interval = match parse_named_duration(interval_text, "Interval") {
        Ok(d) => d,
        Err(e) => {
            return Err(e);
        },
    };
    let phase = match phase_text {
        Some(p) => match parse_named_duration(p, "Phase") {
            Ok(d) => d,
            Err(e) => {
                return Err(e);
            },
        },
        None => Duration::new(0, 0),
    };
    Ok(IntervalSpec { interval, phase })
}

/// The fields that a name such as `@daily` stands for; anything else stands for itself.
pub fn handle_predefined_cron_strings(c: &str) -> (r: String)
    ensures
        r@ == predefined(c@),
{
    let given = characters(c);
    let rule = given.as_slice();
    if reads(rule, "@yearly") || reads(rule, "@annually") {
        "0 0 1 1 *".to_owned()
    } else if reads(rule, "@monthly") {
        "0 0 1 * *".to_owned()
    } else if reads(rule, "@weekly") {
        "0 0 * * 0".to_owned()
    } else if reads(rule, "@daily") || reads(rule, "@midnight") {
        "0 0 * * *".to_owned()
    } else if reads(rule, "@hourly") {
        "0 * * * *".to_owned()
    } else {
        c.to_owned()
    }
}

/// The calendar of 5 to 7 fields.
fn calendar_from_fields(fields: &Vec<&[char]>, comment: String) -> (r: CalendarSpec)
    requires
        5 <= fields@.len() <= 7,
    ensures
        r@ == calendar_of(texts(fields@), comment@),
{
    let seven = fields.len() == 7;
    let first: usize = if seven {
        1
    } else {
        0
    };
    CalendarSpec {
        second: if seven {
            string_of(fields[0])
        } else {
            String::new()
        },
        minute: string_of(fields[first]),
        hour: string_of(fields[first + 1]),
        day_of_month: string_of(fields[first + 2]),
        month: string_of(fields[first + 3]),
        day_of_week: string_of(fields[first + 4]),
        year: if fields.len() == 5 {
            String::new()
        } else {
            string_of(fields[first + 5])
        },
        comment,
    }
}

/// What a cron string says: a calendar and the name of its time zone, if it names one, or an
/// interval.
///
/// ```text
/// min hour dom mon dow
/// min hour dom mon dow year
/// sec min hour dom mon dow year
/// @hourly  @daily  @midnight  @weekly  @monthly  @yearly  @annually
/// @every interval
/// @every interval/phase
/// ```
///
/// `TZ=name` or `CRON_TZ=name` may come before, `#` and a comment after.
pub fn parse_cron_string(c: &str) -> (r: Result<
    (Option<StructuredCalendarSpec>, Option<IntervalSpec>, Option<String>),
    SpecError,
>)
    ensures
        match r {
            Ok(said) => cron_of(c@) == Ok::<CronView, ErrorView>(cron_view(said)),
            Err(e) => cron_of(c@) == Err::<CronView, ErrorView>(e@),
        },
{
    let given = characters(c);
    let text = trim(given.as_slice());
    let after_prefix = match strip_prefix(text, "TZ=") {
        Some(t) => Some(t),
        None => strip_prefix(text, "CRON_TZ="),
    };
    let (tz_name, rest) = match after_prefix {
        Some(t) => match cut(t, ' ') {
            Some((zone, rest)) => (Some(string_of(zone)), rest),
            None => {
                return Err(SpecError::CronStringMissingFields);
            },
        },
        None => (None, text),
    };
    let (rule, comment) = match cut(rest, '#') {
        Some((rule, comment)) => (trim(rule), string_of(trim(comment))),
        None => (rest, String::new()),
    };
    if strip_prefix(rule, "@every").is_some() {
        return match parse_cron_interval(rule) {
            Ok(iv) => Ok((None, Some(iv), None)),
            Err(e) => Err(e),
        };
    }
    let expanded = handle_predefined_cron_strings(string_of(rule).as_str());
    let expanded_text = characters(expanded.as_str());
    let fields = split_words(expanded_text.as_slice());
    assert(texts(fields@) == words(predefined(rule@)));
    assert(fields@.len() == texts(fields@).len());
    if fields.len() < 5 || fields.len() > 7 {
        return Err(SpecError::CronStringFieldCount);
    }
    let cal = calendar_from_fields(&fields, comment);
    match parse_calendar_to_structured(&cal) {
        Ok(structured) => Ok((Some(structured), None, tz_name)),
        Err(e) => Err(e),
    }
}

// ---------------------------------------------------------------------------
// Laws
// ---------------------------------------------------------------------------

/// A cron string of 5 fields says the same as one of 6 with the year `*`, and as one of 7 with
/// the second `0` as well.
pub proof fn law_cron_forms_agree(fields: Seq<Seq<char>>, comment: Seq<char>)
    requires
        fields.len() == 5,
    ensures
        structured_of(calendar_of(fields.push("*"@), comment)) == structured_of(
            calendar_of(fields, comment),
        ),
        structured_of(calendar_of(seq!["0"@] + fields.push("*"@), comment)) == structured_of(
            calendar_of(fields, comment),
        ),
{
    reveal_strlit("*");
    reveal_strlit("0");
    let star = "*"@;
    let zero = "0"@;
    reveal_with_fuel(without_leading_space, 2);
    reveal_with_fuel(without_trailing_space, 2);
    assert(trimmed(star) == star);
    assert(trimmed(zero) == zero);
    assert(trimmed(Seq::<char>::empty()) == Seq::<char>::empty());
    let five = calendar_of(fields, comment);
    let six = calendar_of(fields.push(star), comment);
    let seven = calendar_of(seq![zero] + fields.push(star), comment);
    assert(field_text(six.year, star) == field_text(five.year, star));
    assert(six.second == five.second && six.minute == five.minute && six.hour == five.hour);
    assert(field_text(seven.year, star) == field_text(five.year, star));
    assert(field_text(seven.second, zero) == field_text(five.second, zero));
    assert(fields_of(six) == fields_of(five));
    assert(fields_of(seven) == fields_of(five));
}

} // verus!
