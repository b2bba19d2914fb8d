//! Cron strings: what stands where.
use vstd::prelude::*;

use crate::cron::{calendar_of, cron_of, predefined, zone_and_rest, CronView};
use crate::duration::nanos_of;
use crate::error::ErrorView;
use crate::laws::text::{is_word, law_joined_words_are_the_words};
use crate::range::{fields_of, structured_of};
use crate::text::{
    cut_at, is_digit, joined, lemma_length_before, lemma_nothing_to_trim, trimmed, white, words,
};
use crate::types::{CalendarView, IntervalView, StructuredCalendarView};

verus! {

/// The outcome of reading the calendar of a cron string that names no time zone.
pub open spec fn calendar_read(cal: CalendarView) -> Result<CronView, ErrorView> {
    match structured_of(cal) {
        Ok(calendar) => Ok(
            CronView { calendar: Some(calendar), interval: None, timezone: None },
        ),
        Err(e) => Err(e),
    }
}

/// Whether fields can stand in a cron string as they are: words without a number sign, the first of
/// which starts with a digit or a star.
pub open spec fn are_fields(fields: Seq<Seq<char>>) -> bool {
    &&& fields.len() > 0
    &&& forall|i: int| 0 <= i < fields.len() ==> is_word(#[trigger] fields[i])
    &&& forall|i: int| 0 <= i < fields.len() ==> !(#[trigger] fields[i]).contains('#')
    &&& is_digit(fields[0][0]) || fields[0][0] == '*'
}

/// Fields with a space between each two: five are the minute, the hour, the day of the month, the
/// month and the day of the week. A sixth is the year. Of seven, the first is the second, and the
/// year is the last. Fewer than five and more than seven are an error.
pub proof fn law_fields_and_their_places(f: Seq<Seq<char>>)
    requires
        are_fields(f),
    ensures
        f.len() == 5 ==> cron_of(joined(f, seq![' '])) == calendar_read(
            CalendarView {
                second: Seq::empty(),
                minute: f[0],
                hour: f[1],
                day_of_month: f[2],
                month: f[3],
                day_of_week: f[4],
                year: Seq::empty(),
                comment: Seq::empty(),
            },
        ),
        f.len() == 6 ==> cron_of(joined(f, seq![' '])) == calendar_read(
            CalendarView {
                second: Seq::empty(),
                minute: f[0],
                hour: f[1],
                day_of_month: f[2],
                month: f[3],
                day_of_week: f[4],
                year: f[5],
                comment: Seq::empty(),
            },
        ),
        f.len() == 7 ==> cron_of(joined(f, seq![' '])) == calendar_read(
            CalendarView {
                second: f[0],
                minute: f[1],
                hour: f[2],
                day_of_month: f[3],
                month: f[4],
                day_of_week: f[5],
                year: f[6],
                comment: Seq::empty(),
            },
        ),
        f.len() < 5 || f.len() > 7 ==> cron_of(joined(f, seq![' '])) == Err::<CronView, ErrorView>(
            ErrorView::CronStringFieldCount,
        ),
{
    let s = joined(f, seq![' ']);
    lemma_joined_fields(f);
    law_joined_words_are_the_words(f);
    lemma_nothing_to_trim(s);
    lemma_no_mark(s);
    lemma_starts_plainly(s);
}

/// Joined fields start and end as the first and the last do, and have no number sign.
proof fn lemma_joined_fields(f: Seq<Seq<char>>)
    requires
        f.len() > 0,
        forall|i: int| 0 <= i < f.len() ==> is_word(#[trigger] f[i]),
        forall|i: int| 0 <= i < f.len() ==> !(#[trigger] f[i]).contains('#'),
    ensures
        ({
            let s = joined(f, seq![' ']);
            &&& s.len() > 0
            &&& s[0] == f[0][0]
            &&& !white(s[0])
            &&& !white(s.last())
            &&& !s.contains('#')
        }),
    decreases f.len(),
{
    let s = joined(f, seq![' ']);
    let last = f.last();
    assert(is_word(f[f.len() - 1]));
    assert(!f[f.len() - 1].contains('#'));
    assert(is_word(f[0]));
    assert(!white(f[0][0]));
    assert(!white(last[last.len() - 1]));
    if f.len() > 1 {
        let front = f.drop_last();
        assert forall|i: int| 0 <= i < front.len() implies is_word(#[trigger] front[i]) by {
            assert(is_word(f[i]));
        }
        assert forall|i: int| 0 <= i < front.len() implies !(#[trigger] front[i]).contains('#') by {
            assert(!f[i].contains('#'));
        }
        lemma_joined_fields(front);
        let before = joined(front, seq![' ']);
        assert(s == before + seq![' '] + last);
        assert forall|i: int| 0 <= i < s.len() implies s[i] != '#' by {
            if i < before.len() {
                assert(before.contains(before[i]));
            } else if i > before.len() {
                assert(last.contains(last[i - before.len() - 1]));
            }
        }
    }
}

/// Text without a number sign has no comment.
proof fn lemma_no_mark(s: Seq<char>)
    requires
        !s.contains('#'),
    ensures
        cut_at(s, '#') is None,
{
    assert forall|i: int| 0 <= i < s.len() implies s[i] != '#' by {
        assert(s.contains(s[i]));
    }
    lemma_length_before(s, '#', s.len() as int);
}

/// What starts with a digit or a star names no time zone, is no name and is no interval.
proof fn lemma_starts_plainly(s: Seq<char>)
    requires
        s.len() > 0,
        is_digit(s[0]) || s[0] == '*',
    ensures
        zone_and_rest(s) == Ok::<(Option<Seq<char>>, Seq<char>), ErrorView>((None, s)),
        !"@every"@.is_prefix_of(s),
        predefined(s) == s,
{
    lemma_starts_with_no_zone(s);
    reveal_strlit("@every");
    reveal_strlit("@yearly");
    reveal_strlit("@annually");
    reveal_strlit("@monthly");
    reveal_strlit("@weekly");
    reveal_strlit("@daily");
    reveal_strlit("@midnight");
    reveal_strlit("@hourly");
    if "@every"@.is_prefix_of(s) {
        assert(s[0] == "@every"@[0]);
    }
    assert("@yearly"@[0] == '@' && "@annually"@[0] == '@' && "@monthly"@[0] == '@');
    assert("@weekly"@[0] == '@' && "@daily"@[0] == '@' && "@midnight"@[0] == '@');
    assert("@hourly"@[0] == '@');
}

/// What starts neither with T nor with C names no time zone.
proof fn lemma_starts_with_no_zone(s: Seq<char>)
    requires
        s.len() > 0,
        s[0] != 'T',
        s[0] != 'C',
    ensures
        zone_and_rest(s) == Ok::<(Option<Seq<char>>, Seq<char>), ErrorView>((None, s)),
{
    reveal_strlit("TZ=");
    reveal_strlit("CRON_TZ=");
    if "TZ="@.is_prefix_of(s) {
        assert(s[0] == "TZ="@[0]);
    }
    if "CRON_TZ="@.is_prefix_of(s) {
        assert(s[0] == "CRON_TZ="@[0]);
    }
}

/// The names for common rules, and that a rule that is not a name stands for itself.
pub proof fn law_names_of_rules(rule: Seq<char>)
    ensures
        rule == "@yearly"@ ==> predefined(rule) == "0 0 1 1 *"@,
        rule == "@annually"@ ==> predefined(rule) == "0 0 1 1 *"@,
        rule == "@monthly"@ ==> predefined(rule) == "0 0 1 * *"@,
        rule == "@weekly"@ ==> predefined(rule) == "0 0 * * 0"@,
        rule == "@daily"@ ==> predefined(rule) == "0 0 * * *"@,
        rule == "@midnight"@ ==> predefined(rule) == "0 0 * * *"@,
        rule == "@hourly"@ ==> predefined(rule) == "0 * * * *"@,
        rule.len() == 0 || rule[0] != '@' ==> predefined(rule) == rule,
        rule != "@yearly"@ && rule != "@annually"@ && rule != "@monthly"@ && rule != "@weekly"@
            && rule != "@daily"@ && rule != "@midnight"@ && rule != "@hourly"@ ==> predefined(rule)
            == rule,
{
    reveal_strlit("@yearly");
    reveal_strlit("@annually");
    reveal_strlit("@monthly");
    reveal_strlit("@weekly");
    reveal_strlit("@daily");
    reveal_strlit("@midnight");
    reveal_strlit("@hourly");
    assert("@yearly"@.len() == 7 && "@annually"@.len() == 9 && "@monthly"@.len() == 8);
    assert("@weekly"@.len() == 7 && "@daily"@.len() == 6 && "@midnight"@.len() == 9);
    assert("@yearly"@[1] == 'y' && "@weekly"@[1] == 'w' && "@hourly"@[1] == 'h');
    assert("@annually"@[1] == 'a' && "@midnight"@[1] == 'm');
    assert("@yearly"@[0] == '@' && "@annually"@[0] == '@' && "@monthly"@[0] == '@');
    assert("@weekly"@[0] == '@' && "@daily"@[0] == '@' && "@midnight"@[0] == '@');
    assert("@hourly"@[0] == '@');
}

/// A time zone may come first: after `TZ=` or `CRON_TZ=`, up to a space. What follows says what it
/// says alone, with that time zone; an interval has none. Without a space, fields are missing.
pub proof fn law_a_time_zone_comes_first(zone: Seq<char>, rest: Seq<char>)
    requires
        !zone.contains(' '),
        rest.len() > 0,
        !white(rest[0]),
        !white(rest.last()),
        rest[0] != 'T',
        rest[0] != 'C',
    ensures
        ({
            let expected = match cron_of(rest) {
                Ok(said) => Ok::<CronView, ErrorView>(
                    CronView {
                        calendar: said.calendar,
                        interval: said.interval,
                        timezone: if said.interval is Some {
                            None
                        } else {
                            Some(zone)
                        },
                    },
                ),
                Err(e) => Err(e),
            };
            &&& cron_of("TZ="@ + zone + seq![' '] + rest) == expected
            &&& cron_of("CRON_TZ="@ + zone + seq![' '] + rest) == expected
        }),
        (zone.len() == 0 || !white(zone.last())) ==> cron_of("TZ="@ + zone) == Err::<
            CronView,
            ErrorView,
        >(ErrorView::CronStringMissingFields),
        (zone.len() == 0 || !white(zone.last())) ==> cron_of("CRON_TZ="@ + zone) == Err::<
            CronView,
            ErrorView,
        >(ErrorView::CronStringMissingFields),
{
    reveal_strlit("TZ=");
    reveal_strlit("CRON_TZ=");
    lemma_zone_prefix("TZ="@, zone, rest);
    lemma_zone_prefix("CRON_TZ="@, zone, rest);
    lemma_nothing_to_trim(rest);
    lemma_starts_with_no_zone(rest);
}

/// What follows one of the two prefixes is a time zone.
proof fn lemma_zone_prefix(prefix: Seq<char>, zone: Seq<char>, rest: Seq<char>)
    requires
        prefix == "TZ="@ || prefix == "CRON_TZ="@,
        !zone.contains(' '),
        rest.len() > 0,
        !white(rest.last()),
    ensures
        zone_and_rest(trimmed(prefix + zone + seq![' '] + rest)) == Ok::<
            (Option<Seq<char>>, Seq<char>),
            ErrorView,
        >((Some(zone), rest)),
        (zone.len() == 0 || !white(zone.last())) ==> zone_and_rest(trimmed(prefix + zone)) == Err::<
            (Option<Seq<char>>, Seq<char>),
            ErrorView,
        >(ErrorView::CronStringMissingFields),
{
    reveal_strlit("TZ=");
    reveal_strlit("CRON_TZ=");
    let s = prefix + zone + seq![' '] + rest;
    let t = zone + seq![' '] + rest;
    assert(s[0] == prefix[0]);
    assert(s.last() == rest.last());
    lemma_nothing_to_trim(s);
    assert(prefix.is_prefix_of(s)) by {
        assert(s.subrange(0, prefix.len() as int) == prefix);
    }
    assert(s.skip(prefix.len() as int) == t);
    if prefix == "CRON_TZ="@ {
        assert(!"TZ="@.is_prefix_of(s)) by {
            if "TZ="@.is_prefix_of(s) {
                assert(s[0] == "TZ="@[0]);
            }
        }
    }
    assert forall|i: int| 0 <= i < zone.len() implies zone[i] != ' ' by {
        assert(zone.contains(zone[i]));
    }
    assert forall|i: int| 0 <= i < zone.len() implies t[i] != ' ' by {
        assert(t[i] == zone[i]);
    }
    lemma_length_before(t, ' ', zone.len() as int);
    assert(t.take(zone.len() as int) == zone);
    assert(t.skip(zone.len() as int + 1) == rest);
    let u = prefix + zone;
    if zone.len() == 0 || !white(zone.last()) {
        assert(u[0] == prefix[0]);
        if zone.len() > 0 {
            assert(u.last() == zone.last());
        } else {
            assert(u == prefix);
        }
        lemma_nothing_to_trim(u);
        assert(u.subrange(0, prefix.len() as int) == prefix);
        assert(u.skip(prefix.len() as int) == zone);
        if prefix == "CRON_TZ="@ {
            assert(!"TZ="@.is_prefix_of(u)) by {
                if "TZ="@.is_prefix_of(u) {
                    assert(u[0] == "TZ="@[0]);
                }
            }
        }
        lemma_length_before(zone, ' ', zone.len() as int);
    }
}

/// A comment may come last, after a number sign: it becomes the comment of the calendar, without
/// the white space around it, and changes nothing else.
#[verifier::rlimit(40)]
pub proof fn law_a_comment_comes_last(rule: Seq<char>, comment: Seq<char>)
    requires
        rule.len() > 0,
        !white(rule[0]),
        rule[0] != 'T',
        rule[0] != 'C',
        !rule.contains('#'),
        comment.len() > 0 ==> !white(comment.last()),
    ensures
        cron_of(rule + seq!['#'] + comment) == match cron_of(rule) {
            Ok(said) => Ok::<CronView, ErrorView>(
                CronView {
                    calendar: match said.calendar {
                        Some(cal) => Some(
                            StructuredCalendarView { comment: trimmed(comment), ..cal },
                        ),
                        None => None,
                    },
                    interval: said.interval,
                    timezone: said.timezone,
                },
            ),
            Err(e) => Err(e),
        },
{
    let s = rule + seq!['#'] + comment;
    assert(s[0] == rule[0]);
    assert(s.last() == (if comment.len() > 0 {
        comment.last()
    } else {
        '#'
    }));
    lemma_nothing_to_trim(s);
    lemma_starts_with_no_zone(s);
    assert forall|i: int| 0 <= i < rule.len() implies rule[i] != '#' by {
        assert(rule.contains(rule[i]));
    }
    assert forall|i: int| 0 <= i < rule.len() implies s[i] != '#' by {
        assert(s[i] == rule[i]);
    }
    lemma_length_before(s, '#', rule.len() as int);
    assert(s.take(rule.len() as int) == rule);
    assert(s.skip(rule.len() as int + 1) == comment);
    let t = trimmed(rule);
    lemma_trimmed_start(rule);
    lemma_starts_with_no_zone(t);
    lemma_no_mark(t);
    let fields = words(predefined(t));
    if 5 <= fields.len() <= 7 {
        let none = calendar_of(fields, Seq::empty());
        let some = calendar_of(fields, trimmed(comment));
        assert(fields_of(none) == fields_of(some));
        if let Ok(a) = structured_of(none) {
            let b = structured_of(some)->Ok_0;
            assert(b == (StructuredCalendarView { comment: trimmed(comment), ..a }));
        }
    }
}

/// Text that does not start with white space starts the same when trimmed, and has no other
/// characters.
proof fn lemma_trimmed_start(s: Seq<char>)
    requires
        s.len() > 0,
        !white(s[0]),
        !s.contains('#'),
    ensures
        trimmed(s).len() > 0,
        trimmed(s)[0] == s[0],
        !trimmed(s).contains('#'),
    decreases s.len(),
{
    if white(s.last()) {
        let front = s.drop_last();
        assert(front.len() > 0);
        assert forall|i: int| 0 <= i < front.len() implies front[i] != '#' by {
            assert(s.contains(s[i]));
        }
        lemma_trimmed_start(front);
        assert(trimmed(s) == trimmed(front));
    }
}

/// `@every` and a length of time is an interval without a phase, and with a slash and another
/// length of time one with that phase. What is wrong with either is said under its name. Without a
/// space, the interval is missing.
pub proof fn law_every_is_an_interval(interval: Seq<char>, phase: Seq<char>)
    requires
        interval.len() > 0,
        phase.len() > 0,
        !white(interval.last()),
        !white(phase.last()),
        !interval.contains('/'),
        !interval.contains('#'),
        !phase.contains('#'),
    ensures
        cron_of("@every "@ + interval) == interval_read(nanos_of(interval), Ok(0)),
        cron_of("@every "@ + interval + seq!['/'] + phase) == interval_read(
            nanos_of(interval),
            nanos_of(phase),
        ),
        cron_of("@every"@) == Err::<CronView, ErrorView>(ErrorView::CronStringMissingInterval),
{
    let u = interval + seq!['/'] + phase;
    let n = interval.len() as int;
    assert("@every "@ + interval + seq!['/'] + phase == "@every "@ + u);
    assert forall|i: int| 0 <= i < interval.len() implies interval[i] != '#' && interval[i]
        != '/' by {
        assert(interval.contains(interval[i]));
    }
    assert forall|i: int| 0 <= i < phase.len() implies phase[i] != '#' by {
        assert(phase.contains(phase[i]));
    }
    assert forall|i: int| 0 <= i < u.len() implies u[i] != '#' by {
        if i < n {
            assert(u[i] == interval[i]);
        } else if i > n {
            assert(u[i] == phase[i - n - 1]);
        }
    }
    lemma_every(interval);
    lemma_every(u);
    lemma_length_before(interval, '/', n);
    assert forall|i: int| 0 <= i < n implies u[i] != '/' by {
        assert(u[i] == interval[i]);
    }
    lemma_length_before(u, '/', n);
    assert(u.take(n) == interval);
    assert(u.skip(n + 1) == phase);
    lemma_every_alone();
}

/// `@every` alone lacks its interval.
proof fn lemma_every_alone()
    ensures
        cron_of("@every"@) == Err::<CronView, ErrorView>(ErrorView::CronStringMissingInterval),
{
    reveal_strlit("@every");
    let w = "@every"@;
    assert(w.last() == 'y');
    lemma_nothing_to_trim(w);
    lemma_starts_with_no_zone(w);
    assert(!w.contains('#'));
    lemma_no_mark(w);
    assert(w.is_prefix_of(w)) by {
        assert(w.subrange(0, w.len() as int) == w);
    }
    lemma_length_before(w, ' ', 6);
}

/// What follows `@every` and a space is read as an interval.
proof fn lemma_every(u: Seq<char>)
    requires
        u.len() > 0,
        !white(u.last()),
        forall|i: int| 0 <= i < u.len() ==> u[i] != '#',
    ensures
        cron_of("@every "@ + u) == (match cut_at(u, '/') {
            Some((interval, phase)) => interval_read(nanos_of(interval), nanos_of(phase)),
            None => interval_read(nanos_of(u), Ok(0)),
        }),
{
    reveal_strlit("@every ");
    reveal_strlit("@every");
    let s = "@every "@ + u;
    assert(s[0] == '@');
    assert(s.last() == u.last());
    lemma_nothing_to_trim(s);
    lemma_starts_with_no_zone(s);
    assert forall|i: int| 0 <= i < s.len() implies s[i] != '#' by {
        if i >= 7 {
            assert(s[i] == u[i - 7]);
        } else {
            assert(s[i] == "@every "@[i]);
        }
    }
    assert(!s.contains('#'));
    lemma_no_mark(s);
    assert("@every"@.is_prefix_of(s)) by {
        assert(s.subrange(0, 6) == "@every"@);
    }
    assert forall|i: int| 0 <= i < 6 implies s[i] != ' ' by {
        assert(s[i] == "@every "@[i]);
    }
    lemma_length_before(s, ' ', 6);
    assert(s.take(6) == "@every"@);
    assert(s.skip(7) == u);
}

/// The outcome of reading the length and the phase of an interval.
pub open spec fn interval_read(
    interval: Result<int, ErrorView>,
    phase: Result<int, ErrorView>,
) -> Result<CronView, ErrorView> {
    if interval is Err {
        Err(
            ErrorView::RangeError {
                field: "Interval"@,
                detail: interval->Err_0.message(),
            },
        )
    } else if phase is Err {
        Err(ErrorView::RangeError { field: "Phase"@, detail: phase->Err_0.message() })
    } else {
        Ok(
            CronView {
                calendar: None,
                interval: Some(IntervalView { interval: interval->Ok_0, phase: phase->Ok_0 }),
                timezone: None,
            },
        )
    }
}

} // verus!
