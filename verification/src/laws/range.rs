//! Calendar fields in text form, and the values that they stand for.
use vstd::prelude::*;

use crate::range::{
    bounds_of, is_plain, law_seven_is_sunday, law_stepped_ranges_match_every_step,
    lemma_digits_are_plain, lemma_number_bounds, lemma_single_part, lemma_stepped_part, limits_text,
    named_day, named_month, part_of, parts_of, ranges_of, short_for, stepped_ranges, value_of,
    ParseMode,
};
use crate::error::ErrorView;
use crate::text::{
    all_digits, decimal, digits_value, integer, is_digit, lemma_decimal, lemma_length_before,
    lemma_nothing_to_trim, lemma_pieces_of_both, lemma_trim_pushed, lowercase, pieces,
    same_letters, trimmed, unsigned, white,
};
use crate::types::{ranges_have, Range};

verus! {

// ---------------------------------------------------------------------------
// Ranges
// ---------------------------------------------------------------------------

/// The values of a range: its start, and from there in steps of its step, or of 1 if that is 0, up
/// to its end, or to its start if that is 0.
pub proof fn law_values_of_a_range(r: Range, step: int, last: int, v: int)
    requires
        r.step == step >= 1 || (r.step == 0 && step == 1),
        (r.end == last && last != 0) || (r.end == 0 && last == r.start),
    ensures
        r.has(v) <==> v <= last && exists|n: int| n >= 0 && v == r.start + #[trigger] (n * step),
{
    if r.has(v) {
        vstd::arithmetic::div_mod::lemma_fundamental_div_mod(v - r.start, step);
        let n = (v - r.start) / step;
        assert(n * step == step * n) by (nonlinear_arith);
        vstd::arithmetic::div_mod::lemma_div_pos_is_pos(v - r.start, step);
        assert(v == r.start + n * step);
    }
    if v <= last && exists|n: int| n >= 0 && v == r.start + #[trigger] (n * step) {
        let n = choose|n: int| n >= 0 && v == r.start + #[trigger] (n * step);
        vstd::arithmetic::div_mod::lemma_mod_multiples_basic(n, step);
        assert(n * step >= 0) by (nonlinear_arith)
            requires
                n >= 0,
                step > 0,
        ;
    }
}

/// A range with a negative step has its start alone, if that does not come after its end.
pub proof fn law_a_negative_step(r: Range, v: int)
    requires
        r.step < 0,
    ensures
        r.has(v) <==> v == r.start && (r.end == 0 || r.start <= r.end),
{
}

/// The values of several ranges are those of each.
pub proof fn law_values_of_several_ranges(a: Seq<Range>, b: Seq<Range>, r: Range, v: int)
    ensures
        !ranges_have(Seq::empty(), v),
        ranges_have(seq![r], v) == r.has(v),
        ranges_have(a + b, v) == (ranges_have(a, v) || ranges_have(b, v)),
{
    assert(seq![r][0] == r);
    if ranges_have(a, v) {
        let i = choose|i: int| 0 <= i < a.len() && (#[trigger] a[i]).has(v);
        assert((a + b)[i].has(v));
    }
    if ranges_have(b, v) {
        let i = choose|i: int| 0 <= i < b.len() && (#[trigger] b[i]).has(v);
        assert((a + b)[a.len() + i].has(v));
    }
    if ranges_have(a + b, v) {
        let i = choose|i: int| 0 <= i < (a + b).len() && (#[trigger] (a + b)[i]).has(v);
        if i < a.len() {
            assert(a[i].has(v));
        } else {
            assert(b[i - a.len()].has(v));
        }
    }
}

// ---------------------------------------------------------------------------
// Names
// ---------------------------------------------------------------------------

/// Whether `s` is written with the first letters of a name, small or capital.
pub open spec fn written_as(s: Seq<char>, name: Seq<char>) -> bool {
    s.len() <= name.len() && forall|i: int|
        0 <= i < s.len() ==> #[trigger] s[i] == name[i] || s[i] as int + 32 == name[i] as int
}

/// What is written with the letters of a name is short for it.
proof fn lemma_written_as(s: Seq<char>, name: Seq<char>, least: int)
    requires
        s.len() > 0,
        forall|i: int| 0 <= i < name.len() ==> 'a' <= #[trigger] name[i] <= 'z',
    ensures
        written_as(s, name) && s.len() >= least <==> short_for(s, name, least),
        written_as(s, name) ==> !white(s[0]) && !white(s.last()),
{
    if s.len() <= name.len() {
        let start = name.take(s.len() as int);
        if written_as(s, name) {
            assert forall|i: int| 0 <= i < s.len() implies lowercase(#[trigger] s[i]) == lowercase(
                start[i],
            ) by {
                assert('a' <= name[i] <= 'z');
                assert(s[i] == name[i] || s[i] as int + 32 == name[i] as int);
            }
            assert(s[0] == name[0] || s[0] as int + 32 == name[0] as int);
            let last = s.len() - 1;
            assert('a' <= name[0] <= 'z' && 'a' <= name[last] <= 'z');
            assert(s[last] == name[last] || s[last] as int + 32 == name[last] as int);
        }
        if same_letters(s, start) {
            assert forall|i: int| 0 <= i < s.len() implies #[trigger] s[i] == name[i] || s[i] as int
                + 32 == name[i] as int by {
                assert('a' <= name[i] <= 'z');
                assert(lowercase(s[i]) == lowercase(start[i]));
            }
        }
    }
}

/// The first three or more letters of the name of a month, small or capital, stand for its number.
pub proof fn law_names_of_months(s: Seq<char>)
    requires
        s.len() >= 3,
    ensures
        written_as(s, "january"@) ==> value_of(s, 1, 12, ParseMode::Month) == Some(1int),
        written_as(s, "february"@) ==> value_of(s, 1, 12, ParseMode::Month) == Some(2int),
        written_as(s, "march"@) ==> value_of(s, 1, 12, ParseMode::Month) == Some(3int),
        written_as(s, "april"@) ==> value_of(s, 1, 12, ParseMode::Month) == Some(4int),
        written_as(s, "may"@) ==> value_of(s, 1, 12, ParseMode::Month) == Some(5int),
        written_as(s, "june"@) ==> value_of(s, 1, 12, ParseMode::Month) == Some(6int),
        written_as(s, "july"@) ==> value_of(s, 1, 12, ParseMode::Month) == Some(7int),
        written_as(s, "august"@) ==> value_of(s, 1, 12, ParseMode::Month) == Some(8int),
        written_as(s, "september"@) ==> value_of(s, 1, 12, ParseMode::Month) == Some(9int),
        written_as(s, "october"@) ==> value_of(s, 1, 12, ParseMode::Month) == Some(10int),
        written_as(s, "november"@) ==> value_of(s, 1, 12, ParseMode::Month) == Some(11int),
        written_as(s, "december"@) ==> value_of(s, 1, 12, ParseMode::Month) == Some(12int),
{
    reveal_strlit("january");
    reveal_strlit("february");
    reveal_strlit("march");
    reveal_strlit("april");
    reveal_strlit("may");
    reveal_strlit("june");
    reveal_strlit("july");
    reveal_strlit("august");
    reveal_strlit("september");
    reveal_strlit("october");
    reveal_strlit("november");
    reveal_strlit("december");
    reveal_with_fuel(named_month, 13);
    lemma_written_as(s, "january"@, 3);
    lemma_written_as(s, "february"@, 3);
    lemma_written_as(s, "march"@, 3);
    lemma_written_as(s, "april"@, 3);
    lemma_written_as(s, "may"@, 3);
    lemma_written_as(s, "june"@, 3);
    lemma_written_as(s, "july"@, 3);
    lemma_written_as(s, "august"@, 3);
    lemma_written_as(s, "september"@, 3);
    lemma_written_as(s, "october"@, 3);
    lemma_written_as(s, "november"@, 3);
    lemma_written_as(s, "december"@, 3);
    if s.len() > 0 && !white(s[0]) && !white(s.last()) {
        lemma_nothing_to_trim(s);
    }
    let a = s[0];
    let b = s[1];
    let c = s[2];
    assert(written_as(s, "january"@) ==> (a == 'j' || a == 'J') && (b == 'a' || b == 'A')
        && (c == 'n' || c == 'N'));
    assert(written_as(s, "february"@) ==> (a == 'f' || a == 'F') && (b == 'e' || b == 'E')
        && (c == 'b' || c == 'B'));
    assert(written_as(s, "march"@) ==> (a == 'm' || a == 'M') && (b == 'a' || b == 'A')
        && (c == 'r' || c == 'R'));
    assert(written_as(s, "april"@) ==> (a == 'a' || a == 'A') && (b == 'p' || b == 'P')
        && (c == 'r' || c == 'R'));
    assert(written_as(s, "may"@) ==> (a == 'm' || a == 'M') && (b == 'a' || b == 'A')
        && (c == 'y' || c == 'Y'));
    assert(written_as(s, "june"@) ==> (a == 'j' || a == 'J') && (b == 'u' || b == 'U')
        && (c == 'n' || c == 'N'));
    assert(written_as(s, "july"@) ==> (a == 'j' || a == 'J') && (b == 'u' || b == 'U')
        && (c == 'l' || c == 'L'));
    assert(written_as(s, "august"@) ==> (a == 'a' || a == 'A') && (b == 'u' || b == 'U')
        && (c == 'g' || c == 'G'));
    assert(written_as(s, "september"@) ==> (a == 's' || a == 'S') && (b == 'e' || b == 'E')
        && (c == 'p' || c == 'P'));
    assert(written_as(s, "october"@) ==> (a == 'o' || a == 'O') && (b == 'c' || b == 'C')
        && (c == 't' || c == 'T'));
    assert(written_as(s, "november"@) ==> (a == 'n' || a == 'N') && (b == 'o' || b == 'O')
        && (c == 'v' || c == 'V'));
    assert(written_as(s, "december"@) ==> (a == 'd' || a == 'D') && (b == 'e' || b == 'E')
        && (c == 'c' || c == 'C'));
}

/// The first two or more letters of the name of a day, small or capital, stand for its number.
pub proof fn law_names_of_days(s: Seq<char>)
    requires
        s.len() >= 2,
    ensures
        written_as(s, "sunday"@) ==> value_of(s, 0, 7, ParseMode::Dow) == Some(0int),
        written_as(s, "monday"@) ==> value_of(s, 0, 7, ParseMode::Dow) == Some(1int),
        written_as(s, "tuesday"@) ==> value_of(s, 0, 7, ParseMode::Dow) == Some(2int),
        written_as(s, "wednesday"@) ==> value_of(s, 0, 7, ParseMode::Dow) == Some(3int),
        written_as(s, "thursday"@) ==> value_of(s, 0, 7, ParseMode::Dow) == Some(4int),
        written_as(s, "friday"@) ==> value_of(s, 0, 7, ParseMode::Dow) == Some(5int),
        written_as(s, "saturday"@) ==> value_of(s, 0, 7, ParseMode::Dow) == Some(6int),
{
    reveal_strlit("sunday");
    reveal_strlit("monday");
    reveal_strlit("tuesday");
    reveal_strlit("wednesday");
    reveal_strlit("thursday");
    reveal_strlit("friday");
    reveal_strlit("saturday");
    reveal_with_fuel(named_day, 8);
    lemma_written_as(s, "sunday"@, 2);
    lemma_written_as(s, "monday"@, 2);
    lemma_written_as(s, "tuesday"@, 2);
    lemma_written_as(s, "wednesday"@, 2);
    lemma_written_as(s, "thursday"@, 2);
    lemma_written_as(s, "friday"@, 2);
    lemma_written_as(s, "saturday"@, 2);
    if s.len() > 0 && !white(s[0]) && !white(s.last()) {
        lemma_nothing_to_trim(s);
    }
    let a = s[0];
    let b = s[1];
    assert(written_as(s, "sunday"@) ==> (a == 's' || a == 'S') && (b == 'u' || b == 'U'));
    assert(written_as(s, "monday"@) ==> (a == 'm' || a == 'M') && (b == 'o' || b == 'O'));
    assert(written_as(s, "tuesday"@) ==> (a == 't' || a == 'T') && (b == 'u' || b == 'U'));
    assert(written_as(s, "wednesday"@) ==> (a == 'w' || a == 'W') && (b == 'e' || b == 'E'));
    assert(written_as(s, "thursday"@) ==> (a == 't' || a == 'T') && (b == 'h' || b == 'H'));
    assert(written_as(s, "friday"@) ==> (a == 'f' || a == 'F') && (b == 'r' || b == 'R'));
    assert(written_as(s, "saturday"@) ==> (a == 's' || a == 'S') && (b == 'a' || b == 'A'));
}

/// Nothing but a number and the first three or more letters of a name stands for a month.
pub proof fn law_nothing_else_names_months(s: Seq<char>)
    requires
        s.len() > 0,
        !white(s[0]),
        !white(s.last()),
        !is_digit(s.last()),
    ensures
        value_of(s, 1, 12, ParseMode::Month) is Some ==> s.len() >= 3 && {
            ||| written_as(s, "january"@)
            ||| written_as(s, "february"@)
            ||| written_as(s, "march"@)
            ||| written_as(s, "april"@)
            ||| written_as(s, "may"@)
            ||| written_as(s, "june"@)
            ||| written_as(s, "july"@)
            ||| written_as(s, "august"@)
            ||| written_as(s, "september"@)
            ||| written_as(s, "october"@)
            ||| written_as(s, "november"@)
            ||| written_as(s, "december"@)
        },
{
    reveal_strlit("january");
    reveal_strlit("february");
    reveal_strlit("march");
    reveal_strlit("april");
    reveal_strlit("may");
    reveal_strlit("june");
    reveal_strlit("july");
    reveal_strlit("august");
    reveal_strlit("september");
    reveal_strlit("october");
    reveal_strlit("november");
    reveal_strlit("december");
    reveal_with_fuel(named_month, 13);
    lemma_written_as(s, "january"@, 3);
    lemma_written_as(s, "february"@, 3);
    lemma_written_as(s, "march"@, 3);
    lemma_written_as(s, "april"@, 3);
    lemma_written_as(s, "may"@, 3);
    lemma_written_as(s, "june"@, 3);
    lemma_written_as(s, "july"@, 3);
    lemma_written_as(s, "august"@, 3);
    lemma_written_as(s, "september"@, 3);
    lemma_written_as(s, "october"@, 3);
    lemma_written_as(s, "november"@, 3);
    lemma_written_as(s, "december"@, 3);
    lemma_nothing_to_trim(s);
    assert(unsigned(s).len() > 0 ==> unsigned(s).last() == s.last());
    assert(integer(s) is None) by {
        let digits = unsigned(s);
        if digits.len() > 0 && all_digits(digits) {
            assert(is_digit(digits[digits.len() - 1]));
        }
    }
}

/// Nothing but a number and the first two or more letters of a name stands for a day.
pub proof fn law_nothing_else_names_days(s: Seq<char>)
    requires
        s.len() > 0,
        !white(s[0]),
        !white(s.last()),
        !is_digit(s.last()),
    ensures
        value_of(s, 0, 7, ParseMode::Dow) is Some ==> s.len() >= 2 && {
            ||| written_as(s, "sunday"@)
            ||| written_as(s, "monday"@)
            ||| written_as(s, "tuesday"@)
            ||| written_as(s, "wednesday"@)
            ||| written_as(s, "thursday"@)
            ||| written_as(s, "friday"@)
            ||| written_as(s, "saturday"@)
        },
{
    reveal_strlit("sunday");
    reveal_strlit("monday");
    reveal_strlit("tuesday");
    reveal_strlit("wednesday");
    reveal_strlit("thursday");
    reveal_strlit("friday");
    reveal_strlit("saturday");
    reveal_with_fuel(named_day, 8);
    lemma_written_as(s, "sunday"@, 2);
    lemma_written_as(s, "monday"@, 2);
    lemma_written_as(s, "tuesday"@, 2);
    lemma_written_as(s, "wednesday"@, 2);
    lemma_written_as(s, "thursday"@, 2);
    lemma_written_as(s, "friday"@, 2);
    lemma_written_as(s, "saturday"@, 2);
    lemma_nothing_to_trim(s);
    assert(unsigned(s).len() > 0 ==> unsigned(s).last() == s.last());
    assert(integer(s) is None) by {
        let digits = unsigned(s);
        if digits.len() > 0 && all_digits(digits) {
            assert(is_digit(digits[digits.len() - 1]));
        }
    }
}

// ---------------------------------------------------------------------------
// Fields
// ---------------------------------------------------------------------------

/// The values of the ranges from `a` to `b` in steps: those that the steps reach, 7 taken as 0 of
/// the days of the week.
proof fn lemma_stepped_values(a: int, b: int, step: int, mode: ParseMode, v: int)
    requires
        0 <= a <= b <= i32::MAX,
        1 <= step <= i32::MAX,
        mode == ParseMode::Dow ==> b <= 7,
    ensures
        ranges_have(stepped_ranges(a, b, step, mode), v) <==> exists|w: int|
            a <= w <= b && #[trigger] ((w - a) % step) == 0 && v == (if mode == ParseMode::Dow {
                w % 7
            } else {
                w
            }),
{
    if mode == ParseMode::Dow && b == 7 {
        law_seven_is_sunday(a, step, v);
    } else {
        law_stepped_ranges_match_every_step(a, b, step, mode, v);
        if a <= v <= b && (v - a) % step == 0 {
            assert((v - a) % step == 0);
        }
    }
}

/// One number: every number that the field allows stands for itself, 7 for 0 of the days of the
/// week.
pub proof fn law_a_number(
    x: int,
    field: Seq<char>,
    def: Seq<char>,
    min: int,
    max: int,
    mode: ParseMode,
    v: int,
)
    requires
        0 <= min <= x <= max <= i32::MAX,
        mode == ParseMode::Dow ==> max <= 7,
    ensures
        ranges_of(decimal(x), field, def, min, max, mode) matches Ok(ranges) && (ranges_have(
            ranges,
            v,
        ) <==> v == (if mode == ParseMode::Dow && x == 7 {
            0
        } else {
            x
        })),
{
    let s = decimal(x);
    lemma_number_part(s, x, field, def, min, max, mode);
    lemma_stepped_values(x, x, 1, mode, v);
    if v == (if mode == ParseMode::Dow && x == 7 {
        0
    } else {
        x
    }) {
        assert((x - x) % 1 == 0);
    }
}

/// A number alone is read as a range from it to itself.
proof fn lemma_number_part(
    s: Seq<char>,
    x: int,
    field: Seq<char>,
    def: Seq<char>,
    min: int,
    max: int,
    mode: ParseMode,
)
    requires
        0 <= min <= x <= max <= i32::MAX,
        s == decimal(x),
    ensures
        ranges_of(s, field, def, min, max, mode) == Ok::<Seq<Range>, ErrorView>(
            stepped_ranges(x, x, 1, mode),
        ),
{
    lemma_decimal(x);
    reveal_strlit("*");
    assert(is_digit(s[0]));
    lemma_only_part(s, field, def, min, max, mode);
    assert forall|i: int| 0 <= i < s.len() implies s[i] != '/' && s[i] != '-' by {
        assert(is_digit(s[i]));
    }
    lemma_length_before(s, '/', s.len() as int);
    lemma_length_before(s, '-', s.len() as int);
    lemma_digits_are_plain(s, mode, min, max);
}

/// A field of one part that is not a star alone is read as that part.
proof fn lemma_only_part(
    s: Seq<char>,
    field: Seq<char>,
    def: Seq<char>,
    min: int,
    max: int,
    mode: ParseMode,
)
    requires
        s.len() > 0,
        is_plain(s),
        mode == ParseMode::Year ==> s != "*"@,
    ensures
        ranges_of(s, field, def, min, max, mode) == match part_of(s, field, min, max, mode) {
            Ok(ranges) => Ok::<Seq<Range>, ErrorView>(ranges),
            Err(text) => Err(ErrorView::RangeError { field: field, detail: text }),
        },
{
    assert forall|i: int| 0 <= i < s.len() implies !white(#[trigger] s[i]) && s[i] != ',' by {
        assert(is_digit(s[i]) || s[i] == '-' || s[i] == '*');
    }
    assert(!white(s[0]) && !white(s[s.len() - 1]));
    lemma_nothing_to_trim(s);
    assert forall|i: int| 0 <= i < s.len() implies s[i] != ',' by {
        assert(!white(s[i]) && s[i] != ',');
    }
    lemma_length_before(s, ',', s.len() as int);
    assert(pieces(s, ',') == seq![s]);
    assert(seq![s].drop_last() == Seq::<Seq<char>>::empty());
    assert(parts_of(seq![s].drop_last(), field, min, max, mode) == Ok::<Seq<Range>, Seq<char>>(
        Seq::empty(),
    ));
    if let Ok(ranges) = part_of(s, field, min, max, mode) {
        assert(Seq::<Range>::empty() + ranges == ranges);
    }
}

/// Two numbers with a dash between them, as they are.
proof fn lemma_dashed(
    x: int,
    z: int,
    stepped: bool,
    field: Seq<char>,
    min: int,
    max: int,
    mode: ParseMode,
)
    requires
        0 <= min <= max <= i32::MAX,
        0 <= x <= i32::MAX,
        0 <= z <= i32::MAX,
    ensures
        ({
            let s = decimal(x) + seq!['-'] + decimal(z);
            &&& is_plain(s)
            &&& s.len() > 1
            &&& is_digit(s[0])
            &&& bounds_of(s, stepped, field, min, max, mode) == (if !(min <= x <= max) {
                Err::<(int, int), Seq<char>>(
                    field + " Start is not in range "@ + limits_text(min, max),
                )
            } else if !(x <= z <= max) {
                Err(field + " End is before Start or not in range "@ + limits_text(min, max))
            } else {
                Ok((x, z))
            })
        }),
{
    let a = decimal(x);
    let b = decimal(z);
    let s = a + seq!['-'] + b;
    lemma_decimal(x);
    lemma_decimal(z);
    reveal_strlit("*");
    assert(is_digit(a[0]));
    assert(s[0] == a[0]);
    assert forall|i: int| 0 <= i < a.len() implies a[i] != '-' by {
        assert(is_digit(a[i]));
    }
    assert forall|i: int| 0 <= i < b.len() implies b[i] != '-' by {
        assert(is_digit(b[i]));
    }
    lemma_length_before(b, '-', b.len() as int);
    assert forall|i: int| 0 <= i < a.len() implies s[i] != '-' by {
        assert(s[i] == a[i]);
    }
    lemma_length_before(s, '-', a.len() as int);
    assert(s.take(a.len() as int) == a);
    assert(s.skip(a.len() as int + 1) == b);
    lemma_digits_stand_for(a, mode, min, max);
    lemma_digits_stand_for(b, mode, x, max);
    assert forall|i: int| 0 <= i < s.len() implies is_digit(#[trigger] s[i]) || s[i] == '-' || s[i]
        == '*' by {
        if i < a.len() {
            assert(is_digit(a[i]));
        } else if i > a.len() {
            assert(is_digit(b[i - a.len() - 1]));
        }
    }
}

/// Digits stand for their number if it is in range, and for nothing else.
proof fn lemma_digits_stand_for(s: Seq<char>, mode: ParseMode, min: int, max: int)
    requires
        s.len() > 0,
        all_digits(s),
        0 <= digits_value(s) <= i32::MAX,
    ensures
        value_of(s, min, max, mode) == (if min <= digits_value(s) <= max {
            Some(digits_value(s))
        } else {
            None
        }),
{
    lemma_digits_are_plain(s, mode, 0, i32::MAX as int);
}

/// Two numbers with a dash between them stand for all from the one to the other, and with a step
/// for every one that the step reaches.
pub proof fn law_a_range(
    x: int,
    z: int,
    y: int,
    field: Seq<char>,
    def: Seq<char>,
    min: int,
    max: int,
    mode: ParseMode,
    v: int,
)
    requires
        0 <= min <= x <= z <= max <= i32::MAX,
        1 <= y <= i32::MAX,
        mode == ParseMode::Dow ==> max <= 7,
    ensures
        ranges_of(decimal(x) + seq!['-'] + decimal(z), field, def, min, max, mode) matches Ok(
            ranges,
        ) && (ranges_have(ranges, v) <==> exists|w: int|
            x <= w <= z && #[trigger] ((w - x) % 1) == 0 && v == (if mode == ParseMode::Dow {
                w % 7
            } else {
                w
            })),
        ranges_of(
            decimal(x) + seq!['-'] + decimal(z) + seq!['/'] + decimal(y),
            field,
            def,
            min,
            max,
            mode,
        ) matches Ok(ranges) && (ranges_have(ranges, v) <==> exists|w: int|
            x <= w <= z && #[trigger] ((w - x) % y) == 0 && v == (if mode == ParseMode::Dow {
                w % 7
            } else {
                w
            })),
{
    let s = decimal(x) + seq!['-'] + decimal(z);
    lemma_dashed(x, z, false, field, min, max, mode);
    lemma_dashed(x, z, true, field, min, max, mode);
    reveal_strlit("*");
    lemma_only_part(s, field, def, min, max, mode);
    assert forall|i: int| 0 <= i < s.len() implies s[i] != '/' by {
        assert(is_digit(s[i]) || s[i] == '-' || s[i] == '*');
    }
    lemma_length_before(s, '/', s.len() as int);
    lemma_stepped_values(x, z, 1, mode, v);
    lemma_stepped_part(s, y, field, def, min, max, mode);
    lemma_stepped_values(x, z, y, mode, v);
}

/// A number with a step goes on from it up to the greatest, and a star goes over all values, with a
/// step over every one that the step reaches from the least.
pub proof fn law_steps_and_stars(
    x: int,
    y: int,
    field: Seq<char>,
    def: Seq<char>,
    min: int,
    max: int,
    mode: ParseMode,
    v: int,
)
    requires
        0 <= min <= x <= max <= i32::MAX,
        1 <= y <= i32::MAX,
        mode == ParseMode::Dow ==> max <= 7,
    ensures
        ranges_of(decimal(x) + seq!['/'] + decimal(y), field, def, min, max, mode) matches Ok(
            ranges,
        ) && (ranges_have(ranges, v) <==> exists|w: int|
            x <= w <= max && #[trigger] ((w - x) % y) == 0 && v == (if mode == ParseMode::Dow {
                w % 7
            } else {
                w
            })),
        ranges_of(seq!['*', '/'] + decimal(y), field, def, min, max, mode) matches Ok(ranges) && (
        ranges_have(ranges, v) <==> exists|w: int|
            min <= w <= max && #[trigger] ((w - min) % y) == 0 && v == (if mode == ParseMode::Dow {
                w % 7
            } else {
                w
            })),
        mode != ParseMode::Year ==> (ranges_of(seq!['*'], field, def, min, max, mode) matches Ok(
            ranges,
        ) && (ranges_have(ranges, v) <==> exists|w: int|
            min <= w <= max && #[trigger] ((w - min) % 1) == 0 && v == (if mode == ParseMode::Dow {
                w % 7
            } else {
                w
            }))),
        ranges_of(seq!['*'], field, def, min, max, ParseMode::Year) == Ok::<Seq<Range>, ErrorView>(
            Seq::empty(),
        ),
{
    let star = seq!['*'];
    reveal_strlit("*");
    assert("*"@ == star);
    lemma_number_bounds(x, field, min, max, mode);
    lemma_stepped_part(decimal(x), y, field, def, min, max, mode);
    lemma_stepped_values(x, max, y, mode, v);
    lemma_stepped_part(star, y, field, def, min, max, mode);
    assert(seq!['*'] + seq!['/'] + decimal(y) == seq!['*', '/'] + decimal(y));
    lemma_stepped_values(min, max, y, mode, v);
    lemma_stepped_values(min, max, 1, mode, v);
    if mode != ParseMode::Year {
        lemma_only_part(star, field, def, min, max, mode);
        lemma_length_before(star, '/', 1);
    }
    lemma_nothing_to_trim(star);
}

/// A number that the field does not allow is an error, alone as well as at either end of a range,
/// and so is a range that goes down. The error names the field and what it allows.
pub proof fn law_values_out_of_range(
    x: int,
    z: int,
    field: Seq<char>,
    def: Seq<char>,
    min: int,
    max: int,
    mode: ParseMode,
)
    requires
        0 <= min <= max <= i32::MAX,
        0 <= x <= i32::MAX,
        0 <= z <= i32::MAX,
    ensures
        ({
            let limits = seq!['['] + decimal(min) + seq!['-'] + decimal(max) + seq![']'];
            &&& !(min <= x <= max) ==> ranges_of(decimal(x), field, def, min, max, mode) == Err::<
                Seq<Range>,
                ErrorView,
            >(
                ErrorView::RangeError {
                    field: field,
                    detail: field + " is not in range "@ + limits,
                },
            )
            &&& !(min <= x <= max) ==> ranges_of(
                decimal(x) + seq!['-'] + decimal(z),
                field,
                def,
                min,
                max,
                mode,
            ) == Err::<Seq<Range>, ErrorView>(
                ErrorView::RangeError {
                    field: field,
                    detail: field + " Start is not in range "@ + limits,
                },
            )
            &&& min <= x <= max && !(x <= z <= max) ==> ranges_of(
                decimal(x) + seq!['-'] + decimal(z),
                field,
                def,
                min,
                max,
                mode,
            ) == Err::<Seq<Range>, ErrorView>(
                ErrorView::RangeError {
                    field: field,
                    detail: field + " End is before Start or not in range "@ + limits,
                },
            )
        }),
{
    reveal_strlit("[");
    reveal_strlit("-");
    reveal_strlit("]");
    reveal_strlit("*");
    let limits = seq!['['] + decimal(min) + seq!['-'] + decimal(max) + seq![']'];
    assert("["@ == seq!['['] && "-"@ == seq!['-'] && "]"@ == seq![']']);
    assert(limits_text(min, max) == limits);
    let a = decimal(x);
    lemma_decimal(x);
    assert(is_digit(a[0]));
    assert forall|i: int| 0 <= i < a.len() implies a[i] != '/' && a[i] != '-' by {
        assert(is_digit(a[i]));
    }
    lemma_length_before(a, '/', a.len() as int);
    lemma_length_before(a, '-', a.len() as int);
    lemma_digits_stand_for(a, mode, min, max);
    lemma_only_part(a, field, def, min, max, mode);
    let s = a + seq!['-'] + decimal(z);
    lemma_dashed(x, z, false, field, min, max, mode);
    lemma_only_part(s, field, def, min, max, mode);
    assert forall|i: int| 0 <= i < s.len() implies s[i] != '/' by {
        assert(is_digit(s[i]) || s[i] == '-' || s[i] == '*');
    }
    lemma_length_before(s, '/', s.len() as int);
}

/// A step is a number of 1 or more, and there is one step and one dash at most: a step of 0, a
/// missing step, a second step and a second dash are errors.
pub proof fn law_wrong_steps_and_dashes(
    x: int,
    z: int,
    y: int,
    field: Seq<char>,
    def: Seq<char>,
    min: int,
    max: int,
    mode: ParseMode,
)
    requires
        0 <= x <= i32::MAX,
        0 <= z <= i32::MAX,
        0 <= y <= i32::MAX,
    ensures
        ({
            let a = decimal(x);
            let b = decimal(z);
            let c = decimal(y);
            &&& ranges_of(a + seq!['/', '0'], field, def, min, max, mode) == range_error(
                field,
                " has invalid Step"@,
            )
            &&& ranges_of(a + seq!['/'], field, def, min, max, mode) == range_error(
                field,
                " missing step value"@,
            )
            &&& ranges_of(a + seq!['/'] + b + seq!['/'] + c, field, def, min, max, mode)
                == range_error(field, " has too many slashes"@)
            &&& ranges_of(a + seq!['-'] + b + seq!['-'] + c, field, def, min, max, mode)
                == range_error(field, " has too many dashes"@)
        }),
{
    lemma_decimal(x);
    lemma_decimal(z);
    lemma_decimal(y);
    lemma_step_of_zero(decimal(x), field, def, min, max, mode);
    lemma_no_step(decimal(x), field, def, min, max, mode);
    lemma_two_steps(decimal(x), decimal(z), decimal(y), field, def, min, max, mode);
    lemma_two_dashes(decimal(x), decimal(z), decimal(y), field, def, min, max, mode);
}

/// A step of 0 is an error.
proof fn lemma_step_of_zero(
    a: Seq<char>,
    field: Seq<char>,
    def: Seq<char>,
    min: int,
    max: int,
    mode: ParseMode,
)
    requires
        a.len() > 0,
        all_digits(a),
    ensures
        ranges_of(a + seq!['/', '0'], field, def, min, max, mode) == range_error(
            field,
            " has invalid Step"@,
        ),
{
    reveal_strlit("*");
    let s = a + seq!['/', '0'];
    let n = a.len() as int;
    lemma_marks(a, s);
    lemma_single_part(s, field, def, min, max, mode);
    let zero = seq!['0'];
    assert(s.skip(n + 1) == zero);
    lemma_length_before(s, '/', n);
    lemma_length_before(zero, '/', 1);
    assert(digits_value(zero) == 0) by {
        assert(zero.drop_last() == Seq::<char>::empty());
        assert(digits_value(zero.drop_last()) == 0);
    }
    assert(all_digits(zero));
    lemma_digits_are_plain(zero, mode, 0, i32::MAX as int);
}

/// A missing step is an error.
proof fn lemma_no_step(
    a: Seq<char>,
    field: Seq<char>,
    def: Seq<char>,
    min: int,
    max: int,
    mode: ParseMode,
)
    requires
        a.len() > 0,
        all_digits(a),
    ensures
        ranges_of(a + seq!['/'], field, def, min, max, mode) == range_error(
            field,
            " missing step value"@,
        ),
{
    reveal_strlit("*");
    let s = a + seq!['/'];
    let n = a.len() as int;
    lemma_marks(a, s);
    lemma_single_part(s, field, def, min, max, mode);
    assert(s.skip(n + 1) == Seq::<char>::empty());
    lemma_length_before(s, '/', n);
}

/// A second step is an error.
proof fn lemma_two_steps(
    a: Seq<char>,
    b: Seq<char>,
    c: Seq<char>,
    field: Seq<char>,
    def: Seq<char>,
    min: int,
    max: int,
    mode: ParseMode,
)
    requires
        a.len() > 0,
        b.len() > 0,
        c.len() > 0,
        all_digits(a),
        all_digits(b),
        all_digits(c),
    ensures
        ranges_of(a + seq!['/'] + b + seq!['/'] + c, field, def, min, max, mode) == range_error(
            field,
            " has too many slashes"@,
        ),
{
    reveal_strlit("*");
    let s = a + seq!['/'] + b + seq!['/'] + c;
    let n = a.len() as int;
    let rest = b + seq!['/'] + c;
    lemma_digits_and_marks(b, '/', c);
    assert(s == a + seq!['/'] + rest);
    assert forall|i: int| n <= i < s.len() implies is_digit(#[trigger] s[i]) || s[i] == '/' || s[i]
        == '-' by {
        if i > n {
            assert(s[i] == rest[i - n - 1]);
        }
    }
    lemma_marks(a, s);
    lemma_single_part(s, field, def, min, max, mode);
    assert(s.skip(n + 1) == rest);
    lemma_length_before(s, '/', n);
    lemma_marks(b, rest);
    lemma_length_before(rest, '/', b.len() as int);
}

/// A second dash is an error.
proof fn lemma_two_dashes(
    a: Seq<char>,
    b: Seq<char>,
    c: Seq<char>,
    field: Seq<char>,
    def: Seq<char>,
    min: int,
    max: int,
    mode: ParseMode,
)
    requires
        a.len() > 0,
        b.len() > 0,
        c.len() > 0,
        all_digits(a),
        all_digits(b),
        all_digits(c),
    ensures
        ranges_of(a + seq!['-'] + b + seq!['-'] + c, field, def, min, max, mode) == range_error(
            field,
            " has too many dashes"@,
        ),
{
    reveal_strlit("*");
    let s = a + seq!['-'] + b + seq!['-'] + c;
    let n = a.len() as int;
    let rest = b + seq!['-'] + c;
    lemma_digits_and_marks(b, '-', c);
    assert(s == a + seq!['-'] + rest);
    assert forall|i: int| n <= i < s.len() implies is_digit(#[trigger] s[i]) || s[i] == '-' by {
        if i > n {
            assert(s[i] == rest[i - n - 1]);
        }
    }
    lemma_marks(a, s);
    lemma_single_part(s, field, def, min, max, mode);
    assert(s.skip(n + 1) == rest);
    lemma_marks(b, rest);
    lemma_length_before(rest, '-', b.len() as int);
    lemma_length_before(s, '-', n);
    assert forall|i: int| 0 <= i < s.len() implies s[i] != '/' by {
        if i < n {
            assert(is_digit(a[i]));
        } else if i > n {
            assert(s[i] == rest[i - n - 1]);
        }
    }
    lemma_length_before(s, '/', s.len() as int);
    assert(s.take(n) == a);
    assert(is_digit(a[0]));
    assert(s[0] == a[0]);
}

/// An error of a field, with the name of the field before its words.
pub open spec fn range_error(field: Seq<char>, words: Seq<char>) -> Result<
    Seq<Range>,
    ErrorView,
> {
    Err(ErrorView::RangeError { field: field, detail: field + words })
}

/// Digits with a mark between them have no other characters.
proof fn lemma_digits_and_marks(b: Seq<char>, mark: char, c: Seq<char>)
    requires
        all_digits(b),
        all_digits(c),
    ensures
        forall|i: int|
            0 <= i < b.len() + 1 + c.len() ==> is_digit(#[trigger] (b + seq![mark] + c)[i]) || (b
                + seq![mark] + c)[i] == mark,
{
    let s = b + seq![mark] + c;
    assert forall|i: int| 0 <= i < b.len() + 1 + c.len() implies is_digit(#[trigger] s[i]) || s[i]
        == mark by {
        if i < b.len() {
            assert(is_digit(b[i]));
        } else if i > b.len() {
            assert(is_digit(c[i - b.len() - 1]));
        }
    }
}

/// Digits, followed by marks and digits, have no other characters.
proof fn lemma_marks(a: Seq<char>, s: Seq<char>)
    requires
        a.len() > 0,
        all_digits(a),
        a.len() < s.len(),
        a =~= s.take(a.len() as int),
        forall|i: int|
            a.len() <= i < s.len() ==> is_digit(#[trigger] s[i]) || s[i] == '/' || s[i] == '-',
    ensures
        forall|i: int| 0 <= i < s.len() ==> !white(#[trigger] s[i]) && s[i] != ',',
        forall|i: int| 0 <= i < a.len() ==> #[trigger] s[i] != '/' && s[i] != '-',
        s.len() > 1,
{
    assert forall|i: int| 0 <= i < s.len() implies !white(#[trigger] s[i]) && s[i] != ',' by {
        if i < a.len() {
            assert(is_digit(a[i]));
            assert(s[i] == a[i]);
        }
    }
    assert forall|i: int| 0 <= i < a.len() implies #[trigger] s[i] != '/' && s[i] != '-' by {
        assert(is_digit(a[i]));
        assert(s[i] == a[i]);
    }
}

/// White space around a field makes no difference, and a field of white space alone stands for its
/// default.
pub proof fn law_white_space_and_defaults(
    s: Seq<char>,
    field: Seq<char>,
    def: Seq<char>,
    min: int,
    max: int,
    mode: ParseMode,
)
    requires
        def.len() > 0,
        !white(def[0]),
        !white(def.last()),
    ensures
        ranges_of(s.push(' '), field, def, min, max, mode) == ranges_of(
            s,
            field,
            def,
            min,
            max,
            mode,
        ),
        ranges_of(seq![' '] + s, field, def, min, max, mode) == ranges_of(
            s,
            field,
            def,
            min,
            max,
            mode,
        ),
        (forall|i: int| 0 <= i < s.len() ==> white(#[trigger] s[i])) ==> ranges_of(
            s,
            field,
            def,
            min,
            max,
            mode,
        ) == ranges_of(def, field, def, min, max, mode),
{
    lemma_trim_pushed(s, ' ');
    assert((seq![' '] + s).drop_first() == s);
    lemma_nothing_to_trim(def);
    if forall|i: int| 0 <= i < s.len() ==> white(#[trigger] s[i]) {
        lemma_all_white(s);
    }
}

/// Of white space alone nothing is left.
proof fn lemma_all_white(s: Seq<char>)
    requires
        forall|i: int| 0 <= i < s.len() ==> white(#[trigger] s[i]),
    ensures
        trimmed(s).len() == 0,
    decreases s.len(),
{
    if s.len() > 0 {
        assert(white(s[0]));
        assert forall|i: int| 0 <= i < s.drop_first().len() implies white(
            #[trigger] s.drop_first()[i],
        ) by {
            assert(white(s[i + 1]));
        }
        lemma_all_white(s.drop_first());
    }
}

/// Parts of a list that are empty, or white space alone, are left out.
#[verifier::rlimit(40)]
pub proof fn law_empty_parts_are_left_out(
    a: Seq<char>,
    b: Seq<char>,
    w: Seq<char>,
    field: Seq<char>,
    def: Seq<char>,
    min: int,
    max: int,
    mode: ParseMode,
)
    requires
        a.len() > 0,
        !white(a[0]),
        !white(a.last()),
        b.len() > 0,
        !white(b[0]),
        !white(b.last()),
        forall|i: int| 0 <= i < w.len() ==> white(#[trigger] w[i]),
        mode == ParseMode::Year ==> a != "*"@,
    ensures
        ranges_of(a + seq![','] + w + seq![','] + b, field, def, min, max, mode) == ranges_of(
            a + seq![','] + b,
            field,
            def,
            min,
            max,
            mode,
        ),
        ranges_of(a + seq![','], field, def, min, max, mode) == ranges_of(
            a,
            field,
            def,
            min,
            max,
            mode,
        ),
        ranges_of(seq![','] + a, field, def, min, max, mode) == ranges_of(
            a,
            field,
            def,
            min,
            max,
            mode,
        ),
        ranges_of(seq![','], field, def, min, max, mode) == Ok::<Seq<Range>, ErrorView>(
            Seq::empty(),
        ),
{
    reveal_strlit("*");
    let none = Seq::<char>::empty();
    let comma = seq![','];
    let middle = a + comma + w + comma + b;
    let both = a + comma + b;
    lemma_nothing_to_trim(middle);
    lemma_nothing_to_trim(both);
    lemma_nothing_to_trim(a);
    lemma_nothing_to_trim(a + comma);
    lemma_nothing_to_trim(comma + a);
    lemma_nothing_to_trim(comma);
    lemma_pieces_of_both(a, b, ',');
    lemma_pieces_of_both(w, b, ',');
    lemma_pieces_of_both(a, w + comma + b, ',');
    assert(middle == a + comma + (w + comma + b));
    lemma_pieces_of_both(a, none, ',');
    assert(a + comma + none == a + comma);
    lemma_pieces_of_both(none, a, ',');
    assert(none + comma + a == comma + a);
    lemma_pieces_of_both(none, none, ',');
    assert(none + comma + none == comma);
    assert forall|i: int| 0 <= i < w.len() implies w[i] != ',' by {
        assert(white(w[i]));
    }
    lemma_length_before(w, ',', w.len() as int);
    lemma_all_white(w);
    lemma_length_before(none, ',', 0);
    lemma_all_white(none);
    let nothing = Seq::<Seq<char>>::empty();
    let p = pieces(a, ',');
    let q = pieces(b, ',');
    lemma_an_empty_part(p, w, q, field, min, max, mode);
    assert(p + (seq![w] + q) == p + seq![w] + q);
    lemma_an_empty_part(p, none, nothing, field, min, max, mode);
    assert(p + seq![none] + nothing == p + seq![none] && p + nothing == p);
    lemma_an_empty_part(nothing, none, p, field, min, max, mode);
    assert(nothing + seq![none] + p == seq![none] + p && nothing + p == p);
    lemma_an_empty_part(nothing, none, seq![none], field, min, max, mode);
    assert(nothing + seq![none] + seq![none] == seq![none] + seq![none]);
    lemma_an_empty_part(nothing, none, nothing, field, min, max, mode);
    assert(nothing + seq![none] + nothing == nothing + seq![none] && nothing + nothing == nothing);
}

/// A part that is empty, or white space alone, is left out.
proof fn lemma_an_empty_part(
    p: Seq<Seq<char>>,
    w: Seq<char>,
    q: Seq<Seq<char>>,
    field: Seq<char>,
    min: int,
    max: int,
    mode: ParseMode,
)
    requires
        trimmed(w).len() == 0,
    ensures
        parts_of(p + seq![w] + q, field, min, max, mode) == parts_of(p + q, field, min, max, mode),
    decreases q.len(),
{
    let with = p + seq![w] + q;
    let without = p + q;
    if q.len() == 0 {
        assert(with.drop_last() == p);
        assert(without == p);
    } else {
        assert(with.drop_last() == p + seq![w] + q.drop_last());
        assert(without.drop_last() == p + q.drop_last());
        lemma_an_empty_part(p, w, q.drop_last(), field, min, max, mode);
    }
}

/// Whether `s` can be a value of a list: it has no white space, commas, slashes or dashes, and is
/// no star.
pub open spec fn is_value(s: Seq<char>) -> bool {
    &&& s.len() > 0
    &&& forall|i: int|
        0 <= i < s.len() ==> !white(#[trigger] s[i]) && s[i] != ',' && s[i] != '/' && s[i] != '-'
    &&& s != "*"@
}

/// However a value is written, it stands for its number: alone, as the start or the end of a range,
/// and with a step.
pub proof fn law_values_stand_for_their_numbers(
    a: Seq<char>,
    x: int,
    b: Seq<char>,
    z: int,
    y: int,
    field: Seq<char>,
    def: Seq<char>,
    min: int,
    max: int,
    mode: ParseMode,
)
    requires
        is_value(a),
        is_value(b),
        0 <= min,
        max <= i32::MAX,
        value_of(a, min, max, mode) == Some(x),
        value_of(b, x, max, mode) == Some(z),
        1 <= y <= i32::MAX,
    ensures
        ({
            let c = decimal(x);
            let d = decimal(z);
            let step = seq!['/'] + decimal(y);
            let dash = seq!['-'];
            &&& ranges_of(a, field, def, min, max, mode) == ranges_of(c, field, def, min, max, mode)
            &&& ranges_of(a + dash + b, field, def, min, max, mode) == ranges_of(
                c + dash + d,
                field,
                def,
                min,
                max,
                mode,
            )
            &&& ranges_of(a + step, field, def, min, max, mode) == ranges_of(
                c + step,
                field,
                def,
                min,
                max,
                mode,
            )
            &&& ranges_of(a + dash + b + step, field, def, min, max, mode) == ranges_of(
                c + dash + d + step,
                field,
                def,
                min,
                max,
                mode,
            )
        }),
{
    let c = decimal(x);
    let d = decimal(z);
    lemma_decimal_is_value(x);
    lemma_decimal_is_value(z);
    lemma_decimal(x);
    lemma_decimal(z);
    lemma_digits_are_plain(c, mode, min, max);
    lemma_digits_are_plain(d, mode, x, max);
    lemma_value_bounds(a, x, b, z, false, field, min, max, mode);
    lemma_value_bounds(a, x, b, z, true, field, min, max, mode);
    lemma_value_bounds(c, x, d, z, false, field, min, max, mode);
    lemma_value_bounds(c, x, d, z, true, field, min, max, mode);
    lemma_with_and_without_step(a, y, field, def, min, max, mode);
    lemma_with_and_without_step(c, y, field, def, min, max, mode);
    lemma_with_and_without_step(a + seq!['-'] + b, y, field, def, min, max, mode);
    lemma_with_and_without_step(c + seq!['-'] + d, y, field, def, min, max, mode);
}

/// A number in digits can be a value.
proof fn lemma_decimal_is_value(x: int)
    requires
        x >= 0,
    ensures
        is_value(decimal(x)),
{
    let c = decimal(x);
    lemma_decimal(x);
    reveal_strlit("*");
    assert forall|i: int| 0 <= i < c.len() implies !white(#[trigger] c[i]) && c[i] != ',' && c[i]
        != '/' && c[i] != '-' by {
        assert(is_digit(c[i]));
    }
    assert(is_digit(c[0]));
    assert("*"@[0] == '*');
}

/// The bounds of a value and of two with a dash between them.
proof fn lemma_value_bounds(
    a: Seq<char>,
    x: int,
    b: Seq<char>,
    z: int,
    stepped: bool,
    field: Seq<char>,
    min: int,
    max: int,
    mode: ParseMode,
)
    requires
        is_value(a),
        is_value(b),
        value_of(a, min, max, mode) == Some(x),
        value_of(b, x, max, mode) == Some(z),
    ensures
        bounds_of(a, stepped, field, min, max, mode) == Ok::<(int, int), Seq<char>>(
            (
                x,
                if stepped {
                    max
                } else {
                    x
                },
            ),
        ),
        bounds_of(a + seq!['-'] + b, stepped, field, min, max, mode) == Ok::<
            (int, int),
            Seq<char>,
        >((x, z)),
        is_one_part(a),
        is_one_part(a + seq!['-'] + b),
{
    let s = a + seq!['-'] + b;
    let n = a.len() as int;
    reveal_strlit("*");
    lemma_length_before(a, '-', n);
    lemma_length_before(b, '-', b.len() as int);
    assert forall|i: int| 0 <= i < n implies s[i] != '-' by {
        assert(s[i] == a[i]);
    }
    lemma_length_before(s, '-', n);
    assert(s.take(n) == a);
    assert(s.skip(n + 1) == b);
    assert(s.len() > 1);
    assert forall|i: int| 0 <= i < s.len() implies !white(#[trigger] s[i]) && s[i] != ',' && s[i]
        != '/' by {
        if i < n {
            assert(s[i] == a[i]);
        } else if i > n {
            assert(s[i] == b[i - n - 1]);
        }
    }
}

/// Whether `s` is one part of a list, without a step.
spec fn is_one_part(s: Seq<char>) -> bool {
    &&& s.len() > 0
    &&& forall|i: int|
        0 <= i < s.len() ==> !white(#[trigger] s[i]) && s[i] != ',' && s[i] != '/'
    &&& s != "*"@
}

/// What a part stands for, without a step and with one.
proof fn lemma_with_and_without_step(
    s: Seq<char>,
    y: int,
    field: Seq<char>,
    def: Seq<char>,
    min: int,
    max: int,
    mode: ParseMode,
)
    requires
        is_one_part(s),
        1 <= y <= i32::MAX,
    ensures
        ranges_of(s, field, def, min, max, mode) == (match bounds_of(
            s,
            false,
            field,
            min,
            max,
            mode,
        ) {
            Ok((start, end)) => Ok::<Seq<Range>, ErrorView>(stepped_ranges(start, end, 1, mode)),
            Err(text) => Err(ErrorView::RangeError { field: field, detail: text }),
        }),
        ranges_of(s + (seq!['/'] + decimal(y)), field, def, min, max, mode) == (match bounds_of(
            s,
            true,
            field,
            min,
            max,
            mode,
        ) {
            Ok((start, end)) => Ok::<Seq<Range>, ErrorView>(stepped_ranges(start, end, y, mode)),
            Err(text) => Err(ErrorView::RangeError { field: field, detail: text }),
        }),
{
    let d = decimal(y);
    let t = s + (seq!['/'] + d);
    let n = s.len() as int;
    lemma_decimal(y);
    lemma_decimal_is_value(y);
    lemma_digits_are_plain(d, ParseMode::Int, 0, i32::MAX as int);
    reveal_strlit("*");
    lemma_length_before(s, '/', n);
    lemma_one_part(s, field, def, min, max, mode);
    assert forall|i: int| 0 <= i < n implies t[i] != '/' by {
        assert(t[i] == s[i]);
    }
    assert forall|i: int| 0 <= i < t.len() implies !white(#[trigger] t[i]) && t[i] != ',' by {
        if i < n {
            assert(t[i] == s[i]);
        } else if i > n {
            assert(t[i] == d[i - n - 1]);
        }
    }
    lemma_length_before(t, '/', n);
    lemma_length_before(d, '/', d.len() as int);
    assert(t.take(n) == s);
    assert(t.skip(n + 1) == d);
    lemma_one_part(t, field, def, min, max, mode);
}

/// A list without commas and white space is one part.
proof fn lemma_one_part(
    s: Seq<char>,
    field: Seq<char>,
    def: Seq<char>,
    min: int,
    max: int,
    mode: ParseMode,
)
    requires
        s.len() > 0,
        forall|i: int| 0 <= i < s.len() ==> !white(#[trigger] s[i]) && s[i] != ',',
        s != "*"@,
    ensures
        ranges_of(s, field, def, min, max, mode) == match part_of(s, field, min, max, mode) {
            Ok(ranges) => Ok::<Seq<Range>, ErrorView>(ranges),
            Err(text) => Err(ErrorView::RangeError { field: field, detail: text }),
        },
{
    assert(!white(s[0]) && !white(s[s.len() - 1]));
    lemma_nothing_to_trim(s);
    lemma_length_before(s, ',', s.len() as int);
    assert(pieces(s, ',') == seq![s]);
    assert(seq![s].drop_last() == Seq::<Seq<char>>::empty());
    assert(parts_of(seq![s].drop_last(), field, min, max, mode) == Ok::<Seq<Range>, Seq<char>>(
        Seq::empty(),
    ));
    if let Ok(ranges) = part_of(s, field, min, max, mode) {
        assert(Seq::<Range>::empty() + ranges == ranges);
    }
}

} // verus!
