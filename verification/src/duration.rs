//! Lengths of time in text form, such as `90m`, `5m44s` or `1.5h`.
use std::time::Duration;

use vstd::prelude::*;
use vstd::slice::slice_subrange;

use crate::double::{
    lemma_large_is_too_long, lemma_nearest_to_large, lemma_not_negative, lemma_power_of_ten,
    lemma_product_of_large, nanoseconds, nearest, power_of_ten, product, whole_part, Double,
};
use crate::error::{ErrorView, SpecError};
use crate::text::{
    all_digits, characters, digits_value, find, is_digit, lemma_digits_grow,
    lemma_leading_space, lemma_trailing_space, length_before, string_of, trim, trimmed, white,
};
use crate::time::{duration_nanos, from_nanos};

verus! {

/// The longest length of time, in nanoseconds.
pub const MAX_NANOS: u128 = 18_446_744_073_709_551_615_999_999_999;

/// The number of values of a `u64`.
const U64_VALUES: u128 = 18_446_744_073_709_551_616;

// ---------------------------------------------------------------------------
// Numbers with a decimal point
// ---------------------------------------------------------------------------

/// The number of characters at the start of `s` that are digits or points.
pub open spec fn number_length(s: Seq<char>) -> int
    decreases s.len(),
{
    if s.len() > 0 && (is_digit(s[0]) || s[0] == '.') {
        1 + number_length(s.drop_first())
    } else {
        0
    }
}

/// What stands before the decimal point.
pub open spec fn whole_digits(s: Seq<char>) -> Seq<char> {
    s.take(length_before(s, '.'))
}

/// What stands after the decimal point.
pub open spec fn fraction_digits(s: Seq<char>) -> Seq<char> {
    if length_before(s, '.') < s.len() {
        s.skip(length_before(s, '.') + 1)
    } else {
        Seq::empty()
    }
}

/// Whether `s` is a number: digits, at least one, with at most one decimal point.
pub open spec fn is_number(s: Seq<char>) -> bool {
    &&& all_digits(whole_digits(s))
    &&& all_digits(fraction_digits(s))
    &&& whole_digits(s).len() + fraction_digits(s).len() > 0
}

/// The double-precision number nearest to the number `s`, in units of the smallest one.
pub open spec fn double_of(s: Seq<char>) -> int {
    let den = power_of_ten(fraction_digits(s).len());
    nearest(digits_value(whole_digits(s)) * den + digits_value(fraction_digits(s)), den)
}

/// The whole part of a double-precision number, but no more than a `u64` can hold.
pub open spec fn counted(x: int) -> int {
    if whole_part(x) > u64::MAX {
        u64::MAX as int
    } else {
        whole_part(x)
    }
}

/// How many nanoseconds a number of a unit is: hours, minutes, seconds, microseconds or
/// nanoseconds. The number is taken in double precision. Hours and minutes are multiplied in
/// double precision and rounded to the nearest nanosecond, as seconds are; of microseconds and
/// nanoseconds the whole part counts.
pub open spec fn term_nanos(number: Seq<char>, unit: char) -> Option<int> {
    let x = double_of(number);
    if unit == 'h' {
        Some(nanoseconds(product(x, 3600)))
    } else if unit == 'm' {
        Some(nanoseconds(product(x, 60)))
    } else if unit == 's' {
        Some(nanoseconds(x))
    } else if unit == 'u' || unit == '\u{b5}' {
        Some(counted(x) * 1_000)
    } else if unit == 'n' {
        Some(counted(x))
    } else {
        None
    }
}

/// The sum of `before` and of the terms of `s`, each a number and its unit, or in words what is
/// wrong with the first term that cannot be read or that makes the sum too long.
pub open spec fn sum_of(s: Seq<char>, before: int, all: Seq<char>) -> Result<int, Seq<char>>
    decreases s.len(),
{
    let n = number_length(s);
    if s.len() == 0 || n < 0 {
        Ok(before)
    } else if n >= s.len() {
        Err("missing unit in duration: "@ + all)
    } else if !is_number(s.take(n)) {
        Err("invalid number: "@ + s.take(n))
    } else {
        match term_nanos(s.take(n), s[n]) {
            None => Err("unknown duration unit: "@.push(s[n])),
            Some(nanos) => if before + nanos > MAX_NANOS {
                Err("duration out of range: "@ + all)
            } else {
                sum_of(s.skip(n + 1), before + nanos, all)
            },
        }
    }
}

/// The nanoseconds of the length of time that `s` writes, or what is wrong with it.
pub open spec fn nanos_of(s: Seq<char>) -> Result<int, ErrorView> {
    if trimmed(s).len() == 0 {
        Err(ErrorView::Internal("empty duration"@))
    } else {
        match sum_of(trimmed(s), 0, trimmed(s)) {
            Ok(nanos) => Ok(nanos),
            Err(text) => Err(ErrorView::Internal(text)),
        }
    }
}

// ---------------------------------------------------------------------------
// Reading
// ---------------------------------------------------------------------------

/// Whether the characters are digits only.
fn are_digits(s: &[char]) -> (r: bool)
    ensures
        r == all_digits(s@),
{
    let mut i: usize = 0;
    while i < s.len()
        invariant
            i <= s.len(),
            forall|j: int| 0 <= j < i ==> is_digit(#[trigger] s@[j]),
        decreases s.len() - i,
    {
        if !('0' <= s[i] && s[i] <= '9') {
            assert(!is_digit(s@[i as int]));
            return false;
        }
        i = i + 1;
    }
    true
}

/// The number of characters at the start that are digits or points.
fn find_unit(s: &[char]) -> (r: usize)
    ensures
        r == number_length(s@),
        r <= s@.len(),
{
    let mut i: usize = 0;
    assert(s@.skip(0) == s@);
    while i < s.len() && (('0' <= s[i] && s[i] <= '9') || s[i] == '.')
        invariant
            i <= s.len(),
            number_length(s@) == i + number_length(s@.skip(i as int)),
        decreases s.len() - i,
    {
        assert(s@.skip(i as int).drop_first() == s@.skip(i + 1));
        i = i + 1;
    }
    i
}

/// The number that the digits write, but no more than 2 to the power of 64.
fn whole_value(s: &[char]) -> (r: u128)
    requires
        all_digits(s@),
    ensures
        r == (if digits_value(s@) > U64_VALUES {
            U64_VALUES as int
        } else {
            digits_value(s@)
        }),
        digits_value(s@) >= 0,
{
    let mut value: u128 = 0;
    let mut i: usize = 0;
    while i < s.len()
        invariant
            i <= s.len(),
            all_digits(s@),
            value == (if digits_value(s@.take(i as int)) > U64_VALUES {
                U64_VALUES as int
            } else {
                digits_value(s@.take(i as int))
            }),
            digits_value(s@.take(i as int)) >= 0,
        decreases s.len() - i,
    {
        assert(s@.take(i + 1).drop_last() == s@.take(i as int));
        assert(is_digit(s@[i as int]));
        value = value * 10 + (s[i] as u32 - '0' as u32) as u128;
        if value > U64_VALUES {
            value = U64_VALUES;
        }
        i = i + 1;
    }
    assert(s@.take(s@.len() as int) == s@);
    value
}

/// What one term says.
enum Term {
    /// A length of time in nanoseconds.
    Nanos(u128),
    /// A length of time beyond the longest.
    TooLong,
    /// The number is none.
    NoNumber,
    /// The unit is not known.
    NoUnit,
}

/// Reads one term, a number and its unit.
fn read_term(number: &[char], unit: char) -> (r: Term)
    ensures
        match r {
            Term::Nanos(n) => is_number(number@) && term_nanos(number@, unit) == Some(n as int) && n
                <= MAX_NANOS,
            Term::TooLong => is_number(number@) && term_nanos(number@, unit) is Some && term_nanos(
                number@,
                unit,
            )->Some_0 > MAX_NANOS,
            Term::NoNumber => !is_number(number@),
            Term::NoUnit => is_number(number@) && term_nanos(number@, unit) is None,
        },
{
    let point: usize = find(number, '.');
    let whole = slice_subrange(number, 0, point);
    let fraction = if point < number.len() {
        slice_subrange(number, point + 1, number.len())
    } else {
        slice_subrange(number, point, point)
    };
    assert(whole@ == whole_digits(number@));
    assert(fraction@ == fraction_digits(number@));
    if !are_digits(whole) || !are_digits(fraction) || (whole.len() == 0 && fraction.len() == 0) {
        return Term::NoNumber;
    }
    let value: u128 = whole_value(whole);
    if value >= U64_VALUES {
        proof {
            lemma_too_long(number@);
        }
        return if unit == 'h' || unit == 'm' || unit == 's' {
            Term::TooLong
        } else if unit == 'u' || unit == '\u{b5}' {
            Term::Nanos(18_446_744_073_709_551_615_000)
        } else if unit == 'n' {
            Term::Nanos(18_446_744_073_709_551_615)
        } else {
            Term::NoUnit
        };
    }
    let x = Double::read(value, fraction);
    let seconds = if unit == 'h' {
        x.times(3600)
    } else if unit == 'm' {
        x.times(60)
    } else if unit == 's' {
        x
    } else if unit == 'u' || unit == '\u{b5}' {
        return Term::Nanos(x.whole() as u128 * 1_000);
    } else if unit == 'n' {
        return Term::Nanos(x.whole() as u128);
    } else {
        return Term::NoUnit;
    };
    match seconds.to_nanos() {
        Some(nanos) => Term::Nanos(nanos),
        None => Term::TooLong,
    }
}

/// A number that a `u64` cannot hold is too long as one of seconds, minutes or hours, and counts as
/// the greatest one that a `u64` can hold as one of microseconds or nanoseconds.
proof fn lemma_too_long(number: Seq<char>)
    requires
        is_number(number),
        digits_value(whole_digits(number)) >= U64_VALUES,
    ensures
        ({
            let x = double_of(number);
            &&& nanoseconds(x) > MAX_NANOS
            &&& nanoseconds(product(x, 60)) > MAX_NANOS
            &&& nanoseconds(product(x, 3600)) > MAX_NANOS
            &&& counted(x) == u64::MAX
        }),
{
    let fraction = fraction_digits(number);
    let den = power_of_ten(fraction.len());
    let whole = digits_value(whole_digits(number));
    let num = whole * den + digits_value(fraction);
    lemma_power_of_ten(fraction.len());
    lemma_digits_grow(fraction, 0);
    assert(num >= 18_446_744_073_709_551_616 * den) by (nonlinear_arith)
        requires
            num == whole * den + digits_value(fraction),
            whole >= 18_446_744_073_709_551_616,
            digits_value(fraction) >= 0,
            den > 0,
    ;
    lemma_nearest_to_large(num, den);
    let x = double_of(number);
    lemma_product_of_large(x, 60);
    lemma_product_of_large(x, 3600);
    lemma_large_is_too_long(x);
    lemma_large_is_too_long(product(x, 60));
    lemma_large_is_too_long(product(x, 3600));
}

/// The length of time that `s` writes: terms of a number and a unit, added up. The units are
/// `h`, `m`, `s`, `u` (microseconds) and `n` (nanoseconds).
///
/// A number is taken in double precision, see [`term_nanos`]. What is longer than the longest
/// length of time is an error.
pub fn parse_duration(s: &str) -> (r: Result<Duration, SpecError>)
    ensures
        match r {
            Ok(d) => nanos_of(s@) == Ok::<int, ErrorView>(duration_nanos(d)),
            Err(e) => nanos_of(s@) == Err::<int, ErrorView>(e@),
        },
{
    let given = characters(s);
    let text = trim(given.as_slice());
    if text.len() == 0 {
        return Err(SpecError::Internal("empty duration".to_owned()));
    }
    let mut total: u128 = 0;
    let mut rest = text;
    while rest.len() > 0
        invariant
            text@ == trimmed(s@),
            text@.len() > 0,
            total <= MAX_NANOS,
            sum_of(text@, 0, text@) == sum_of(rest@, total as int, text@),
        decreases rest.len(),
    {
        let n: usize = find_unit(rest);
        if n >= rest.len() {
            return Err(
                SpecError::Internal(
                    "missing unit in duration: ".to_owned().concat(string_of(text).as_str()),
                ),
            );
        }
        let number = slice_subrange(rest, 0, n);
        let unit = rest[n];
        assert(number@ == rest@.take(n as int));
        match read_term(number, unit) {
            Term::NoNumber => {
                return Err(
                    SpecError::Internal(
                        "invalid number: ".to_owned().concat(string_of(number).as_str()),
                    ),
                );
            },
            Term::NoUnit => {
                let mut message = "unknown duration unit: ".to_owned();
                message.push(unit);
                return Err(SpecError::Internal(message));
            },
            Term::Nanos(nanos) if nanos <= MAX_NANOS - total => {
                total = total + nanos;
            },
            _ => {
                return Err(
                    SpecError::Internal(
                        "duration out of range: ".to_owned().concat(string_of(text).as_str()),
                    ),
                );
            },
        }
        let ghost before = rest@;
        rest = slice_subrange(rest, n + 1, rest.len());
        assert(rest@ == before.skip(n + 1));
    }
    Ok(from_nanos(total))
}

// ---------------------------------------------------------------------------
// Laws
// ---------------------------------------------------------------------------

/// A number at the start of a text ends at its unit, whatever follows.
proof fn lemma_number_length(s: Seq<char>, t: Seq<char>)
    ensures
        0 <= number_length(s) <= s.len(),
        number_length(s) < s.len() ==> number_length(s + t) == number_length(s),
    decreases s.len(),
{
    if s.len() > 0 && (is_digit(s[0]) || s[0] == '.') {
        lemma_number_length(s.drop_first(), t);
        assert((s + t).drop_first() == s.drop_first() + t);
    }
}

/// No term is negative.
proof fn lemma_terms_are_not_negative(number: Seq<char>, unit: char)
    requires
        is_number(number),
    ensures
        term_nanos(number, unit) matches Some(nanos) ==> nanos >= 0,
{
    let whole = whole_digits(number);
    let fraction = fraction_digits(number);
    let den = power_of_ten(fraction.len());
    lemma_digits_grow(whole, 0);
    lemma_digits_grow(fraction, 0);
    lemma_power_of_ten(fraction.len());
    let num = digits_value(whole) * den + digits_value(fraction);
    assert(num >= 0) by (nonlinear_arith)
        requires
            num == digits_value(whole) * den + digits_value(fraction),
            digits_value(whole) >= 0,
            digits_value(fraction) >= 0,
            den > 0,
    ;
    lemma_not_negative(num, den);
}

/// The terms of a text are added up before those of what follows it.
pub(crate) proof fn lemma_sum_goes_on(
    s: Seq<char>,
    t: Seq<char>,
    before: int,
    all: Seq<char>,
    both: Seq<char>,
)
    requires
        sum_of(s, before, all) is Ok,
    ensures
        sum_of(s + t, before, both) == sum_of(t, sum_of(s, before, all)->Ok_0, both),
    decreases s.len(),
{
    lemma_number_length(s, t);
    if s.len() == 0 {
        assert(s + t == t);
    } else {
        let n = number_length(s);
        assert((s + t).take(n) == s.take(n));
        assert((s + t).skip(n + 1) == s.skip(n + 1) + t);
        let nanos = term_nanos(s.take(n), s[n])->Some_0;
        lemma_sum_goes_on(s.skip(n + 1), t, before + nanos, all, both);
    }
}

/// The terms of a text add up to the same, whatever they are added to.
proof fn lemma_sum_moves(s: Seq<char>, before: int, all: Seq<char>, other: int, both: Seq<char>)
    requires
        sum_of(s, before, all) is Ok,
        other <= MAX_NANOS,
    ensures
        ({
            let sum = other + sum_of(s, before, all)->Ok_0 - before;
            &&& sum >= other
            &&& sum_of(s, other, both) == if sum <= MAX_NANOS {
                Ok::<int, Seq<char>>(sum)
            } else {
                Err("duration out of range: "@ + both)
            }
        }),
    decreases s.len(),
{
    lemma_number_length(s, s);
    if s.len() > 0 {
        let n = number_length(s);
        let nanos = term_nanos(s.take(n), s[n])->Some_0;
        lemma_terms_are_not_negative(s.take(n), s[n]);
        if other + nanos <= MAX_NANOS {
            lemma_sum_moves(s.skip(n + 1), before + nanos, all, other + nanos, both);
        } else {
            lemma_sum_moves(s.skip(n + 1), before + nanos, all, 0, both);
        }
    }
}

/// Two lengths of time, written one after the other without white space between them, are their
/// sum, unless that is too long.
pub proof fn law_durations_add_up(a: Seq<char>, b: Seq<char>)
    requires
        nanos_of(a) is Ok,
        nanos_of(b) is Ok,
        !white(a.last()),
        !white(b[0]),
    ensures
        ({
            let sum = nanos_of(a)->Ok_0 + nanos_of(b)->Ok_0;
            nanos_of(a + b) == if sum <= MAX_NANOS {
                Ok::<int, ErrorView>(sum)
            } else {
                Err(ErrorView::Internal("duration out of range: "@ + trimmed(a + b)))
            }
        }),
{
    let s = trimmed(a);
    let t = trimmed(b);
    let both = trimmed(a + b);
    lemma_leading_space(a, b);
    lemma_trailing_space(s, b);
    assert(both == s + t);
    let x = nanos_of(a)->Ok_0;
    lemma_sum_is_bounded(s, 0, s);
    lemma_sum_goes_on(s, t, 0, s, both);
    lemma_sum_moves(t, 0, t, x, both);
}

/// A sum is no longer than the longest length of time.
proof fn lemma_sum_is_bounded(s: Seq<char>, before: int, all: Seq<char>)
    requires
        before <= MAX_NANOS,
    ensures
        sum_of(s, before, all) matches Ok(sum) ==> sum <= MAX_NANOS,
    decreases s.len(),
{
    lemma_number_length(s, s);
    if s.len() > 0 {
        let n = number_length(s);
        if n < s.len() && is_number(s.take(n)) {
            if let Some(nanos) = term_nanos(s.take(n), s[n]) {
                if before + nanos <= MAX_NANOS {
                    lemma_sum_is_bounded(s.skip(n + 1), before + nanos, all);
                }
            }
        }
    }
}

} // verus!
