//! Lengths of time in text form.
use vstd::arithmetic::div_mod::lemma_fundamental_div_mod;
use vstd::arithmetic::power2::{lemma2_to64_rest, lemma_pow2_adds, lemma_pow2_pos, pow2};
use vstd::prelude::*;

use crate::double::{
    excess_places, half_even, lemma_excess_places, lemma_half_even, lemma_more_places, nanoseconds,
    nearest, power_of_ten, product, rounded, whole_part,
};
use crate::duration::{
    double_of, fraction_digits, is_number, lemma_sum_goes_on, nanos_of, number_length, sum_of,
    term_nanos,
};
use crate::error::ErrorView;
use crate::text::{
    all_digits, decimal, digits_value, is_digit, lemma_decimal, lemma_length_before,
    lemma_leading_space, lemma_nothing_to_trim, lemma_trailing_space, trimmed, white,
};

verus! {

// ---------------------------------------------------------------------------
// Rounding
// ---------------------------------------------------------------------------

/// A quotient is rounded to the nearest integer, and to an even one if two are as near.
pub proof fn law_rounding_to_the_nearest(a: int, b: int)
    requires
        b > 0,
    ensures
        ({
            let r = half_even(a, b);
            &&& -b <= 2 * (r * b - a) <= b
            &&& 2 * (r * b - a) == b || 2 * (r * b - a) == -b ==> r % 2 == 0
        }),
{
    let q = a / b;
    let m = a % b;
    lemma_fundamental_div_mod(a, b);
    assert(b * q == q * b && (q + 1) * b == q * b + b) by (nonlinear_arith);
}

/// In double precision a quotient is rounded to the nearest whole number with 53 binary digits
/// before its zeros, or fewer if it has no zeros, and of two that are as near to the one whose
/// digits are even.
pub proof fn law_double_precision(a: int, b: int)
    requires
        a >= 0,
        b > 0,
    ensures
        exists|digits: int, zeros: nat| #[trigger] is_double(a, b, rounded(a, b), digits, zeros),
{
    let n = excess_places(a, b, 0);
    let x = pow2(n) as int;
    lemma_excess_places(a, b, 0);
    lemma_pow2_pos(n);
    lemma_pow2_adds(n, 53);
    lemma_pow2_adds(n, 52);
    lemma2_to64_rest();
    lemma_more_places(b, n, n);
    let digits = half_even(a, b * x);
    law_rounding_to_the_nearest(a, b * x);
    assert(digits * (b * x) == (digits * x) * b) by (nonlinear_arith);
    let limit = pow2(53) as int;
    let least = pow2(52) as int;
    assert(b * (x * limit) == limit * (b * x) && b * (x * least) == least * (b * x))
        by (nonlinear_arith);
    assert(digits <= limit) by (nonlinear_arith)
        requires
            2 * (digits * (b * x) - a) <= b * x,
            a < limit * (b * x),
            b * x > 0,
    ;
    if n > 0 {
        assert(digits >= least) by (nonlinear_arith)
            requires
                2 * (digits * (b * x) - a) >= -(b * x),
                a >= least * (b * x),
                b * x > 0,
        ;
    }
    assert(digits >= 0) by (nonlinear_arith)
        requires
            2 * (digits * (b * x) - a) >= -(b * x),
            a >= 0,
            b * x > 0,
    ;
    assert(is_double(a, b, rounded(a, b), digits, n));
}

/// Numbers and their products are in double precision, in units of the smallest number that there
/// is.
pub proof fn law_numbers_and_products(a: int, b: int, x: int, factor: int)
    requires
        a >= 0,
        b > 0,
        x >= 0,
        factor >= 0,
    ensures
        exists|digits: int, zeros: nat| #[trigger]
            is_double(a * pow2(1074), b, nearest(a, b), digits, zeros),
        exists|digits: int, zeros: nat| #[trigger]
            is_double(x * factor, 1, product(x, factor), digits, zeros),
{
    lemma_pow2_pos(1074);
    let unit = pow2(1074) as int;
    assert(a * unit >= 0) by (nonlinear_arith)
        requires
            a >= 0,
            unit > 0,
    ;
    assert(x * factor >= 0) by (nonlinear_arith)
        requires
            x >= 0,
            factor >= 0,
    ;
    law_double_precision(a * unit, b);
    let (digits, zeros) = choose|digits: int, zeros: nat| #[trigger]
        is_double(a * unit, b, rounded(a * unit, b), digits, zeros);
    assert(is_double(a * pow2(1074), b, nearest(a, b), digits, zeros));
    law_double_precision(x * factor, 1);
    let (digits, zeros) = choose|digits: int, zeros: nat| #[trigger]
        is_double(x * factor, 1, rounded(x * factor, 1), digits, zeros);
    assert(is_double(x * factor, 1, product(x, factor), digits, zeros));
}

/// Whether `r` is made of binary digits and zeros after them, and is as near to `a / b` as these
/// allow.
pub open spec fn is_double(a: int, b: int, r: int, digits: int, zeros: nat) -> bool {
    let unit = b * pow2(zeros);
    &&& r == digits * pow2(zeros)
    &&& 0 <= digits <= 9_007_199_254_740_992
    &&& zeros > 0 ==> digits >= 4_503_599_627_370_496
    &&& -unit <= 2 * (r * b - a) <= unit
    &&& 2 * (r * b - a) == unit || 2 * (r * b - a) == -unit ==> digits % 2 == 0
}

/// Numbers of 53 binary digits or fewer are exact, whatever zeros follow them.
pub proof fn law_short_numbers_are_exact(digits: int, zeros: nat, b: int)
    requires
        0 <= digits < 9_007_199_254_740_992,
        b > 0,
    ensures
        rounded(digits * pow2(zeros) * b, b) == digits * pow2(zeros),
    decreases zeros,
{
    let x = pow2(zeros) as int;
    let a = digits * x * b;
    lemma2_to64_rest();
    lemma_pow2_pos(zeros);
    lemma_excess_places(a, b, 0);
    let n = excess_places(a, b, 0);
    // No more places are dropped than there are zeros.
    lemma_pow2_adds(zeros, 53);
    assert(a < b * pow2(zeros + 53)) by (nonlinear_arith)
        requires
            a == digits * x * b,
            digits < pow2(53) as int,
            pow2(zeros + 53) as int == x * pow2(53) as int,
            x > 0,
            b > 0,
    ;
    if n > zeros {
        lemma_more_places(b, zeros + 53, (n + 52) as nat);
    }
    let y = pow2(n) as int;
    let z = pow2((zeros - n) as nat) as int;
    lemma_pow2_adds((zeros - n) as nat, n);
    lemma_pow2_pos(n);
    lemma_more_places(b, n, n);
    assert(a == (digits * z) * (b * y) + 0) by (nonlinear_arith)
        requires
            a == digits * x * b,
            x == z * y,
    ;
    lemma_half_even(a, b * y, digits * z, 0);
    assert((digits * z) * y == digits * x) by (nonlinear_arith)
        requires
            x == z * y,
    ;
}

/// Seconds are nanoseconds, rounded to the nearest and of two that are as near to the even one, and
/// the whole part is what is left without the fraction.
pub proof fn law_seconds_in_nanoseconds(x: int)
    requires
        x >= 0,
    ensures
        ({
            let unit = pow2(1074) as int;
            let n = nanoseconds(x);
            &&& -unit <= 2 * (n * unit - x * 1_000_000_000) <= unit
            &&& 2 * (n * unit - x * 1_000_000_000) == unit || 2 * (n * unit - x * 1_000_000_000)
                == -unit ==> n % 2 == 0
            &&& whole_part(x) * unit <= x < (whole_part(x) + 1) * unit
        }),
{
    let unit = pow2(1074) as int;
    lemma_pow2_pos(1074);
    law_rounding_to_the_nearest(x * 1_000_000_000, unit);
    lemma_fundamental_div_mod(x, unit);
    assert(unit * (x / unit) == (x / unit) * unit && (x / unit + 1) * unit == (x / unit) * unit
        + unit) by (nonlinear_arith);
}

// ---------------------------------------------------------------------------
// Numbers
// ---------------------------------------------------------------------------

/// A number may have a decimal point: what stands before it counts whole, and what stands after it
/// in tenths, hundredths and so on. Either may be missing, but not both.
pub proof fn law_numbers_with_a_decimal_point(whole: Seq<char>, fraction: Seq<char>)
    requires
        all_digits(whole),
        all_digits(fraction),
    ensures
        whole.len() + fraction.len() > 0 <==> is_number(whole + seq!['.'] + fraction),
        whole.len() > 0 <==> is_number(whole),
        double_of(whole + seq!['.'] + fraction) == nearest(
            digits_value(whole) * power_of_ten(fraction.len()) + digits_value(fraction),
            power_of_ten(fraction.len()),
        ),
        double_of(whole) == nearest(digits_value(whole), 1),
{
    let s = whole + seq!['.'] + fraction;
    let n = whole.len() as int;
    assert forall|i: int| 0 <= i < n implies whole[i] != '.' by {
        assert(is_digit(whole[i]));
    }
    assert forall|i: int| 0 <= i < n implies s[i] != '.' by {
        assert(s[i] == whole[i]);
    }
    lemma_length_before(s, '.', n);
    lemma_length_before(whole, '.', n);
    assert(s.take(n) == whole);
    assert(s.skip(n + 1) == fraction);
    assert(whole.take(n) == whole);
    assert(power_of_ten(0) == 1);
    assert(digits_value(Seq::empty()) == 0);
}

/// What a digit of a fraction is worth.
pub proof fn law_powers_of_ten(n: nat)
    ensures
        power_of_ten(0) == 1,
        power_of_ten(n + 1) == 10 * power_of_ten(n),
{
}

// ---------------------------------------------------------------------------
// Lengths of time
// ---------------------------------------------------------------------------

/// Whole numbers of hours, minutes, seconds, microseconds and nanoseconds are just that long.
pub proof fn law_whole_numbers_of_units(n: int)
    requires
        0 <= n <= 2_501_999_792_983,
    ensures
        nanos_of(decimal(n).push('h')) == Ok::<int, ErrorView>(n * 3_600_000_000_000),
        nanos_of(decimal(n).push('m')) == Ok::<int, ErrorView>(n * 60_000_000_000),
        nanos_of(decimal(n).push('s')) == Ok::<int, ErrorView>(n * 1_000_000_000),
        nanos_of(decimal(n).push('u')) == Ok::<int, ErrorView>(n * 1_000),
        nanos_of(decimal(n).push('\u{b5}')) == Ok::<int, ErrorView>(n * 1_000),
        nanos_of(decimal(n).push('n')) == Ok::<int, ErrorView>(n),
{
    let d = decimal(n);
    let unit = pow2(1074) as int;
    lemma_decimal(n);
    law_numbers_with_a_decimal_point(d, Seq::empty());
    let x = double_of(d);
    lemma_whole_double(n);
    lemma_whole_double(n * 60);
    lemma_whole_double(n * 3600);
    assert(x == n * unit);
    assert(x * 60 == (n * 60) * unit && x * 3600 == (n * 3600) * unit) by (nonlinear_arith)
        requires
            x == n * unit,
    ;
    assert(product(x, 60) == (n * 60) * unit);
    assert(product(x, 3600) == (n * 3600) * unit);
    lemma_one_plain_term(d, 'h');
    lemma_one_plain_term(d, 'm');
    lemma_one_plain_term(d, 's');
    lemma_one_plain_term(d, 'u');
    lemma_one_plain_term(d, '\u{b5}');
    lemma_one_plain_term(d, 'n');
}

/// Whole numbers are exact, and as many seconds in nanoseconds.
proof fn lemma_whole_double(n: int)
    requires
        0 <= n < 9_007_199_254_740_992,
    ensures
        nearest(n, 1) == n * pow2(1074),
        rounded(n * pow2(1074), 1) == n * pow2(1074),
        nanoseconds(n * pow2(1074)) == n * 1_000_000_000,
        whole_part(n * pow2(1074)) == n,
{
    let unit = pow2(1074) as int;
    lemma_pow2_pos(1074);
    law_short_numbers_are_exact(n, 1074, 1);
    assert(n * unit * 1 == n * unit);
    assert(n * unit * 1_000_000_000 == (n * 1_000_000_000) * unit + 0) by (nonlinear_arith);
    lemma_half_even(n * unit * 1_000_000_000, unit, n * 1_000_000_000, 0);
    vstd::arithmetic::div_mod::lemma_fundamental_div_mod_converse(n * unit, unit, n, 0);
}

/// A number and a unit are one term.
proof fn lemma_one_term(d: Seq<char>, unit: char)
    requires
        is_number(d),
        number_length(d.push(unit)) == d.len(),
        !white(d[0]),
        !white(unit),
    ensures
        nanos_of(d.push(unit)) == (match term_nanos(d, unit) {
            Some(nanos) => in_range(nanos, d.push(unit)),
            None => Err(ErrorView::Internal("unknown duration unit: "@.push(unit))),
        }),
{
    reveal_with_fuel(sum_of, 2);
    let s = d.push(unit);
    assert(d.len() > 0);
    assert(s[0] == d[0]);
    lemma_nothing_to_trim(s);
    assert(s.take(d.len() as int) == d);
    assert(s.skip(d.len() as int + 1) == Seq::<char>::empty());
}

/// Digits and a unit are one term.
proof fn lemma_one_plain_term(d: Seq<char>, unit: char)
    requires
        d.len() > 0,
        all_digits(d),
        !is_digit(unit),
        unit != '.',
        !white(unit),
    ensures
        nanos_of(d.push(unit)) == (match term_nanos(d, unit) {
            Some(nanos) => in_range(nanos, d.push(unit)),
            None => Err(ErrorView::Internal("unknown duration unit: "@.push(unit))),
        }),
{
    assert(is_digit(d[0]));
    lemma_digits_before(d, seq![unit]);
    assert(d + seq![unit] == d.push(unit));
    law_numbers_with_a_decimal_point(d, Seq::empty());
    lemma_one_term(d, unit);
}

/// A length of time of so many nanoseconds, if there is one.
pub open spec fn in_range(nanos: int, text: Seq<char>) -> Result<int, ErrorView> {
    if nanos <= 18_446_744_073_709_551_615_999_999_999 {
        Ok(nanos)
    } else {
        Err(ErrorView::Internal("duration out of range: "@ + text))
    }
}

/// Digits are counted up to what is no digit.
proof fn lemma_digits_before(d: Seq<char>, after: Seq<char>)
    requires
        all_digits(d),
        after.len() > 0 ==> !is_digit(after[0]) && after[0] != '.',
    ensures
        number_length(d + after) == d.len(),
    decreases d.len(),
{
    if d.len() == 0 {
        assert(d + after == after);
    } else {
        assert(is_digit(d[0]));
        assert((d + after).drop_first() == d.drop_first() + after);
        assert forall|i: int| 0 <= i < d.drop_first().len() implies is_digit(
            #[trigger] d.drop_first()[i],
        ) by {
            assert(is_digit(d[i + 1]));
        }
        lemma_digits_before(d.drop_first(), after);
    }
}

/// A number without a unit, a unit that is not known, and no number at all are errors.
pub proof fn law_wrong_lengths_of_time(n: int, unit: char)
    requires
        n >= 0,
        !is_digit(unit),
        unit != '.',
        !white(unit),
    ensures
        nanos_of(Seq::empty()) == Err::<int, ErrorView>(ErrorView::Internal("empty duration"@)),
        nanos_of(decimal(n)) == Err::<int, ErrorView>(
            ErrorView::Internal("missing unit in duration: "@ + decimal(n)),
        ),
        unit != 'h' && unit != 'm' && unit != 's' && unit != 'u' && unit != '\u{b5}' && unit != 'n'
            ==> nanos_of(decimal(n).push(unit)) == Err::<int, ErrorView>(
            ErrorView::Internal("unknown duration unit: "@.push(unit)),
        ),
        nanos_of(seq![unit]) == Err::<int, ErrorView>(
            ErrorView::Internal("invalid number: "@),
        ),
{
    let d = decimal(n);
    lemma_decimal(n);
    assert(is_digit(d[0]) && is_digit(d[d.len() - 1]));
    lemma_nothing_to_trim(d);
    lemma_digits_before(d, Seq::empty());
    assert(d + Seq::<char>::empty() == d);
    lemma_one_plain_term(d, unit);
    let u = seq![unit];
    lemma_nothing_to_trim(u);
    assert(number_length(u) == 0);
    let none = u.take(0);
    assert(none == Seq::<char>::empty());
    law_numbers_with_a_decimal_point(none, none);
    assert("invalid number: "@ + none == "invalid number: "@);
    assert(trimmed(Seq::<char>::empty()) == Seq::<char>::empty());
}

/// A number with a decimal point and a unit is a length of time: hours, minutes and seconds are
/// rounded to the nanosecond, and of microseconds and nanoseconds the whole ones count, up to as
/// many as a `u64` can hold.
pub proof fn law_fractions_of_units(whole: Seq<char>, fraction: Seq<char>, x: int, count: int)
    requires
        all_digits(whole),
        all_digits(fraction),
        whole.len() + fraction.len() > 0,
        x == nearest(
            digits_value(whole) * power_of_ten(fraction.len()) + digits_value(fraction),
            power_of_ten(fraction.len()),
        ),
        count == (if whole_part(x) <= 18_446_744_073_709_551_615 {
            whole_part(x)
        } else {
            18_446_744_073_709_551_615
        }),
    ensures
        ({
            let d = whole + seq!['.'] + fraction;
            &&& nanos_of(d.push('h')) == in_range(nanoseconds(product(x, 3600)), d.push('h'))
            &&& nanos_of(d.push('m')) == in_range(nanoseconds(product(x, 60)), d.push('m'))
            &&& nanos_of(d.push('s')) == in_range(nanoseconds(x), d.push('s'))
            &&& nanos_of(d.push('u')) == in_range(count * 1_000, d.push('u'))
            &&& nanos_of(d.push('\u{b5}')) == in_range(count * 1_000, d.push('\u{b5}'))
            &&& nanos_of(d.push('n')) == in_range(count, d.push('n'))
        }),
{
    let d = whole + seq!['.'] + fraction;
    law_numbers_with_a_decimal_point(whole, fraction);
    lemma_one_pointed_term(whole, fraction, 'h');
    lemma_one_pointed_term(whole, fraction, 'm');
    lemma_one_pointed_term(whole, fraction, 's');
    lemma_one_pointed_term(whole, fraction, 'u');
    lemma_one_pointed_term(whole, fraction, '\u{b5}');
    lemma_one_pointed_term(whole, fraction, 'n');
}

/// A number with a decimal point and a unit are one term.
proof fn lemma_one_pointed_term(whole: Seq<char>, fraction: Seq<char>, unit: char)
    requires
        all_digits(whole),
        all_digits(fraction),
        whole.len() + fraction.len() > 0,
        !is_digit(unit),
        unit != '.',
        !white(unit),
    ensures
        ({
            let d = whole + seq!['.'] + fraction;
            nanos_of(d.push(unit)) == (match term_nanos(d, unit) {
                Some(nanos) => in_range(nanos, d.push(unit)),
                None => Err(ErrorView::Internal("unknown duration unit: "@.push(unit))),
            })
        }),
{
    let d = whole + seq!['.'] + fraction;
    let s = d.push(unit);
    law_numbers_with_a_decimal_point(whole, fraction);
    if whole.len() > 0 {
        assert(is_digit(whole[0]));
        assert(d[0] == whole[0]);
    }
    lemma_digits_before(fraction, seq![unit]);
    lemma_through_the_point(whole, fraction + seq![unit]);
    assert(s == whole + seq!['.'] + (fraction + seq![unit]));
    lemma_one_term(d, unit);
}

/// Two decimal points, or one without digits, are an error.
pub proof fn law_wrong_decimal_points(a: Seq<char>, b: Seq<char>, c: Seq<char>, unit: char)
    requires
        all_digits(a),
        all_digits(b),
        all_digits(c),
        !is_digit(unit),
        unit != '.',
        !white(unit),
    ensures
        ({
            let d = a + seq!['.'] + b + seq!['.'] + c;
            nanos_of(d.push(unit)) == Err::<int, ErrorView>(
                ErrorView::Internal("invalid number: "@ + d),
            )
        }),
        nanos_of(seq!['.', unit]) == Err::<int, ErrorView>(
            ErrorView::Internal("invalid number: "@ + seq!['.']),
        ),
{
    let d = a + seq!['.'] + b + seq!['.'] + c;
    let t = d.push(unit);
    if a.len() > 0 {
        assert(is_digit(a[0]));
        assert(t[0] == a[0]);
    }
    lemma_nothing_to_trim(t);
    lemma_digits_before(c, seq![unit]);
    lemma_through_the_point(b, c + seq![unit]);
    lemma_through_the_point(a, b + seq!['.'] + (c + seq![unit]));
    assert(t == a + seq!['.'] + (b + seq!['.'] + (c + seq![unit])));
    assert(t.take(d.len() as int) == d);
    assert forall|i: int| 0 <= i < a.len() implies d[i] != '.' by {
        assert(is_digit(a[i]));
        assert(d[i] == a[i]);
    }
    lemma_length_before(d, '.', a.len() as int);
    let rest = fraction_digits(d);
    assert(rest == d.skip(a.len() as int + 1));
    assert(rest[b.len() as int] == '.');
    assert(!is_digit(rest[b.len() as int]));
    let none = Seq::<char>::empty();
    let point = seq!['.', unit];
    lemma_nothing_to_trim(point);
    lemma_digits_before(none, seq![unit]);
    lemma_through_the_point(none, seq![unit]);
    assert(none + seq![unit] == seq![unit]);
    assert(point == none + seq!['.'] + seq![unit]);
    law_numbers_with_a_decimal_point(none, none);
    assert(none + seq!['.'] + none == seq!['.']);
    assert(point.take(1) == seq!['.']);
}

/// A point between digits belongs to the number.
proof fn lemma_through_the_point(d: Seq<char>, after: Seq<char>)
    requires
        all_digits(d),
    ensures
        number_length(d + seq!['.'] + after) == d.len() + 1 + number_length(after),
    decreases d.len(),
{
    let s = d + seq!['.'] + after;
    if d.len() == 0 {
        assert(s.drop_first() == after);
    } else {
        assert(is_digit(d[0]));
        assert(s.drop_first() == d.drop_first() + seq!['.'] + after);
        assert forall|i: int| 0 <= i < d.drop_first().len() implies is_digit(
            #[trigger] d.drop_first()[i],
        ) by {
            assert(is_digit(d[i + 1]));
        }
        lemma_through_the_point(d.drop_first(), after);
    }
}

/// What follows a length of time is another one, or an error, whatever comes after it: a unit that
/// is not known, a unit without a number, and a number without a unit.
pub proof fn law_wrong_terms(a: Seq<char>, d: Seq<char>, unit: char, rest: Seq<char>)
    requires
        nanos_of(a) is Ok,
        !white(a.last()),
        all_digits(d),
        !is_digit(unit),
        unit != '.',
        !white(unit),
        unit != 'h' && unit != 'm' && unit != 's' && unit != 'u' && unit != '\u{b5}' && unit != 'n',
        rest.len() > 0 ==> !white(rest.last()),
    ensures
        d.len() > 0 ==> nanos_of(a + (d.push(unit) + rest)) == Err::<int, ErrorView>(
            ErrorView::Internal("unknown duration unit: "@.push(unit)),
        ),
        d.len() == 0 ==> nanos_of(a + (d.push(unit) + rest)) == Err::<int, ErrorView>(
            ErrorView::Internal("invalid number: "@),
        ),
        d.len() > 0 ==> nanos_of(a + d) == Err::<int, ErrorView>(
            ErrorView::Internal("missing unit in duration: "@ + trimmed(a + d)),
        ),
{
    let b = d.push(unit) + rest;
    let n = d.len() as int;
    if n > 0 {
        assert(is_digit(d[0]) && is_digit(d[n - 1]));
        lemma_what_follows(a, d);
        lemma_digits_before(d, Seq::empty());
        assert(d + Seq::<char>::empty() == d);
    }
    assert(b[0] == (if n > 0 {
        d[0]
    } else {
        unit
    }));
    assert(b.last() == (if rest.len() > 0 {
        rest.last()
    } else {
        unit
    }));
    lemma_what_follows(a, b);
    lemma_digits_before(d, seq![unit] + rest);
    assert(d + (seq![unit] + rest) == b);
    assert(b.take(n) == d);
    assert(b[n] == unit);
    law_numbers_with_a_decimal_point(d, Seq::empty());
    if n == 0 {
        assert("invalid number: "@ + d == "invalid number: "@);
    }
}

/// A length of time is read before what follows it.
proof fn lemma_what_follows(a: Seq<char>, b: Seq<char>)
    requires
        nanos_of(a) is Ok,
        !white(a.last()),
        b.len() > 0,
        !white(b[0]),
        !white(b.last()),
    ensures
        trimmed(a + b).len() > 0,
        nanos_of(a + b) == (match sum_of(b, nanos_of(a)->Ok_0, trimmed(a + b)) {
            Ok(nanos) => Ok::<int, ErrorView>(nanos),
            Err(text) => Err(ErrorView::Internal(text)),
        }),
{
    let s = trimmed(a);
    let both = trimmed(a + b);
    lemma_leading_space(a, b);
    lemma_trailing_space(s, b);
    lemma_nothing_to_trim(b);
    assert(both == s + b);
    lemma_sum_goes_on(s, b, 0, s, both);
}

} // verus!
