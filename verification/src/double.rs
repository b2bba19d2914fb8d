//! Decimal numbers, rounded to the 53 binary digits of a double-precision number.
//!
//! A double-precision number that is not negative is a whole number of units of 2 to the power of
//! -1074, the smallest one. Here it is that whole number. The greatest finite one is left out of
//! account: what is greater is too long for a length of time by far.
use vstd::arithmetic::div_mod::{lemma_fundamental_div_mod, lemma_fundamental_div_mod_converse};
use vstd::arithmetic::power2::{
    lemma2_to64, lemma2_to64_rest, lemma_pow2_adds, lemma_pow2_pos, lemma_pow2_strictly_increases,
    lemma_pow2_unfold, pow2,
};
use vstd::prelude::*;

use crate::duration::MAX_NANOS;
use crate::text::{all_digits, digit, digits_value, is_digit};

verus! {

/// The number of units of which 1 is made, as a power of 2.
const UNIT_PLACES: u32 = 1074;

/// 2 to the power of 52: the least number of 53 binary digits.
const LEAST: u64 = 4_503_599_627_370_496;

/// 2 to the power of 53: the first number of more than 53 binary digits.
const LIMIT: u64 = 9_007_199_254_740_992;

// ---------------------------------------------------------------------------
// Rounding
// ---------------------------------------------------------------------------

/// 10 to the power of `n`.
pub open spec fn power_of_ten(n: nat) -> int
    decreases n,
{
    if n == 0 {
        1
    } else {
        10 * power_of_ten((n - 1) as nat)
    }
}

/// `a / b`, rounded to the nearest integer, a half to the even one.
pub open spec fn half_even(a: int, b: int) -> int {
    let q = a / b;
    let r = a % b;
    if 2 * r < b || (2 * r == b && q % 2 == 0) {
        q
    } else {
        q + 1
    }
}

/// The least number of binary places, `n` or more, without which the whole part of `a / b` has no
/// more than 53 binary digits.
pub open spec fn excess_places(a: int, b: int, n: nat) -> nat
    decreases
            (if b > 0 && a >= b * pow2(n + 53) {
                1 + a - b * pow2(n + 53)
            } else {
                0
            }),
{
    if b <= 0 || a < b * pow2(n + 53) {
        n
    } else {
        proof {
            lemma_more_places(b, n + 53, n + 54);
        }
        excess_places(a, b, n + 1)
    }
}

/// `a / b`, rounded to a whole number with no more than 53 binary digits before its zeros, a half
/// to the even one.
pub open spec fn rounded(a: int, b: int) -> int {
    let n = excess_places(a, b, 0);
    half_even(a, b * pow2(n)) * pow2(n)
}

/// The double-precision number nearest to `a / b`, in units.
pub open spec fn nearest(a: int, b: int) -> int {
    rounded(a * pow2(1074), b)
}

/// The double-precision product of a double-precision number and a whole number, in units.
pub open spec fn product(x: int, factor: int) -> int {
    rounded(x * factor, 1)
}

/// A number of seconds in nanoseconds, rounded to the nearest one, a half to the even one.
pub open spec fn nanoseconds(x: int) -> int {
    half_even(x * 1_000_000_000, pow2(1074) as int)
}

/// The whole part of a number.
pub open spec fn whole_part(x: int) -> int {
    x / (pow2(1074) as int)
}

// ---------------------------------------------------------------------------
// How rounding goes
// ---------------------------------------------------------------------------

/// A higher power of 2 makes a greater product.
pub proof fn lemma_more_places(b: int, m: nat, n: nat)
    requires
        b > 0,
        m <= n,
    ensures
        0 < b * pow2(m) <= b * pow2(n),
        m < n ==> b * pow2(m) < b * pow2(n),
{
    lemma_pow2_pos(m);
    if m < n {
        lemma_pow2_strictly_increases(m, n);
    }
    let x = pow2(m) as int;
    let y = pow2(n) as int;
    assert(0 < b * x <= b * y && (x < y ==> b * x < b * y)) by (nonlinear_arith)
        requires
            b > 0,
            0 < x <= y,
    ;
}

/// What rounding makes of a quotient with a remainder.
pub(crate) proof fn lemma_half_even(a: int, b: int, q: int, r: int)
    requires
        0 <= r < b,
        a == q * b + r,
    ensures
        half_even(a, b) == (if 2 * r < b || (2 * r == b && q % 2 == 0) {
            q
        } else {
            q + 1
        }),
{
    lemma_fundamental_div_mod_converse(a, b, q, r);
}

/// Rounding goes by the ratio.
proof fn lemma_half_even_scaled(a: int, b: int, c: int)
    requires
        b > 0,
        c > 0,
    ensures
        half_even(a * c, b * c) == half_even(a, b),
{
    let q = a / b;
    let r = a % b;
    lemma_fundamental_div_mod(a, b);
    assert(a * c == q * (b * c) + r * c && 0 <= r * c < b * c && (2 * r < b <==> 2 * (r * c) < b
        * c) && (2 * r == b <==> 2 * (r * c) == b * c)) by (nonlinear_arith)
        requires
            a == b * q + r,
            0 <= r < b,
            c > 0,
    ;
    lemma_half_even(a * c, b * c, q, r * c);
}

/// Rounding a number that is not negative does not make it negative.
proof fn lemma_half_even_is_not_negative(a: int, b: int)
    requires
        a >= 0,
        b > 0,
    ensures
        half_even(a, b) >= 0,
{
    vstd::arithmetic::div_mod::lemma_div_pos_is_pos(a, b);
}

/// What the number of excess places means.
pub(crate) proof fn lemma_excess_places(a: int, b: int, n: nat)
    requires
        b > 0,
    ensures
        ({
            let p = excess_places(a, b, n);
            &&& p >= n
            &&& a < b * pow2(p + 53)
            &&& p == n || b * pow2((p + 52) as nat) <= a
        }),
    decreases
            (if a >= b * pow2(n + 53) {
                1 + a - b * pow2(n + 53)
            } else {
                0
            }),
{
    if a >= b * pow2(n + 53) {
        lemma_more_places(b, n + 53, n + 54);
        lemma_excess_places(a, b, n + 1);
    }
}

/// There is one number of excess places.
proof fn lemma_excess_is(a: int, b: int, p: nat)
    requires
        b > 0,
        a < b * pow2(p + 53),
        p == 0 || b * pow2(p + 52) <= a,
    ensures
        excess_places(a, b, 0) == p,
{
    lemma_excess_places(a, b, 0);
    let q = excess_places(a, b, 0);
    if q < p {
        lemma_more_places(b, q + 53, p + 52);
    }
    if p < q {
        lemma_more_places(b, p + 53, q + 52);
    }
}

/// A rounded number is not negative, and if the number is 2 to the power of 64 or more, it is so
/// rounded, too.
proof fn lemma_rounded(a: int, b: int)
    requires
        a >= 0,
        b > 0,
    ensures
        rounded(a, b) >= 0,
        a >= b * pow2(1138) ==> rounded(a, b) >= pow2(1138),
{
    lemma_excess_places(a, b, 0);
    let n = excess_places(a, b, 0);
    let p = pow2(n) as int;
    lemma_more_places(b, n, n);
    lemma_pow2_pos(n);
    lemma_half_even_is_not_negative(a, b * p);
    let h = half_even(a, b * p);
    assert(h * p >= 0) by (nonlinear_arith)
        requires
            h >= 0,
            p > 0,
    ;
    if a >= b * pow2(1138) {
        if n + 53 <= 1138 {
            lemma_more_places(b, n + 53, 1138);
        }
        assert(n >= 1086);
        let least = pow2(52) as int;
        lemma_pow2_adds(n, 52);
        assert(least * (b * p) == b * pow2(n + 52)) by (nonlinear_arith)
            requires
                pow2(n + 52) as int == p * least,
        ;
        lemma_quotient_at_least(a, b * p, least);
        assert(h * p >= p * least) by (nonlinear_arith)
            requires
                h >= least,
                p > 0,
        ;
        lemma_more_places(1, 1138, n + 52);
    }
}

/// A number that is at least so many times another is at least as many times it when rounded.
proof fn lemma_quotient_at_least(a: int, b: int, least: int)
    requires
        b > 0,
        least * b <= a,
    ensures
        half_even(a, b) >= least,
{
    lemma_fundamental_div_mod(a, b);
    let q = a / b;
    assert(q >= least) by (nonlinear_arith)
        requires
            least * b <= a,
            a == b * q + a % b,
            a % b < b,
            b > 0,
    ;
}

/// A power of ten is positive.
pub(crate) proof fn lemma_power_of_ten(n: nat)
    ensures
        power_of_ten(n) > 0,
    decreases n,
{
    if n > 0 {
        lemma_power_of_ten((n - 1) as nat);
    }
}

/// What is nearest to a number that is not negative is not negative, nor is what follows from it.
pub(crate) proof fn lemma_not_negative(num: int, den: int)
    requires
        num >= 0,
        den > 0,
    ensures
        ({
            let x = nearest(num, den);
            &&& nanoseconds(x) >= 0
            &&& nanoseconds(product(x, 60)) >= 0
            &&& nanoseconds(product(x, 3600)) >= 0
            &&& whole_part(x) >= 0
        }),
{
    let x = nearest(num, den);
    let y = pow2(1074) as int;
    lemma_pow2_pos(1074);
    assert(num * y >= 0) by (nonlinear_arith)
        requires
            num >= 0,
            y > 0,
    ;
    lemma_rounded(num * y, den);
    lemma_rounded(x * 60, 1);
    lemma_rounded(x * 3600, 1);
    lemma_half_even_is_not_negative(x * 1_000_000_000, y);
    lemma_half_even_is_not_negative(product(x, 60) * 1_000_000_000, y);
    lemma_half_even_is_not_negative(product(x, 3600) * 1_000_000_000, y);
    vstd::arithmetic::div_mod::lemma_div_pos_is_pos(x, y);
}

/// What is nearest to 2 to the power of 64 or more is no less than that.
pub(crate) proof fn lemma_nearest_to_large(num: int, den: int)
    requires
        den > 0,
        num >= 18_446_744_073_709_551_616 * den,
    ensures
        nearest(num, den) >= pow2(1138),
{
    let y = pow2(1074) as int;
    lemma2_to64();
    lemma_pow2_pos(1074);
    lemma_pow2_adds(64, 1074);
    assert(num * y >= den * (18_446_744_073_709_551_616 * y)) by (nonlinear_arith)
        requires
            num >= 18_446_744_073_709_551_616 * den,
            y > 0,
    ;
    assert(num * y >= 0) by (nonlinear_arith)
        requires
            num >= 0,
            y > 0,
    ;
    lemma_rounded(num * y, den);
}

/// A product of a number of 2 to the power of 64 or more is no less than that.
pub(crate) proof fn lemma_product_of_large(x: int, factor: int)
    requires
        x >= pow2(1138),
        factor >= 1,
    ensures
        product(x, factor) >= pow2(1138),
{
    lemma_pow2_pos(1138);
    assert(x * factor >= x) by (nonlinear_arith)
        requires
            x >= 0,
            factor >= 1,
    ;
    lemma_rounded(x * factor, 1);
}

/// 2 to the power of 64 seconds or more are longer than the longest length of time.
pub(crate) proof fn lemma_large_is_too_long(x: int)
    requires
        x >= pow2(1138),
    ensures
        nanoseconds(x) > MAX_NANOS,
        whole_part(x) > u64::MAX,
{
    let y = pow2(1074) as int;
    lemma2_to64();
    lemma_pow2_pos(1074);
    lemma_pow2_adds(64, 1074);
    lemma_quotient_at_least(x * 1_000_000_000, y, 18_446_744_073_709_551_616_000_000_000);
    lemma_fundamental_div_mod(x, y);
    let q = x / y;
    assert(q >= 18_446_744_073_709_551_616) by (nonlinear_arith)
        requires
            x >= 18_446_744_073_709_551_616 * y,
            x == y * q + x % y,
            x % y < y,
            y > 0,
    ;
}

// ---------------------------------------------------------------------------
// Digits after the decimal point
// ---------------------------------------------------------------------------

/// The number that a row of decimal digits stands for, the last one written first.
spec fn low_value(s: Seq<u8>) -> int
    decreases s.len(),
{
    if s.len() == 0 {
        0
    } else {
        low_value(s.drop_last()) + s.last() * power_of_ten((s.len() - 1) as nat)
    }
}

/// Whether all are digits.
spec fn are_low(s: Seq<u8>) -> bool {
    forall|i: int| 0 <= i < s.len() ==> #[trigger] s[i] < 10
}

/// A row of digits stands for less than a power of ten, and for zero if and only if all are zero.
proof fn lemma_low_value(s: Seq<u8>)
    requires
        are_low(s),
    ensures
        0 <= low_value(s) < power_of_ten(s.len()),
        low_value(s) == 0 <==> forall|i: int| 0 <= i < s.len() ==> #[trigger] s[i] == 0,
    decreases s.len(),
{
    if s.len() > 0 {
        let before = s.drop_last();
        assert forall|i: int| 0 <= i < before.len() implies #[trigger] before[i] < 10 by {
            assert(s[i] < 10);
        }
        lemma_low_value(before);
        let p = power_of_ten((s.len() - 1) as nat);
        let d = s.last() as int;
        assert(s[s.len() - 1] < 10);
        assert(0 <= d * p <= 9 * p && (d > 0 ==> d * p >= p) && (d == 0 ==> d * p == 0))
            by (nonlinear_arith)
            requires
                0 <= d < 10,
                p > 0,
        ;
        assert(low_value(s) == low_value(before) + d * p);
        if d == 0 {
            if low_value(before) == 0 {
                assert forall|i: int| 0 <= i < s.len() implies #[trigger] s[i] == 0 by {
                    if i < before.len() {
                        assert(before[i] == 0);
                    } else {
                        assert(s[i] == s.last());
                    }
                }
            } else {
                let i = choose|i: int| 0 <= i < before.len() && #[trigger] before[i] != 0;
                assert(s[i] != 0);
            }
        } else {
            assert(s[s.len() - 1] != 0);
            assert(low_value(s) > 0);
        }
    }
}

/// How the value of a row of digits follows from that of the row without its first digit.
proof fn lemma_first_digit(s: Seq<char>)
    requires
        s.len() > 0,
    ensures
        digits_value(s) == digit(s[0]) * power_of_ten((s.len() - 1) as nat) + digits_value(
            s.drop_first(),
        ),
    decreases s.len(),
{
    if s.len() > 1 {
        lemma_first_digit(s.drop_last());
        assert(s.drop_last().drop_first() == s.drop_first().drop_last());
        let d = digit(s[0]);
        let p = power_of_ten((s.len() - 2) as nat);
        assert(d * (10 * p) == (d * p) * 10) by (nonlinear_arith);
    } else {
        assert(s.drop_last() == Seq::<char>::empty());
        assert(s.drop_first() == Seq::<char>::empty());
        assert(digits_value(s.drop_last()) == 0);
        assert(power_of_ten(0) == 1);
    }
}

/// The digits, the last one first.
fn low_digits(s: &[char]) -> (r: Vec<u8>)
    requires
        all_digits(s@),
    ensures
        r@.len() == s@.len(),
        are_low(r@),
        low_value(r@) == digits_value(s@),
{
    let mut r: Vec<u8> = Vec::new();
    let mut i: usize = s.len();
    assert(s@.skip(s@.len() as int) == Seq::<char>::empty());
    while i > 0
        invariant
            i <= s.len(),
            all_digits(s@),
            r@.len() == s@.len() - i,
            are_low(r@),
            low_value(r@) == digits_value(s@.skip(i as int)),
        decreases i,
    {
        i = i - 1;
        assert(is_digit(s@[i as int]));
        let ghost before = r@;
        r.push((s[i] as u32 - '0' as u32) as u8);
        proof {
            lemma_first_digit(s@.skip(i as int));
            assert(s@.skip(i as int).drop_first() == s@.skip(i + 1));
            assert(r@.drop_last() == before);
        }
    }
    assert(s@.skip(0) == s@);
    r
}

/// Whether all digits are zero.
fn is_zero(s: &Vec<u8>) -> (r: bool)
    requires
        are_low(s@),
    ensures
        r == (low_value(s@) == 0),
{
    proof {
        lemma_low_value(s@);
    }
    let mut i: usize = 0;
    while i < s.len()
        invariant
            i <= s.len(),
            low_value(s@) == 0 <==> forall|i: int| 0 <= i < s@.len() ==> #[trigger] s@[i] == 0,
            forall|j: int| 0 <= j < i ==> #[trigger] s@[j] == 0,
        decreases s.len() - i,
    {
        if s[i] != 0 {
            return false;
        }
        i = i + 1;
    }
    true
}

/// Twice a fraction: its whole part, 0 or 1, and the digits of the rest.
fn doubled(s: &Vec<u8>) -> (r: (u64, Vec<u8>))
    requires
        are_low(s@),
    ensures
        r.1@.len() == s@.len(),
        are_low(r.1@),
        r.0 <= 1,
        2 * low_value(s@) == r.0 * power_of_ten(s@.len()) + low_value(r.1@),
{
    let mut rest: Vec<u8> = Vec::new();
    let mut carry: u8 = 0;
    let mut i: usize = 0;
    assert(s@.take(0) == Seq::<u8>::empty());
    while i < s.len()
        invariant
            i <= s.len(),
            are_low(s@),
            are_low(rest@),
            rest@.len() == i,
            carry <= 1,
            2 * low_value(s@.take(i as int)) == carry * power_of_ten(i as nat) + low_value(rest@),
        decreases s.len() - i,
    {
        assert(s@[i as int] < 10);
        let twice: u8 = 2 * s[i] + carry;
        let ghost before = rest@;
        let ghost old_carry = carry as int;
        if twice >= 10 {
            rest.push(twice - 10);
            carry = 1;
        } else {
            rest.push(twice);
            carry = 0;
        }
        proof {
            assert(s@.take(i + 1).drop_last() == s@.take(i as int));
            assert(rest@.drop_last() == before);
            let p = power_of_ten(i as nat);
            let d = s@[i as int] as int;
            let low = rest@[i as int] as int;
            let c = carry as int;
            assert(power_of_ten((i + 1) as nat) == 10 * p);
            assert(2 * (d * p) + old_carry * p == c * (10 * p) + low * p) by (nonlinear_arith)
                requires
                    2 * d + old_carry == 10 * c + low,
            ;
        }
        i = i + 1;
    }
    assert(s@.take(s@.len() as int) == s@);
    (carry as u64, rest)
}

// ---------------------------------------------------------------------------
// Double-precision numbers
// ---------------------------------------------------------------------------

/// A double-precision number that is not negative: some binary digits, and the number of zeros
/// after them, in units.
#[derive(Debug, Clone, Copy)]
pub(crate) struct Double {
    digits: u64,
    places: u32,
}

/// 2 to the power of `n`.
fn power_of_two(n: u32) -> (r: u128)
    requires
        n < 128,
    ensures
        r == pow2(n as nat),
{
    let mut r: u128 = 1;
    let mut i: u32 = 0;
    proof {
        lemma2_to64();
    }
    while i < n
        invariant
            i <= n < 128,
            r == pow2(i as nat),
        decreases n - i,
    {
        proof {
            lemma_pow2_unfold((i + 1) as nat);
            lemma_pow2_below_128((i + 1) as nat);
        }
        r = r * 2;
        i = i + 1;
    }
    r
}

/// The powers of 2 that a `u128` holds.
proof fn lemma_pow2_below_128(n: nat)
    requires
        n < 128,
    ensures
        pow2(n) <= u128::MAX,
{
    lemma2_to64();
    lemma2_to64_rest();
    lemma_pow2_adds(64, 63);
    assert(pow2(127) == 0x1_0000_0000_0000_0000 * 0x8000_0000_0000_0000);
    lemma_more_places(1, n, 127);
}

/// The number rounded up or down: up if the rest is more than a half, or a half and the number
/// odd.
fn round(q: u64, more: bool, half: bool) -> (r: u64)
    requires
        q < LIMIT,
    ensures
        r == (if more || (half && q % 2 == 1) {
            q + 1
        } else {
            q as int
        }),
{
    if more || (half && q % 2 == 1) {
        q + 1
    } else {
        q
    }
}

/// The number of binary places of `p` beyond the first 53.
fn places_beyond(p: u128) -> (r: u32)
    requires
        p < 0x10_0000_0000_0000_0000,
    ensures
        p < pow2((r + 53) as nat),
        r == 0 || pow2((r + 52) as nat) <= p,
        r <= 15,
{
    let mut limit: u128 = LIMIT as u128;
    let mut r: u32 = 0;
    proof {
        lemma2_to64_rest();
    }
    while p >= limit
        invariant
            p < 0x10_0000_0000_0000_0000,
            limit == pow2((r + 53) as nat),
            limit <= 0x10_0000_0000_0000_0000,
            r == 0 || pow2((r + 52) as nat) <= p,
            r <= 15,
        decreases 15 - r,
    {
        proof {
            lemma2_to64_rest();
            lemma_pow2_adds(64, 4);
            lemma2_to64();
            assert(pow2(68) == 0x10_0000_0000_0000_0000);
            if r == 15 {
                assert(false);
            }
            lemma_more_places(1, (r + 54) as nat, 68);
            lemma_pow2_unfold((r + 54) as nat);
        }
        limit = limit * 2;
        r = r + 1;
    }
    r
}

/// A fraction that was doubled until it settled, rounded.
proof fn lemma_settled(num: int, den: int, m: int, low: int, doublings: nat)
    requires
        den > 0,
        0 <= low < den,
        num * pow2(doublings) == m * den + low,
        0 <= m < LIMIT,
        doublings <= 1074,
        m >= LEAST || doublings == 1074,
    ensures
        nearest(num, den) == half_even(m * den + low, den) * pow2((1074 - doublings) as nat),
{
    let p = (1074 - doublings) as nat;
    let x = pow2(p) as int;
    let y = pow2(doublings) as int;
    let a = num * pow2(1074);
    lemma2_to64_rest();
    lemma_pow2_adds(doublings, p);
    lemma_pow2_adds(p, 53);
    lemma_pow2_adds(p, 52);
    lemma_pow2_pos(p);
    assert(a == (m * den + low) * x) by (nonlinear_arith)
        requires
            a == num * (y * x),
            num * y == m * den + low,
    ;
    let limit = pow2(53) as int;
    let least = pow2(52) as int;
    assert(a < den * (x * limit) && (m >= least ==> den * (x * least) <= a)) by (nonlinear_arith)
        requires
            a == (m * den + low) * x,
            0 <= low < den,
            0 <= m < limit,
            x > 0,
    ;
    lemma_excess_is(a, den, p);
    lemma_half_even_scaled(m * den + low, den, x);
}

/// A number of more than 53 binary digits before the point, rounded.
proof fn lemma_large(num: int, den: int, whole: int, low: int, t: nat)
    requires
        den > 0,
        0 <= low < den,
        num == whole * den + low,
        t > 0,
        pow2(t + 52) <= whole < pow2(t + 53),
    ensures
        nearest(num, den) == half_even(num, den * pow2(t)) * pow2(1074 + t),
{
    let x = pow2(1074) as int;
    let a = num * x;
    lemma_pow2_pos(1074);
    lemma_pow2_pos(t);
    lemma_pow2_adds(1074, t + 53);
    lemma_pow2_adds(1074, t + 52);
    lemma_pow2_adds(1074, t);
    let limit = pow2(t + 53) as int;
    let least = pow2(t + 52) as int;
    assert(a < den * (x * limit) && den * (x * least) <= a) by (nonlinear_arith)
        requires
            a == (whole * den + low) * x,
            0 <= low < den,
            least <= whole < limit,
            x > 0,
    ;
    assert(1074 + t + 53 == 1074 + (t + 53));
    assert(1074 + t + 52 == 1074 + (t + 52));
    lemma_excess_is(a, den, 1074 + t);
    let y = pow2(t) as int;
    assert(den * (x * y) == (den * y) * x) by (nonlinear_arith);
    assert(den * y > 0) by (nonlinear_arith)
        requires
            den > 0,
            y > 0,
    ;
    lemma_half_even_scaled(num, den * y, x);
}

/// A product of more than 53 binary digits, rounded.
proof fn lemma_product(p: int, k: nat, t: nat)
    requires
        0 <= p < pow2(t + 53),
        t == 0 || pow2(t + 52) <= p,
        k == 0 || p >= LEAST,
    ensures
        rounded(p * pow2(k), 1) == half_even(p, pow2(t) as int) * pow2(k + t),
{
    let x = pow2(k) as int;
    let a = p * x;
    lemma2_to64_rest();
    lemma_pow2_pos(k);
    lemma_pow2_pos(t);
    lemma_pow2_adds(k, t + 53);
    lemma_pow2_adds(k, t + 52);
    lemma_pow2_adds(k, t);
    assert(k + t + 53 == k + (t + 53));
    assert(k + t + 52 == k + (t + 52));
    let limit = pow2(t + 53) as int;
    let least = pow2(t + 52) as int;
    assert(a < x * limit && (least <= p ==> x * least <= a)) by (nonlinear_arith)
        requires
            a == p * x,
            p < limit,
            x > 0,
    ;
    lemma_excess_is(a, 1, k + t);
    let y = pow2(t) as int;
    assert(1 * (x * y) == y * x) by (nonlinear_arith);
    lemma_half_even_scaled(p, y, x);
}

impl Double {
    /// The number, in units.
    pub(crate) closed spec fn units(self) -> int {
        self.digits * pow2(self.places as nat)
    }

    /// There are no more than 53 binary digits, and just as many unless the number is very small.
    pub(crate) closed spec fn well_formed(self) -> bool {
        &&& self.digits <= LIMIT
        &&& self.places == 0 || self.digits >= LEAST
    }

    /// The number is no more than 2 to the power of 64.
    pub(crate) closed spec fn is_short(self) -> bool {
        self.places <= 1085
    }

    /// The double-precision number nearest to a number with a decimal point.
    pub(crate) fn read(whole: u128, fraction: &[char]) -> (r: Double)
        requires
            whole < 0x1_0000_0000_0000_0000,
            all_digits(fraction@),
        ensures
            r.well_formed(),
            r.units() == nearest(
                whole * power_of_ten(fraction@.len()) + digits_value(fraction@),
                power_of_ten(fraction@.len()),
            ),
            r.is_short(),
    {
        let rest = low_digits(fraction);
        proof {
            lemma_low_value(rest@);
        }
        if whole < LIMIT as u128 {
            Double::read_small(whole as u64, rest)
        } else {
            Double::read_large(whole, rest)
        }
    }

    /// Reads a number of no more than 53 binary digits before the point.
    fn read_small(whole: u64, fraction: Vec<u8>) -> (r: Double)
        requires
            whole < LIMIT,
            are_low(fraction@),
        ensures
            r.well_formed(),
            r.units() == nearest(
                whole * power_of_ten(fraction@.len()) + low_value(fraction@),
                power_of_ten(fraction@.len()),
            ),
            r.places <= 1074,
    {
        let ghost den = power_of_ten(fraction@.len());
        let ghost num = whole * den + low_value(fraction@);
        let ghost count = fraction@.len();
        let mut rest = fraction;
        let mut m: u64 = whole;
        let mut doublings: u32 = 0;
        proof {
            lemma2_to64();
        }
        while m < LEAST && doublings < UNIT_PLACES
            invariant
                rest@.len() == count,
                den == power_of_ten(count),
                are_low(rest@),
                m < LIMIT,
                doublings <= 1074,
                num * pow2(doublings as nat) == m * den + low_value(rest@),
            decreases 1074 - doublings,
        {
            let (bit, after) = doubled(&rest);
            proof {
                lemma_pow2_unfold((doublings + 1) as nat);
                let x = pow2(doublings as nat) as int;
                let low = low_value(rest@);
                assert(num * (2 * x) == (2 * m + bit) * den + low_value(after@))
                    by (nonlinear_arith)
                    requires
                        num * x == m * den + low,
                        2 * low == bit * den + low_value(after@),
                ;
            }
            m = 2 * m + bit;
            rest = after;
            doublings = doublings + 1;
        }
        let (bit, after) = doubled(&rest);
        let exact = is_zero(&after);
        proof {
            let low = low_value(rest@);
            lemma_low_value(rest@);
            lemma_low_value(after@);
            lemma_settled(num, den, m as int, low, doublings as nat);
            lemma_half_even(m * den + low, den, m as int, low);
            if bit == 0 {
                assert(bit * den == 0);
            } else {
                assert(bit * den == den) by (nonlinear_arith)
                    requires
                        bit == 1,
                ;
            }
        }
        Double {
            digits: round(m, bit == 1 && !exact, bit == 1 && exact),
            places: UNIT_PLACES - doublings,
        }
    }

    /// Reads a number of more than 53 binary digits before the point.
    fn read_large(whole: u128, fraction: Vec<u8>) -> (r: Double)
        requires
            LIMIT <= whole < 0x1_0000_0000_0000_0000,
            are_low(fraction@),
        ensures
            r.well_formed(),
            r.units() == nearest(
                whole * power_of_ten(fraction@.len()) + low_value(fraction@),
                power_of_ten(fraction@.len()),
            ),
            r.places <= 1085,
    {
        let t: u32 = places_beyond(whole);
        proof {
            lemma2_to64();
            lemma2_to64_rest();
            if t > 11 {
                lemma_more_places(1, 64, (t + 52) as nat);
            }
        }
        let unit: u128 = power_of_two(t);
        let q: u128 = whole / unit;
        let r: u128 = whole % unit;
        let exact = is_zero(&fraction);
        proof {
            lemma_low_value(fraction@);
            lemma_pow2_unfold(t as nat);
            lemma_quotient(whole as int, t as nat);
            let den = power_of_ten(fraction@.len());
            let low = low_value(fraction@);
            let num = whole * den + low;
            lemma_large(num, den, whole as int, low, t as nat);
            lemma_fundamental_div_mod(whole as int, unit as int);
            let half = pow2((t - 1) as nat) as int;
            assert(num == q * (den * unit) + (r * den + low) && 0 <= r * den + low < den * unit
                && (2 * (r * den + low) < den * unit <==> r < half) && (2 * (r * den + low) == den
                * unit <==> r == half && low == 0)) by (nonlinear_arith)
                requires
                    num == whole * den + low,
                    whole == unit * q + r,
                    0 <= r < unit,
                    unit == 2 * half,
                    0 <= low < den,
            ;
            lemma_half_even(num, den * unit, q as int, r * den + low);
        }
        let half: u128 = unit / 2;
        Double {
            digits: round(
                q as u64,
                r > half || (r == half && !exact),
                r == half && exact,
            ),
            places: UNIT_PLACES + t,
        }
    }

    /// The double-precision product with a whole number.
    pub(crate) fn times(self, factor: u64) -> (r: Double)
        requires
            self.well_formed(),
            self.is_short(),
            1 <= factor <= 3600,
        ensures
            r.well_formed(),
            r.units() == product(self.units(), factor as int),
    {
        proof {
            let d = self.digits as int;
            let f = factor as int;
            assert(0 <= d * f <= 9_007_199_254_740_992 * 3600) by (nonlinear_arith)
                requires
                    0 <= d <= 9_007_199_254_740_992,
                    1 <= f <= 3600,
            ;
            assert(d * f >= d) by (nonlinear_arith)
                requires
                    0 <= d,
                    1 <= f,
            ;
        }
        let p: u128 = self.digits as u128 * factor as u128;
        let t: u32 = places_beyond(p);
        let unit: u128 = power_of_two(t);
        proof {
            lemma_pow2_pos(t as nat);
            lemma_pow2_below_128((t + 1) as nat);
            lemma_pow2_unfold((t + 1) as nat);
        }
        let q: u128 = p / unit;
        let r: u128 = p % unit;
        proof {
            lemma_quotient(p as int, t as nat);
            let x = pow2(self.places as nat) as int;
            assert((self.digits * x) * factor == p * x) by (nonlinear_arith)
                requires
                    p == self.digits * factor,
            ;
            lemma_product(p as int, self.places as nat, t as nat);
            lemma_fundamental_div_mod(p as int, unit as int);
            assert(unit * q == q * unit) by (nonlinear_arith);
            lemma_half_even(p as int, unit as int, q as int, r as int);
        }
        Double {
            digits: round(q as u64, 2 * r > unit, 2 * r == unit),
            places: self.places + t,
        }
    }

    /// A number of seconds in nanoseconds, if that is no longer than the longest length of time.
    pub(crate) fn to_nanos(self) -> (r: Option<u128>)
        requires
            self.well_formed(),
        ensures
            match r {
                Some(n) => n == nanoseconds(self.units()) && n <= MAX_NANOS,
                None => nanoseconds(self.units()) > MAX_NANOS,
            },
    {
        let nanos: u128 = self.digits as u128 * 1_000_000_000;
        let ghost x = pow2(self.places as nat) as int;
        proof {
            lemma_pow2_pos(self.places as nat);
            assert((self.digits * x) * 1_000_000_000 == nanos * x) by (nonlinear_arith)
                requires
                    nanos == self.digits * 1_000_000_000,
            ;
        }
        if self.places >= 1086 {
            proof {
                self.lemma_is_long();
                lemma_pow2_pos(1074);
                lemma_quotient_at_least(
                    self.units() * 1_000_000_000,
                    pow2(1074) as int,
                    18_446_744_073_709_551_616_000_000_000,
                );
            }
            return None;
        }
        if self.places >= UNIT_PLACES {
            let shift: u32 = self.places - UNIT_PLACES;
            let unit: u128 = power_of_two(shift);
            proof {
                lemma2_to64();
                lemma_more_places(1, shift as nat, 11);
                assert(0 <= nanos * unit <= 9_007_199_254_740_992_000_000_000 * 2048)
                    by (nonlinear_arith)
                    requires
                        0 <= nanos <= 9_007_199_254_740_992_000_000_000,
                        0 <= unit <= 2048,
                ;
                lemma_pow2_adds(shift as nat, 1074);
                lemma_pow2_pos(1074);
                let y = pow2(1074) as int;
                assert(nanos * x == (nanos * unit) * y && 1 * y == y) by (nonlinear_arith)
                    requires
                        x == unit * y,
                ;
                lemma_half_even_scaled(nanos * unit, 1, y);
                lemma_half_even(nanos * unit, 1, nanos * unit, 0);
            }
            let long: u128 = nanos * unit;
            return if long <= MAX_NANOS {
                Some(long)
            } else {
                None
            };
        }
        let shift: u32 = UNIT_PLACES - self.places;
        proof {
            lemma_pow2_adds(shift as nat, self.places as nat);
            lemma_pow2_pos(shift as nat);
            lemma_half_even_scaled(nanos as int, pow2(shift as nat) as int, x);
        }
        if shift >= 100 {
            proof {
                lemma2_to64();
                lemma2_to64_rest();
                lemma_pow2_adds(64, 36);
                lemma_more_places(1, 100, shift as nat);
                lemma_half_even(nanos as int, pow2(shift as nat) as int, 0, nanos as int);
            }
            return Some(0);
        }
        let unit: u128 = power_of_two(shift);
        proof {
            lemma_pow2_below_128((shift + 1) as nat);
            lemma_pow2_unfold((shift + 1) as nat);
        }
        let q: u128 = nanos / unit;
        let r: u128 = nanos % unit;
        proof {
            lemma_fundamental_div_mod(nanos as int, unit as int);
            assert(unit * q == q * unit) by (nonlinear_arith);
            lemma_half_even(nanos as int, unit as int, q as int, r as int);
            assert(q <= nanos) by (nonlinear_arith)
                requires
                    nanos == unit * q + r,
                    unit >= 1,
                    r >= 0,
                    q >= 0,
            ;
        }
        if 2 * r > unit || (2 * r == unit && q % 2 == 1) {
            Some(q + 1)
        } else {
            Some(q)
        }
    }

    /// The whole part, but no more than a `u64` can hold.
    pub(crate) fn whole(self) -> (r: u64)
        requires
            self.well_formed(),
        ensures
            r == (if whole_part(self.units()) > u64::MAX {
                u64::MAX as int
            } else {
                whole_part(self.units())
            }),
    {
        let ghost x = pow2(self.places as nat) as int;
        let ghost y = pow2(1074) as int;
        proof {
            lemma_pow2_pos(self.places as nat);
            lemma_pow2_pos(1074);
        }
        if self.places >= 1086 {
            proof {
                self.lemma_is_long();
                lemma_fundamental_div_mod(self.units(), y);
                let q = whole_part(self.units());
                assert(q >= 0x1_0000_0000_0000_0000) by (nonlinear_arith)
                    requires
                        self.units() == y * q + self.units() % y,
                        self.units() >= 0x1_0000_0000_0000_0000 * y,
                        self.units() % y < y,
                        y > 0,
                ;
            }
            return u64::MAX;
        }
        if self.places >= UNIT_PLACES {
            let shift: u32 = self.places - UNIT_PLACES;
            let unit: u128 = power_of_two(shift);
            proof {
                lemma2_to64();
                lemma_more_places(1, shift as nat, 11);
                let d = self.digits as int;
                assert(0 <= d * unit <= 9_007_199_254_740_992 * 2048) by (nonlinear_arith)
                    requires
                        0 <= d <= 9_007_199_254_740_992,
                        0 <= unit <= 2048,
                ;
                lemma_pow2_adds(shift as nat, 1074);
                assert(d * x == (d * unit) * y + 0) by (nonlinear_arith)
                    requires
                        x == unit * y,
                ;
                lemma_fundamental_div_mod_converse(self.units(), y, d * unit, 0);
            }
            let long: u128 = self.digits as u128 * unit;
            return if long <= u64::MAX as u128 {
                long as u64
            } else {
                u64::MAX
            };
        }
        let shift: u32 = UNIT_PLACES - self.places;
        let ghost d = self.digits as int;
        let ghost z = pow2(shift as nat) as int;
        proof {
            lemma_pow2_adds(shift as nat, self.places as nat);
            lemma_pow2_pos(shift as nat);
            lemma_fundamental_div_mod(d, z);
            let q = d / z;
            let r = d % z;
            assert(d * x == q * y + r * x && 0 <= r * x < y) by (nonlinear_arith)
                requires
                    d == z * q + r,
                    0 <= r < z,
                    y == z * x,
                    x > 0,
            ;
            lemma_fundamental_div_mod_converse(self.units(), y, q, r * x);
        }
        if shift >= 64 {
            proof {
                lemma2_to64();
                lemma_more_places(1, 64, shift as nat);
                lemma_fundamental_div_mod_converse(d, z, 0, d);
            }
            return 0;
        }
        let unit: u128 = power_of_two(shift);
        let q: u128 = self.digits as u128 / unit;
        proof {
            assert(q <= self.digits) by (nonlinear_arith)
                requires
                    d == unit * q + d % z,
                    d == self.digits,
                    unit >= 1,
                    d % z >= 0,
                    q >= 0,
            ;
        }
        q as u64
    }

    /// A number with that many places is at least 2 to the power of 64.
    proof fn lemma_is_long(self)
        requires
            self.well_formed(),
            self.places >= 1086,
        ensures
            self.units() >= 0x1_0000_0000_0000_0000 * pow2(1074),
    {
        let x = pow2(self.places as nat) as int;
        lemma2_to64();
        lemma2_to64_rest();
        lemma_more_places(1, 1086, self.places as nat);
        lemma_pow2_adds(12, 1074);
        let d = self.digits as int;
        assert(d * x >= 4_503_599_627_370_496 * x) by (nonlinear_arith)
            requires
                d >= 4_503_599_627_370_496,
                x > 0,
        ;
    }
}

/// Without its places beyond the first 53, a number has 53 binary digits.
proof fn lemma_quotient(p: int, t: nat)
    requires
        0 <= p < pow2(t + 53),
        t == 0 || pow2(t + 52) <= p,
    ensures
        0 <= p / (pow2(t) as int) < LIMIT,
        t == 0 ==> p / (pow2(t) as int) == p,
        t > 0 ==> p / (pow2(t) as int) >= LEAST,
{
    let x = pow2(t) as int;
    let q = p / x;
    lemma_pow2_pos(t);
    lemma2_to64();
    lemma2_to64_rest();
    lemma_pow2_adds(t, 53);
    lemma_pow2_adds(t, 52);
    lemma_fundamental_div_mod(p, x);
    assert(0 <= q < LIMIT && (x * LEAST <= p ==> q >= LEAST)) by (nonlinear_arith)
        requires
            p == x * q + p % x,
            0 <= p % x < x,
            0 <= p < x * LIMIT,
            x > 0,
            LEAST == 4_503_599_627_370_496,
            LIMIT == 9_007_199_254_740_992,
    ;
    if t == 0 {
        lemma_fundamental_div_mod_converse(p, 1, p, 0);
    }
}

} // verus!
