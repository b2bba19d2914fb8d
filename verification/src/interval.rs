//! Fixed intervals.
use vstd::arithmetic::div_mod::{lemma_fundamental_div_mod, lemma_mod_multiples_vanish};
use vstd::prelude::*;

use crate::types::{IntervalSpec, IntervalView};

verus! {

/// The distance of two ticks in seconds: the whole seconds of the interval, at least 1.
pub open spec fn interval_seconds(iv: IntervalView) -> int {
    let secs = iv.interval / 1_000_000_000;
    if secs >= 1 {
        secs
    } else {
        1
    }
}

/// By how many seconds the ticks are moved: the whole seconds of the phase.
pub open spec fn phase_seconds(iv: IntervalView) -> int {
    let secs = iv.phase / 1_000_000_000;
    if secs >= 0 {
        secs
    } else {
        0
    }
}

/// Whether an interval ticks at second `t`.
pub open spec fn ticks(iv: IntervalView, t: int) -> bool {
    (t - phase_seconds(iv)) % interval_seconds(iv) == 0
}

/// The first tick after a second.
pub open spec fn next_tick(iv: IntervalView, after: int) -> int {
    ((after - phase_seconds(iv)) / interval_seconds(iv) + 1) * interval_seconds(iv)
        + phase_seconds(iv)
}

/// The next tick comes later, it is a tick, and no tick comes before it. It is no more than an
/// interval away.
pub proof fn law_next_tick_is_the_first(iv: IntervalView, after: int)
    ensures
        after < next_tick(iv, after) <= after + interval_seconds(iv),
        ticks(iv, next_tick(iv, after)),
        forall|t: int| after < t < next_tick(iv, after) ==> !#[trigger] ticks(iv, t),
{
    let d = interval_seconds(iv);
    let p = phase_seconds(iv);
    let q = (after - p) / d;
    let next = next_tick(iv, after);
    lemma_fundamental_div_mod(after - p, d);
    assert(next == p + d * q + d) by (nonlinear_arith)
        requires
            next == (q + 1) * d + p,
    ;
    assert((d * (q + 1)) % d == 0) by {
        lemma_mod_multiples_vanish(q + 1, 0, d);
    }
    assert(next - p == d * (q + 1)) by (nonlinear_arith)
        requires
            next == (q + 1) * d + p,
    ;
    assert forall|t: int| after < t < next implies !#[trigger] ticks(iv, t) by {
        if ticks(iv, t) {
            let k = (t - p) / d;
            lemma_fundamental_div_mod(t - p, d);
            assert(q < k && k < q + 1) by (nonlinear_arith)
                requires
                    d > 0,
                    t - p == d * k,
                    after - p == d * q + (after - p) % d,
                    0 <= (after - p) % d < d,
                    after < t < p + d * q + d,
            ;
        }
    }
}

/// The ticks of an interval come at equal distances.
pub proof fn law_ticks_are_evenly_spaced(iv: IntervalView, t: int)
    requires
        ticks(iv, t),
    ensures
        next_tick(iv, t) == t + interval_seconds(iv),
{
    let d = interval_seconds(iv);
    let p = phase_seconds(iv);
    lemma_fundamental_div_mod(t - p, d);
    assert(((t - p) / d + 1) * d + p == t + d) by (nonlinear_arith)
        requires
            t - p == d * ((t - p) / d),
    ;
}

/// The first tick after a second, if an `i64` can hold it.
pub fn checked_next_interval_time(iv: &IntervalSpec, after_secs: i64) -> (r: Option<i64>)
    ensures
        match r {
            Some(t) => t == next_tick(iv@, after_secs as int),
            None => next_tick(iv@, after_secs as int) > i64::MAX,
        },
{
    let whole: u64 = iv.interval.as_secs();
    let interval: i128 = if whole >= 1 {
        whole as i128
    } else {
        1
    };
    let phase: i128 = iv.phase.as_secs() as i128;
    let since: i128 = after_secs as i128 - phase;
    // Division that rounds down, also below zero.
    let count: i128 = if since >= 0 {
        since / interval
    } else {
        -((-since + interval - 1) / interval)
    };
    proof {
        law_next_tick_is_the_first(iv@, after_secs as int);
        lemma_fundamental_div_mod(since as int, interval as int);
        if since < 0 {
            lemma_rounding_down(since as int, interval as int);
        }
        assert(count == since as int / interval as int);
        assert((count + 1) * interval + phase == next_tick(iv@, after_secs as int));
        assert(-0x2_0000_0000_0000_0001 <= count <= 0x2_0000_0000_0000_0001) by (nonlinear_arith)
            requires
                interval >= 1,
                -0x2_0000_0000_0000_0000 <= since <= 0x2_0000_0000_0000_0000,
                since == interval * count + since as int % interval as int,
                0 <= since as int % interval as int,
                (since as int % interval as int) < interval,
        ;
        assert(-0x2_0000_0000_0000_0000 <= (count + 1) * interval <= 0x4_0000_0000_0000_0000)
            by (nonlinear_arith)
            requires
                1 <= interval <= 0xffff_ffff_ffff_ffff,
                -0x2_0000_0000_0000_0000 <= since <= 0x2_0000_0000_0000_0000,
                since == interval * count + since as int % interval as int,
                0 <= since as int % interval as int,
                (since as int % interval as int) < interval,
        ;
    }
    let next: i128 = (count + 1) * interval + phase;
    if next <= i64::MAX as i128 {
        Some(next as i64)
    } else {
        None
    }
}

/// Rounding a negative quotient down is rounding the positive one up.
proof fn lemma_rounding_down(a: int, d: int)
    requires
        a < 0,
        d > 0,
    ensures
        a / d == -((-a + d - 1) / d),
{
    let up = (-a + d - 1) / d;
    lemma_fundamental_div_mod(-a + d - 1, d);
    lemma_fundamental_div_mod(a, d);
    assert(a / d == -up) by (nonlinear_arith)
        requires
            d > 0,
            -a + d - 1 == d * up + (-a + d - 1) % d,
            0 <= (-a + d - 1) % d < d,
            a == d * (a / d) + a % d,
            0 <= a % d < d,
    ;
}

/// The first tick after a second: `((after - phase) / interval + 1) * interval + phase`, with a
/// division that rounds down.
pub fn next_interval_time(iv: &IntervalSpec, after_secs: i64) -> (r: i64)
    requires
        next_tick(iv@, after_secs as int) <= i64::MAX,
    ensures
        r == next_tick(iv@, after_secs as int),
{
    match checked_next_interval_time(iv, after_secs) {
        Some(t) => t,
        None => after_secs,
    }
}

} // verus!
