//! Points in time, and lengths of time.
use std::time::Duration;

use vstd::prelude::*;

verus! {

/// The earliest whole second that a [`Timestamp`] can hold: -009999-01-02T01:59:59Z.
pub const MIN_SECOND: i64 = -377_705_023_201;

/// The latest whole second that a [`Timestamp`] can hold: 9999-12-30T22:00:00Z.
pub const MAX_SECOND: i64 = 253_402_207_200;

// ---------------------------------------------------------------------------
// Lengths of time
// ---------------------------------------------------------------------------

/// The length of a `std::time::Duration` in nanoseconds.
pub uninterp spec fn duration_nanos(d: Duration) -> int;

/// `std::time::Duration::as_secs`: the number of whole seconds, without the fraction.
pub assume_specification[ Duration::as_secs ](d: &Duration) -> (secs: u64)
    ensures
        secs == duration_nanos(*d) / 1_000_000_000,
;

/// `std::time::Duration::subsec_nanos`: the fraction of a second, in nanoseconds.
pub assume_specification[ Duration::subsec_nanos ](d: &Duration) -> (nanos: u32)
    ensures
        nanos == duration_nanos(*d) % 1_000_000_000,
;

/// `std::time::Duration::new`: the sum of whole seconds and nanoseconds. Only a fraction below
/// one second is passed, so nothing is carried over and the call cannot overflow.
pub assume_specification[ Duration::new ](secs: u64, nanos: u32) -> (d: Duration)
    requires
        nanos < 1_000_000_000,
    ensures
        duration_nanos(d) == secs * 1_000_000_000 + nanos,
;

/// The length of `d` in nanoseconds.
pub fn total_nanos(d: Duration) -> (r: u128)
    ensures
        r == duration_nanos(d),
        r <= u64::MAX * 1_000_000_000 + 999_999_999,
{
    d.as_secs() as u128 * 1_000_000_000 + d.subsec_nanos() as u128
}

/// The duration of `nanos` nanoseconds.
pub fn from_nanos(nanos: u128) -> (r: Duration)
    requires
        nanos <= u64::MAX * 1_000_000_000 + 999_999_999,
    ensures
        duration_nanos(r) == nanos,
{
    Duration::new((nanos / 1_000_000_000) as u64, (nanos % 1_000_000_000) as u32)
}

// ---------------------------------------------------------------------------
// Points in time
// ---------------------------------------------------------------------------

/// Whether a number of nanoseconds since 1970-01-01T00:00:00Z can be held in a [`Timestamp`].
pub open spec fn in_time_range(nanos: int) -> bool {
    MIN_SECOND * 1_000_000_000 <= nanos <= MAX_SECOND * 1_000_000_000 + 999_999_999
}

/// The whole second of a point in time, with the fraction cut off: a time before 1970 moves
/// towards 1970.
pub open spec fn cut_second(nanos: int) -> int {
    if nanos >= 0 {
        nanos / 1_000_000_000
    } else {
        -((-nanos) / 1_000_000_000)
    }
}

/// The last whole second that is not after a point in time.
pub open spec fn floor_second(nanos: int) -> int {
    nanos / 1_000_000_000
}

/// A point in time, with a resolution of one nanosecond.
///
/// Its view is the number of nanoseconds since 1970-01-01T00:00:00Z.
#[derive(Debug, Clone, Copy, PartialEq, Eq, PartialOrd, Ord, Hash)]
pub struct Timestamp {
    second: i64,
    /// Has the sign of `second` where both differ from zero.
    nanosecond: i32,
}

impl View for Timestamp {
    type V = int;

    closed spec fn view(&self) -> int {
        self.second * 1_000_000_000 + self.nanosecond
    }
}

impl Timestamp {
    #[verifier::type_invariant]
    spec fn well_formed(self) -> bool {
        &&& in_time_range(self@)
        &&& -1_000_000_000 < self.nanosecond < 1_000_000_000
        &&& self.second > 0 ==> self.nanosecond >= 0
        &&& self.second < 0 ==> self.nanosecond <= 0
    }

    /// The point `nanos` nanoseconds after 1970-01-01T00:00:00Z, if it is in range.
    fn from_total_nanos(nanos: i128) -> (r: Option<Timestamp>)
        ensures
            r is Some <==> in_time_range(nanos as int),
            r matches Some(t) ==> t@ == nanos,
    {
        let lowest: i128 = MIN_SECOND as i128 * 1_000_000_000;
        let highest: i128 = MAX_SECOND as i128 * 1_000_000_000 + 999_999_999;
        if nanos < lowest || nanos > highest {
            return None;
        }
        if nanos >= 0 {
            Some(
                Timestamp {
                    second: (nanos / 1_000_000_000) as i64,
                    nanosecond: (nanos % 1_000_000_000) as i32,
                },
            )
        } else {
            let back: i128 = -nanos;
            Some(
                Timestamp {
                    second: -((back / 1_000_000_000) as i64),
                    nanosecond: -((back % 1_000_000_000) as i32),
                },
            )
        }
    }

    /// The point `second` seconds and `nanosecond` nanoseconds after 1970-01-01T00:00:00Z.
    ///
    /// `None` if `nanosecond` is a whole second or more, or if the sum is out of range.
    pub fn new(second: i64, nanosecond: i32) -> (r: Option<Timestamp>)
        ensures
            r is Some <==> -1_000_000_000 < nanosecond < 1_000_000_000 && in_time_range(
                second * 1_000_000_000 + nanosecond,
            ),
            r matches Some(t) ==> t@ == second * 1_000_000_000 + nanosecond,
    {
        if nanosecond <= -1_000_000_000 || nanosecond >= 1_000_000_000 {
            None
        } else {
            Timestamp::from_total_nanos(second as i128 * 1_000_000_000 + nanosecond as i128)
        }
    }

    /// The point `second` seconds after 1970-01-01T00:00:00Z, if it is in range.
    pub fn from_second(second: i64) -> (r: Option<Timestamp>)
        ensures
            r is Some <==> MIN_SECOND <= second <= MAX_SECOND,
            r matches Some(t) ==> t@ == second * 1_000_000_000,
    {
        Timestamp::new(second, 0)
    }

    /// The whole second, with the fraction cut off.
    pub fn as_second(self) -> (r: i64)
        ensures
            r == cut_second(self@),
            MIN_SECOND <= r <= MAX_SECOND,
            in_time_range(self@),
    {
        proof {
            use_type_invariant(&self);
        }
        self.second
    }

    /// The nanoseconds beyond [`Timestamp::as_second`]; negative for a fraction before 1970.
    pub fn subsec_nanosecond(self) -> (r: i32)
        ensures
            r == self@ - cut_second(self@) * 1_000_000_000,
            -1_000_000_000 < r < 1_000_000_000,
    {
        proof {
            use_type_invariant(&self);
        }
        self.nanosecond
    }

    /// The last whole second that is not after this point.
    pub fn second_floor(self) -> (r: i64)
        ensures
            r == floor_second(self@),
            MIN_SECOND <= r <= MAX_SECOND,
    {
        proof {
            use_type_invariant(&self);
        }
        if self.nanosecond < 0 {
            self.second - 1
        } else {
            self.second
        }
    }

    /// Whether this point has no fraction of a second.
    pub fn is_whole_second(self) -> (r: bool)
        ensures
            r == (self@ % 1_000_000_000 == 0),
    {
        proof {
            use_type_invariant(&self);
        }
        self.nanosecond == 0
    }

    /// Whether this point comes before `other`.
    pub fn is_before(self, other: Timestamp) -> (r: bool)
        ensures
            r == (self@ < other@),
    {
        proof {
            use_type_invariant(&self);
            use_type_invariant(&other);
        }
        self.second < other.second || (self.second == other.second && self.nanosecond
            < other.nanosecond)
    }

    /// The point `duration` later, if it is in range.
    pub fn checked_add(self, duration: Duration) -> (r: Option<Timestamp>)
        ensures
            r is Some <==> in_time_range(self@ + duration_nanos(duration)),
            r matches Some(t) ==> t@ == self@ + duration_nanos(duration),
    {
        proof {
            use_type_invariant(&self);
        }
        let nanos: i128 = self.second as i128 * 1_000_000_000 + self.nanosecond as i128;
        Timestamp::from_total_nanos(nanos + total_nanos(duration) as i128)
    }

    /// The point `duration` earlier, if it is in range.
    pub fn checked_sub(self, duration: Duration) -> (r: Option<Timestamp>)
        ensures
            r is Some <==> in_time_range(self@ - duration_nanos(duration)),
            r matches Some(t) ==> t@ == self@ - duration_nanos(duration),
    {
        proof {
            use_type_invariant(&self);
        }
        let nanos: i128 = self.second as i128 * 1_000_000_000 + self.nanosecond as i128;
        Timestamp::from_total_nanos(nanos - total_nanos(duration) as i128)
    }
}

} // verus!
