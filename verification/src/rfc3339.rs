//! Points in time, written as RFC 3339 has it.
use vstd::prelude::*;
use vstd::utf8::is_ascii_chars;

use crate::civil::{civil_of, CivilTime};
use crate::text::is_digit;
use crate::time::{floor_second, Timestamp};

verus! {

/// The last `width` decimal digits of a number, with leading zeros.
pub open spec fn padded(n: int, width: nat) -> Seq<char>
    decreases width,
{
    if width == 0 {
        Seq::empty()
    } else {
        padded(n / 10, (width - 1) as nat).push((n % 10 + '0' as int) as char)
    }
}

/// `s` without the zeros at its end.
pub open spec fn without_trailing_zeros(s: Seq<char>) -> Seq<char>
    decreases s.len(),
{
    if s.len() > 0 && s.last() == '0' {
        without_trailing_zeros(s.drop_last())
    } else {
        s
    }
}

/// A date: the year in four digits, or in six and with a sign if it is negative, the month and
/// the day.
pub open spec fn date_text(c: CivilTime) -> Seq<char> {
    let year = if c.year < 0 {
        seq!['-', '0', '0'] + padded(-c.year, 4)
    } else {
        padded(c.year as int, 4)
    };
    year + seq!['-'] + padded(c.month as int, 2) + seq!['-'] + padded(c.day as int, 2)
}

/// A time of day, and as many digits of the fraction of its second as it has.
pub open spec fn clock_text(c: CivilTime, nanos: int) -> Seq<char> {
    let clock = padded(c.hour as int, 2) + seq![':'] + padded(c.minute as int, 2) + seq![':']
        + padded(c.second as int, 2);
    if nanos == 0 {
        clock
    } else {
        clock + seq!['.'] + without_trailing_zeros(padded(nanos, 9))
    }
}

/// A point in time, given in nanoseconds since 1970-01-01T00:00:00Z, written in UTC.
pub open spec fn rfc3339_text(nanos: int) -> Seq<char> {
    let c = civil_of(floor_second(nanos));
    date_text(c) + seq!['T'] + clock_text(c, nanos % 1_000_000_000) + seq!['Z']
}

/// `<jiff::Timestamp as Display>::fmt`: the point in time as RFC 3339 has it, in UTC. The year has
/// four digits; a negative one has a sign and six. The fraction of the second is left out if it is
/// zero, and else has no zeros at its end.
#[verifier::external_body]
pub(crate) fn print_timestamp(t: Timestamp) -> (r: String)
    ensures
        r@ == rfc3339_text(t@),
{
    jiff::Timestamp::new(t.as_second(), t.subsec_nanosecond()).unwrap().to_string()
}

/// A padded number has as many digits as it was padded to.
proof fn lemma_padded(n: int, width: nat)
    ensures
        padded(n, width).len() == width,
        forall|i: int| 0 <= i < width ==> is_digit(#[trigger] padded(n, width)[i]),
    decreases width,
{
    if width > 0 {
        lemma_padded(n / 10, (width - 1) as nat);
    }
}

/// A number without the zeros at its end has digits only.
proof fn lemma_without_trailing_zeros(s: Seq<char>)
    requires
        forall|i: int| 0 <= i < s.len() ==> is_digit(#[trigger] s[i]),
    ensures
        forall|i: int|
            0 <= i < without_trailing_zeros(s).len() ==> is_digit(
                #[trigger] without_trailing_zeros(s)[i],
            ),
    decreases s.len(),
{
    if s.len() > 0 && s.last() == '0' {
        assert forall|i: int| 0 <= i < s.drop_last().len() implies is_digit(
            #[trigger] s.drop_last()[i],
        ) by {
            assert(is_digit(s[i]));
        }
        lemma_without_trailing_zeros(s.drop_last());
        assert(without_trailing_zeros(s) == without_trailing_zeros(s.drop_last()));
    } else {
        assert(without_trailing_zeros(s) == s);
    }
}

/// The text of a point in time is ASCII and has at least 20 characters. With a year that is not
/// negative, the time of day stands from the twelfth character on; else three further on.
pub(crate) proof fn lemma_rfc3339_text(nanos: int, c: CivilTime)
    requires
        c.valid(),
        civil_of(floor_second(nanos)) == c,
    ensures
        ({
            let s = rfc3339_text(nanos);
            let shift = if c.year < 0 {
                3int
            } else {
                0
            };
            &&& s.len() >= 20 + shift
            &&& is_ascii_chars(s)
            &&& is_digit(s[8 + shift])
            &&& is_digit(s[9 + shift])
            &&& s[10 + shift] == 'T'
            &&& is_digit(s[11 + shift])
            &&& is_digit(s[12 + shift])
            &&& s[13 + shift] == ':'
            &&& is_digit(s[14 + shift])
            &&& is_digit(s[15 + shift])
        }),
{
    lemma_padded(c.year as int, 4);
    lemma_padded(-c.year, 4);
    lemma_padded(c.month as int, 2);
    lemma_padded(c.day as int, 2);
    lemma_padded(c.hour as int, 2);
    lemma_padded(c.minute as int, 2);
    lemma_padded(c.second as int, 2);
    let fraction = nanos % 1_000_000_000;
    lemma_padded(fraction, 9);
    lemma_without_trailing_zeros(padded(fraction, 9));
    let date = date_text(c);
    let clock = clock_text(c, fraction);
    let shift = if c.year < 0 {
        3int
    } else {
        0
    };
    assert(date.len() == 10 + shift);
    assert(clock.len() >= 8);
    assert(date[8 + shift] == padded(c.day as int, 2)[0]);
    assert(date[9 + shift] == padded(c.day as int, 2)[1]);
    assert(clock[0] == padded(c.hour as int, 2)[0]);
    assert(clock[1] == padded(c.hour as int, 2)[1]);
    assert(clock[2] == ':');
    assert(clock[3] == padded(c.minute as int, 2)[0]);
    assert(clock[4] == padded(c.minute as int, 2)[1]);
    assert forall|i: int| 0 <= i < date.len() implies (#[trigger] date[i]) as int <= 127 by {}
    assert forall|i: int| 0 <= i < clock.len() implies (#[trigger] clock[i]) as int <= 127 by {}
    let s = rfc3339_text(nanos);
    assert forall|i: int| 0 <= i < s.len() implies (#[trigger] s[i]) as int <= 127 by {
        if i < date.len() {
            assert(s[i] == date[i]);
        } else if 0 < i - date.len() <= clock.len() {
            assert(s[i] == clock[i - date.len() - 1]);
        }
    }
}

} // verus!
