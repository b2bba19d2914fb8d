//! The delay of each start: spread by a hash, and the same each time.
use std::time::Duration;

use vstd::prelude::*;
use vstd::utf8::{encode_utf8, is_ascii_chars, is_ascii_chars_encode_utf8};

use crate::civil::{civil_of, lemma_civil_of, CivilTime};
use crate::rfc3339::{lemma_rfc3339_text, print_timestamp, rfc3339_text};
use crate::text::is_digit;
use crate::time::{
    duration_nanos, floor_second, from_nanos, in_time_range, total_nanos, Timestamp,
};
use crate::zone::{local_time, utc};

verus! {

// ---------------------------------------------------------------------------
// The delay
// ---------------------------------------------------------------------------

/// The longest delay in milliseconds: the whole milliseconds of the bound, but no more than 32 bits
/// hold.
pub open spec fn bound_ms(max: int) -> int {
    let ms = max / 1_000_000;
    if ms > u32::MAX {
        u32::MAX as int
    } else {
        ms
    }
}

/// The delay in milliseconds: the part of the bound that the fingerprint is of 2 to the power of
/// 32.
pub open spec fn delay_ms(fingerprint: u32, max: int) -> int {
    fingerprint * bound_ms(max) / 0x1_0000_0000
}

/// A point in time with its delay. Without a bound there is no delay, nor beyond the end of time.
pub open spec fn delayed(nominal: int, max: int, fingerprint: u32) -> int {
    let late = nominal + delay_ms(fingerprint, max) * 1_000_000;
    if max == 0 || !in_time_range(late) {
        nominal
    } else {
        late
    }
}

/// What is hashed: the text of the point in time, as RFC 3339 has it, and the seed.
pub open spec fn hashed_bytes(seed: Seq<char>, nominal: int) -> Seq<u8> {
    encode_utf8(rfc3339_text(nominal)) + encode_utf8(seed)
}

// ---------------------------------------------------------------------------
// The hash
// ---------------------------------------------------------------------------

/// The FarmHash fingerprint of some bytes.
pub uninterp spec fn fingerprint32(bytes: Seq<u8>) -> u32;

/// The number that four bytes from place `i` on stand for, the lowest first.
pub open spec fn word(bytes: Seq<u8>, i: int) -> int {
    bytes[i] + bytes[i + 1] * 0x100 + bytes[i + 2] * 0x1_0000 + bytes[i + 3] * 0x100_0000
}

/// Whether the sums that the fingerprint of some bytes is made of fit in 32 bits, where they are
/// not meant to wrap around. Up to 4 bytes, and beyond 24, there are no such sums.
pub open spec fn sums_fit(bytes: Seq<u8>) -> bool {
    let n = bytes.len() as int;
    if 5 <= n <= 12 {
        let middle = if n >= 8 {
            4int
        } else {
            0
        };
        &&& word(bytes, 0) + n <= u32::MAX
        &&& word(bytes, n - 4) + 5 * n <= u32::MAX
        &&& word(bytes, middle) + 9 <= u32::MAX
    } else if 13 <= n <= 24 {
        (word(bytes, n / 2) * 0xcc9e_2d51) % 0x1_0000_0000 + n <= u32::MAX
    } else {
        true
    }
}

/// `farmhash::fingerprint32`: the 32 bit fingerprint of the bytes, and of nothing else. It panics
/// where one of its plain sums does not fit, if it was compiled with overflow checks.
#[verifier::external_body]
fn farmhash_fingerprint32(bytes: &[u8]) -> (r: u32)
    requires
        sums_fit(bytes@),
    ensures
        r == fingerprint32(bytes@),
{
    farmhash::fingerprint32(bytes)
}

/// What is hashed for a start has sums that fit, whatever the time and the seed: only the digits
/// of the time of day, or of a day and its hour, enter one.
proof fn lemma_sums_fit(seed: Seq<char>, nominal: int, c: CivilTime)
    requires
        c.valid(),
        civil_of(floor_second(nominal)) == c,
    ensures
        sums_fit(hashed_bytes(seed, nominal)),
{
    let text = rfc3339_text(nominal);
    lemma_rfc3339_text(nominal, c);
    let shift = if c.year < 0 {
        3int
    } else {
        0
    };
    lemma_timed_text_fits(text, shift, encode_utf8(seed));
}

/// A text with a time of day at its place, followed by any bytes, has sums that fit.
proof fn lemma_timed_text_fits(text: Seq<char>, shift: int, rest: Seq<u8>)
    requires
        shift == 0 || shift == 3,
        text.len() >= 20 + shift,
        is_ascii_chars(text),
        is_digit(text[8 + shift]),
        is_digit(text[9 + shift]),
        text[10 + shift] == 'T',
        is_digit(text[11 + shift]),
        is_digit(text[12 + shift]),
        text[13 + shift] == ':',
        is_digit(text[14 + shift]),
        is_digit(text[15 + shift]),
    ensures
        sums_fit(encode_utf8(text) + rest),
{
    let bytes = encode_utf8(text) + rest;
    let n = bytes.len() as int;
    is_ascii_chars_encode_utf8(text);
    if n <= 24 {
        let i = n / 2;
        assert(bytes[i] == text[i] as u8);
        assert(bytes[i + 1] == text[i + 1] as u8);
        assert(bytes[i + 2] == text[i + 2] as u8);
        assert(bytes[i + 3] == text[i + 3] as u8);
        assert(i == 10 || i == 11 || i == 12);
        lemma_digits_fit(
            bytes[i] as u64,
            bytes[i + 1] as u64,
            bytes[i + 2] as u64,
            bytes[i + 3] as u64,
        );
    }
}

/// Whether a byte is a decimal digit.
spec fn digit_byte(b: u64) -> bool {
    48 <= b <= 57
}

/// None of the words `Thh:`, `hh:m`, `h:mm`, `ddTh` and `dThh` makes a sum that does not fit.
proof fn lemma_digits_fit(a: u64, b: u64, c: u64, d: u64)
    requires
        ({
            ||| a == 84 && digit_byte(b) && digit_byte(c) && d == 58
            ||| digit_byte(a) && digit_byte(b) && c == 58 && digit_byte(d)
            ||| digit_byte(a) && b == 58 && digit_byte(c) && digit_byte(d)
            ||| digit_byte(a) && digit_byte(b) && c == 84 && digit_byte(d)
            ||| digit_byte(a) && b == 84 && digit_byte(c) && digit_byte(d)
        }),
    ensures
        ((a + b * 0x100 + c * 0x1_0000 + d * 0x100_0000) * 0xcc9e_2d51) % 0x1_0000_0000 + 24
            <= u32::MAX,
{
    assert(((a + b * 0x100 + c * 0x1_0000 + d * 0x100_0000) * 0xcc9e_2d51) % 0x1_0000_0000 + 24
        <= 0xffff_ffff) by (bit_vector)
        requires
            (a == 84 && 48 <= b && b <= 57 && 48 <= c && c <= 57 && d == 58) || (48 <= a && a <= 57
                && 48 <= b && b <= 57 && c == 58 && 48 <= d && d <= 57) || (48 <= a && a <= 57 && b
                == 58 && 48 <= c && c <= 57 && 48 <= d && d <= 57) || (48 <= a && a <= 57 && 48 <= b
                && b <= 57 && c == 84 && 48 <= d && d <= 57) || (48 <= a && a <= 57 && b == 84 && 48
                <= c && c <= 57 && 48 <= d && d <= 57),
    ;
}

/// Appends some bytes.
fn push_bytes(buf: &mut Vec<u8>, bytes: &[u8])
    ensures
        final(buf)@ == old(buf)@ + bytes@,
{
    let mut i: usize = 0;
    assert(old(buf)@ + bytes@.take(0) == old(buf)@);
    while i < bytes.len()
        invariant
            i <= bytes.len(),
            buf@ == old(buf)@ + bytes@.take(i as int),
        decreases bytes.len() - i,
    {
        buf.push(bytes[i]);
        i = i + 1;
        assert(bytes@.take(i as int) == bytes@.take(i - 1).push(bytes@[i - 1]));
    }
    assert(bytes@.take(bytes@.len() as int) == bytes@);
}

/// The fingerprint of a point in time and a seed.
pub fn fingerprint(seed: &str, nominal: Timestamp) -> (r: u32)
    ensures
        r == fingerprint32(hashed_bytes(seed@, nominal@)),
{
    let text = print_timestamp(nominal);
    let mut buf: Vec<u8> = Vec::new();
    push_bytes(&mut buf, text.as_str().as_bytes());
    push_bytes(&mut buf, seed.as_bytes());
    assert(buf@ == hashed_bytes(seed@, nominal@));
    let shown = local_time(&utc(), nominal.second_floor());
    proof {
        lemma_civil_of(shown);
        lemma_sums_fit(seed@, nominal@, shown);
    }
    farmhash_fingerprint32(buf.as_slice())
}

/// The point in time with the delay that a fingerprint gives it.
pub fn delay(nominal: Timestamp, max_jitter: Duration, fingerprint: u32) -> (r: Timestamp)
    ensures
        r@ == delayed(nominal@, duration_nanos(max_jitter), fingerprint),
{
    let max: u128 = total_nanos(max_jitter);
    if max == 0 {
        return nominal;
    }
    let ms: u128 = max / 1_000_000;
    let max_ms: u64 = if ms > u32::MAX as u128 {
        u32::MAX as u64
    } else {
        ms as u64
    };
    proof {
        lemma_delay_fits(fingerprint, max_ms as int);
    }
    let jitter_ms: u64 = (fingerprint as u64 * max_ms) / 0x1_0000_0000;
    match nominal.checked_add(from_nanos(jitter_ms as u128 * 1_000_000)) {
        Some(t) => t,
        None => nominal,
    }
}

/// A part of a bound is less than the bound.
proof fn lemma_delay_fits(fingerprint: u32, max_ms: int)
    requires
        0 <= max_ms <= u32::MAX,
    ensures
        0 <= fingerprint * max_ms <= u64::MAX,
        0 <= fingerprint * max_ms / 0x1_0000_0000 <= max_ms,
        max_ms > 0 ==> fingerprint * max_ms / 0x1_0000_0000 < max_ms,
{
    assert(0 <= fingerprint * max_ms <= 0xffff_ffff * max_ms) by (nonlinear_arith)
        requires
            0 <= fingerprint <= 0xffff_ffff,
            0 <= max_ms,
    ;
}

/// Delays a point in time by less than `max_jitter`: by the part of it that the FarmHash
/// fingerprint of the time and the seed gives.
pub fn add_jitter(seed: &str, nominal: Timestamp, max_jitter: Duration) -> (r: Timestamp)
    ensures
        r@ == delayed(
            nominal@,
            duration_nanos(max_jitter),
            fingerprint32(hashed_bytes(seed@, nominal@)),
        ),
{
    if total_nanos(max_jitter) == 0 {
        return nominal;
    }
    delay(nominal, max_jitter, fingerprint(seed, nominal))
}

// ---------------------------------------------------------------------------
// Laws
// ---------------------------------------------------------------------------

/// A delay is never negative, and less than its bound.
pub proof fn law_delay_is_less_than_the_bound(nominal: int, max: int, fingerprint: u32)
    requires
        max >= 0,
    ensures
        nominal <= delayed(nominal, max, fingerprint),
        max > 0 ==> delayed(nominal, max, fingerprint) < nominal + max,
        max == 0 ==> delayed(nominal, max, fingerprint) == nominal,
{
    lemma_delay_fits(fingerprint, bound_ms(max));
}

} // verus!
