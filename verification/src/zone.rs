//! Time zones, as the jiff crate knows them.
use std::time::Duration;

use jiff::tz::TimeZone;
use moka::sync::Cache;
use vstd::prelude::*;

use crate::civil::{day_number, month_length, weekday_of, year_start, CivilTime};
use crate::text::same_letters;
use crate::time::{duration_nanos, MAX_SECOND, MIN_SECOND};

verus! {

// ---------------------------------------------------------------------------
// What a time zone holds
// ---------------------------------------------------------------------------

/// `jiff::tz::TimeZone`. Nothing is seen inside but what [`zone_offsets`] and
/// [`zone_transitions`] give.
#[verifier::external_type_specification]
#[verifier::external_body]
pub struct ExTimeZone(TimeZone);

/// For each whole second since 1970-01-01T00:00:00Z, how many seconds the zone's clocks are then
/// ahead of UTC.
pub uninterp spec fn zone_offsets(tz: TimeZone) -> Map<int, int>;

/// The zone's identifier in the IANA database, as `jiff::tz::TimeZone::iana_name` gives it, if it
/// has one.
pub uninterp spec fn zone_identifier(tz: TimeZone) -> Option<Seq<char>>;

/// For each whole second since 1970-01-01T00:00:00Z, the second of the transition that the zone
/// gives as the next one.
pub uninterp spec fn zone_transitions(tz: TimeZone) -> Map<int, Option<int>>;

/// Whether the zone's clocks always show UTC.
pub open spec fn keeps_utc(tz: TimeZone) -> bool {
    forall|s: int| MIN_SECOND <= s <= MAX_SECOND ==> #[trigger] zone_offsets(tz)[s] == 0
}

/// What the zone's clocks show at second `s`, as the count of a civil time.
pub open spec fn local_count(tz: TimeZone, s: int) -> int {
    s + zone_offsets(tz)[s]
}

/// Whether second `k` is one that the clocks reach from second `s` without a transition, given
/// the transition that comes next after `s`.
pub open spec fn undisturbed(next: Option<int>, s: int, k: int) -> bool {
    next matches Some(t) ==> t <= s || k < t
}

/// Whether, from second `from` to second `to`, the zone's clocks are less than 26 hours off UTC,
/// and change only at the zone's transitions and where a year begins in UTC.
pub open spec fn orderly_between(tz: TimeZone, from: int, to: int) -> bool {
    &&& forall|s: int|
        from <= s <= to && MIN_SECOND <= s <= MAX_SECOND ==> -93_600 < #[trigger] zone_offsets(
            tz,
        )[s] < 93_600
    &&& forall|y: int, s: int, k: int|
        #![trigger year_start(y), zone_offsets(tz)[s], zone_offsets(tz)[k]]
        from <= s <= k <= to && MIN_SECOND <= s && k <= MAX_SECOND && year_start(y) <= s && k
            < year_start(y + 1) && undisturbed(zone_transitions(tz)[s], s, k) ==> zone_offsets(
            tz,
        )[k] == zone_offsets(tz)[s]
}

/// Whether the zone's clocks are always less than 26 hours off UTC, and change only at the
/// zone's transitions and where a year begins in UTC.
///
/// This is how the clocks of a region are kept. A zone read from transitions that are out of
/// order need not be of this kind.
pub open spec fn orderly(tz: TimeZone) -> bool {
    orderly_between(tz, MIN_SECOND as int, MAX_SECOND as int)
}

/// A zone whose clocks always show UTC is orderly.
pub proof fn law_utc_is_orderly(tz: TimeZone)
    requires
        keeps_utc(tz),
    ensures
        orderly(tz),
{
}

/// A zone that is orderly for a time is so for any part of it.
pub proof fn law_orderly_in_part(tz: TimeZone, from: int, to: int, first: int, last: int)
    requires
        orderly_between(tz, from, to),
        from <= first || from <= MIN_SECOND,
        last <= to || to >= MAX_SECOND,
    ensures
        orderly_between(tz, first, last),
{
}

// ---------------------------------------------------------------------------
// Calls on a time zone
// ---------------------------------------------------------------------------

/// `<jiff::tz::TimeZone as Clone>::clone`: another handle on the same zone.
pub assume_specification[ <TimeZone as Clone>::clone ](tz: &TimeZone) -> (r: TimeZone)
    ensures
        r == *tz,
;

/// `jiff::tz::TimeZone::UTC`: a zone whose offset is always zero.
#[verifier::external_body]
pub(crate) fn utc() -> (r: TimeZone)
    ensures
        keeps_utc(r),
{
    TimeZone::UTC
}

/// `jiff::Timestamp::to_zoned` and `jiff::Zoned::datetime`: the date and the time of day that
/// the zone's clocks show at a whole second. They are those of the second, moved by the zone's
/// offset, which is always less than 26 hours.
#[verifier::external_body]
pub(crate) fn local_time(tz: &TimeZone, second: i64) -> (r: CivilTime)
    requires
        MIN_SECOND <= second <= MAX_SECOND,
    ensures
        r.valid(),
        -9999 <= r.year <= 9999,
        r.count() == local_count(*tz, second as int),
        -93_600 < r.count() - second < 93_600,
{
    let timestamp = jiff::Timestamp::from_second(second).unwrap();
    let shown = timestamp.to_zoned(tz.clone()).datetime();
    CivilTime {
        year: shown.year() as i32,
        month: shown.month() as i32,
        day: shown.day() as i32,
        hour: shown.hour() as i32,
        minute: shown.minute() as i32,
        second: shown.second() as i32,
    }
}

/// `jiff::tz::TimeZone::following`: the whole second of the transition that the zone gives as
/// the next one after a second, if it gives one. It need not come later: a zone without a rule
/// for the future repeats its last transition.
#[verifier::external_body]
pub(crate) fn next_transition(tz: &TimeZone, second: i64) -> (r: Option<i64>)
    requires
        MIN_SECOND <= second <= MAX_SECOND,
    ensures
        match r {
            Some(t) => zone_transitions(*tz)[second as int] == Some(t as int) && MIN_SECOND <= t
                <= MAX_SECOND,
            None => zone_transitions(*tz)[second as int] is None,
        },
{
    let timestamp = jiff::Timestamp::from_second(second).unwrap();
    tz.following(timestamp).next().map(|t| t.timestamp().as_second())
}

/// `jiff::civil::Date::weekday` and `jiff::civil::Weekday::to_sunday_zero_offset`: the day of the
/// week of a date, 0 is Sunday.
#[verifier::external_body]
pub(crate) fn date_weekday(y: i32, mo: i32, d: i32) -> (r: i32)
    requires
        -9999 <= y <= 9999,
        1 <= mo <= 12,
        1 <= d <= month_length(y as int, mo as int),
    ensures
        r == weekday_of(day_number(y as int, mo as int, d as int)),
{
    let date = jiff::civil::Date::new(y as i16, mo as i8, d as i8).unwrap();
    date.weekday().to_sunday_zero_offset() as i32
}

// ---------------------------------------------------------------------------
// Loading a time zone
// ---------------------------------------------------------------------------

/// What `jiff::tz::TimeZone::tzif` reads: the offsets and the transitions of the zone that data
/// in the TZif format describe, or in words why they describe none.
pub uninterp spec fn tzif_reading(name: Seq<char>, data: Seq<u8>) -> Result<
    (Map<int, int>, Map<int, Option<int>>),
    Seq<char>,
>;

/// `jiff::tz::TimeZone::tzif`: the zone that data in the TZif format describe, identified by the
/// name given.
#[verifier::external_body]
pub(crate) fn zone_from_tzif(name: &str, data: &Vec<u8>) -> (r: Result<TimeZone, String>)
    ensures
        match r {
            Ok(tz) => tzif_reading(name@, data@) == Ok::<
                (Map<int, int>, Map<int, Option<int>>),
                Seq<char>,
            >((zone_offsets(tz), zone_transitions(tz))) && zone_identifier(tz) == Some(name@),
            Err(e) => tzif_reading(name@, data@) == Err::<
                (Map<int, int>, Map<int, Option<int>>),
                Seq<char>,
            >(e@),
        },
{
    TimeZone::tzif(name, data).map_err(|e| e.to_string())
}

/// Whether a zone is one that goes by the name: its identifier is that name, but for capital and
/// small letters. The name `Etc/Unknown` stands for a zone without an identifier.
pub open spec fn goes_by(tz: TimeZone, name: Seq<char>) -> bool {
    match zone_identifier(tz) {
        Some(identifier) => same_letters(identifier, name),
        None => same_letters(name, "etc/unknown"@),
    }
}

/// `jiff::tz::TimeZone::get`: the zone of that name in the machine's time zone database. Names
/// are compared without regard to capital and small letters. Which zones there are, and what they
/// hold, is up to the machine; a zone found under the name UTC keeps UTC.
#[verifier::external_body]
fn zone_in_database(name: &str) -> (r: Result<TimeZone, String>)
    ensures
        r matches Ok(tz) ==> goes_by(tz, name@) && (same_letters(name@, "utc"@) ==> keeps_utc(tz)),
{
    TimeZone::get(name).map_err(|e| e.to_string())
}

/// What holds of every outcome of a search for the zone `name` in the database.
pub open spec fn found_in_database(name: Seq<char>, r: Result<TimeZone, String>) -> bool {
    match r {
        Ok(tz) => goes_by(tz, name) && (same_letters(name, "utc"@) ==> keeps_utc(tz)),
        Err(e) => exists|cause: Seq<char>|
            e@ == #[trigger] not_found_text(name, cause),
    }
}

/// What [`find_zone`] says of a zone that the database does not have, given the database's reason.
pub open spec fn not_found_text(name: Seq<char>, cause: Seq<char>) -> Seq<char> {
    "timezone '"@ + name + "': "@ + cause
}

/// Whether `r` is what the machine's time zone database answered under a name: its zone, or its
/// reason for having none, put into words.
pub closed spec fn is_looked_up(name: Seq<char>, r: Result<TimeZone, String>) -> bool {
    exists|asked: &str, answer: Result<TimeZone, String>|
        asked@ == name && #[trigger] call_ensures(zone_in_database, (asked,), answer) && match (
            answer,
            r,
        ) {
            (Ok(a), Ok(b)) => a == b,
            (Err(cause), Err(text)) => text@ == not_found_text(name, cause@),
            _ => false,
        }
}

/// Whether `r` is an answer that [`find_zone`] gave under a name.
pub open spec fn is_answer(name: Seq<char>, r: Result<TimeZone, String>) -> bool {
    exists|asked: &str, found: Result<TimeZone, String>|
        asked@ == name && #[trigger] call_ensures(find_zone, (asked,), found) && match (found, r) {
            (Ok(a), Ok(b)) => a == b,
            (Err(a), Err(b)) => a@ == b@,
            _ => false,
        }
}

/// The zone of that name in the machine's time zone database, or the reason why it is not there.
pub fn find_zone(name: &str) -> (r: Result<TimeZone, String>)
    ensures
        is_looked_up(name@, r),
        found_in_database(name@, r),
{
    let answer = zone_in_database(name);
    assert(call_ensures(zone_in_database, (name,), answer));
    match answer {
        Ok(tz) => Ok(tz),
        Err(cause) => {
            let text = "timezone '".to_owned().concat(name).concat("': ").concat(cause.as_str());
            assert(text@ == not_found_text(name@, cause@));
            Err(text)
        },
    }
}

// ---------------------------------------------------------------------------
// Remembering time zones
// ---------------------------------------------------------------------------

/// `moka::sync::Cache`, carried as it is.
#[verifier::external_type_specification]
#[verifier::external_body]
#[verifier::reject_recursive_types(K)]
#[verifier::reject_recursive_types(V)]
#[verifier::reject_recursive_types(S)]
pub struct ExCache<K, V, S>(Cache<K, V, S>);

/// The largest number of entries that a cache was made for.
pub uninterp spec fn cache_capacity(cache: Cache<String, Result<TimeZone, String>>) -> int;

/// For how many nanoseconds a cache was made to keep an entry.
pub uninterp spec fn cache_lifetime(cache: Cache<String, Result<TimeZone, String>>) -> int;

/// `moka::sync::Cache::builder`, with `max_capacity` and `time_to_live`: an empty cache with the
/// given limits. It panics on a lifetime of more than a thousand years.
#[verifier::external_body]
fn new_cache(capacity: u64, lifetime: Duration) -> (r: Cache<String, Result<TimeZone, String>>)
    requires
        duration_nanos(lifetime) <= 31_536_000_000_000_000_000,
    ensures
        cache_capacity(r) == capacity,
        cache_lifetime(r) == duration_nanos(lifetime),
{
    Cache::builder().max_capacity(capacity).time_to_live(lifetime).build()
}

/// Time zones that were searched for by name, found or not, remembered for a while.
pub struct ZoneCache {
    cache: Cache<String, Result<TimeZone, String>>,
}

impl ZoneCache {
    /// The largest number of names that are remembered.
    pub closed spec fn capacity(self) -> int {
        cache_capacity(self.cache)
    }

    /// For how many nanoseconds a name is remembered.
    pub closed spec fn lifetime(self) -> int {
        cache_lifetime(self.cache)
    }

    /// A cache that remembers nothing yet.
    pub fn new(capacity: u64, lifetime: Duration) -> (r: ZoneCache)
        requires
            duration_nanos(lifetime) <= 31_536_000_000_000_000_000,
        ensures
            r.capacity() == capacity,
            r.lifetime() == duration_nanos(lifetime),
    {
        ZoneCache { cache: new_cache(capacity, lifetime) }
    }

    /// `moka::sync::Cache::get_with`: what is remembered under the name, or else what
    /// [`find_zone`] finds now, which is then remembered. Nothing else ever enters the cache, so
    /// what comes back was found by [`find_zone`] under the same name. When that was, and hence
    /// what the database then held, is left open.
    #[verifier::external_body]
    pub(crate) fn get(&self, name: &str) -> (r: Result<TimeZone, String>)
        ensures
            is_answer(name@, r),
    {
        self.cache.get_with(name.to_string(), || find_zone(name))
    }
}

} // verus!
