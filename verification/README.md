# temporal_scheduler

A schedule engine, verified with Verus. It answers two questions:

- When does a schedule fire next? A schedule is made of calendars, cron strings and fixed
  intervals, less the times of its exclusion calendars. `SpecBuilder` compiles it,
  `CompiledSpec::get_next_time` answers.
- What is to be done with starts that overlap? `process_buffer` decides.

```rust
use std::time::Duration;
use temporal_scheduler::{IntervalSpec, ScheduleSpec, SpecBuilder, Timestamp};

let spec = ScheduleSpec {
    interval: vec![IntervalSpec {
        interval: Duration::from_secs(3600),
        phase: Duration::ZERO,
    }],
    ..Default::default()
};
let compiled = SpecBuilder::new().new_compiled_spec(&spec).unwrap();
let after = Timestamp::from_second(1_700_000_000).unwrap();
let found = compiled.get_next_time("my-schedule-id", after);
// found.nominal is the time that matched, found.next the same with its delay.
```

## Layout

- `src/` is the library. Each module starts with the mathematical functions that its contracts
  speak of; the laws that relate several functions stand at its end, as proof functions whose
  names start with `law_`.
- `tests/` runs it.
- `app/` wraps it for callers that use jiff's timestamps and `std::error::Error`.

## What is taken on trust

- jiff knows the time zones. `src/zone.rs` says what is taken from it: what the clocks of a zone
  show at a second, which transition comes next, and the day of the week of a date. That the
  search for the next match passes over no second is proved where, up to that second, the zone's
  clocks change only at those transitions (`orderly_between`), as those of UTC always do.
- moka remembers the zones that were searched for by name.
- farmhash gives the fingerprint that spreads the starts. The library knows it as a function of
  the bytes, and nothing else about it. It adds some of those bytes up in plain `u64` sums; that
  these fit, for every time and every seed, is proved.
- jiff prints the times that are hashed. `src/rfc3339.rs` says how it writes them.

## Behaviour at the edges

- A schedule fires at whole seconds. Calendars and intervals go by the second that a point in time
  lies in, before 1970 as well as after.
- Nothing fires before a schedule's start, or at its end or after it.
- A phase is less than its interval.
- What is hashed for the delay is the time in RFC 3339 form, such as `2022-03-23T12:00:00Z`,
  followed by the seed.
- A number in a length of time is taken in double precision, and so are the hours and minutes in
  seconds; the seconds are rounded to the nearest nanosecond. All of this is computed, and proved,
  in integers: `src/double.rs` says how it rounds.
- An interval or a phase counts by its whole seconds, however long it is.
