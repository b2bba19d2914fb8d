//! A schedule engine: when a schedule fires next, and what to do with starts that overlap.
//!
//! | module        | what it holds                                                         |
//! |---------------|-----------------------------------------------------------------------|
//! | [`types`]     | the data of a schedule                                                |
//! | [`error`]     | what can be wrong with it                                             |
//! | [`time`]      | points in time and lengths of time                                    |
//! | [`civil`]     | dates and times of day, and how they follow each other                |
//! | [`zone`]      | time zones, from the jiff crate                                       |
//! | [`text`]      | text, taken apart and put together                                    |
//! | [`range`]     | calendar fields in text form, and what a calendar may hold            |
//! | [`double`]    | decimal numbers in double precision                                   |
//! | [`duration`]  | lengths of time in text form                                          |
//! | [`cron`]      | cron strings                                                          |
//! | [`calendar`]  | calendars, compiled for matching and for the search of the next match |
//! | [`rfc3339`]   | points in time, written as RFC 3339 has it                            |
//! | [`interval`]  | fixed intervals                                                       |
//! | [`jitter`]    | the delay of each start                                               |
//! | [`canonical`] | the canonical form of a schedule                                      |
//! | [`spec`]      | compiled schedules, and the next time at which one fires              |
//! | [`buffer`]    | what to do with starts that overlap                                   |
//! | [`laws`]      | what is promised, in terms of inputs and results                      |
pub mod buffer;
pub mod calendar;
pub mod canonical;
pub mod civil;
pub mod cron;
pub mod double;
pub mod duration;
pub mod error;
pub mod interval;
pub mod jitter;
pub mod laws;
pub mod range;
pub mod rfc3339;
pub mod spec;
pub mod text;
pub mod time;
pub mod types;
pub mod zone;

pub use buffer::{process_buffer, Overlappable, ProcessBufferResult};
pub use calendar::CompiledCalendar;
pub use canonical::{canonicalize_spec, clean_spec};
pub use cron::parse_cron_string;
pub use duration::parse_duration;
pub use error::SpecError;
pub use interval::next_interval_time;
pub use jitter::add_jitter;
pub use range::{
    make_range, parse_calendar_to_structured, validate_interval, validate_structured_calendar,
    ParseMode,
};
pub use spec::{CompiledSpec, SpecBuilder};
pub use time::Timestamp;
pub use types::{
    BufferedStart, CalendarSpec, GetNextTimeResult, IntervalSpec, Range, ScheduleOverlapPolicy,
    ScheduleSpec, StructuredCalendarSpec, MAX_CALENDAR_YEAR, MAX_COMMENT_LEN, MIN_CALENDAR_YEAR,
};
