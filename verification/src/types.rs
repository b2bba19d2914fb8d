//! The data of a schedule: what fires when, and what to do when starts overlap.
//!
//! ```text
//! ScheduleSpec
//! |- StructuredCalendarSpec[]   calendars, each field a list of ranges
//! |  `- Range[]
//! |- IntervalSpec[]             fixed intervals
//! |- CalendarSpec[]             calendars in text form
//! `- cron strings
//! ```
use std::time::Duration;

use vstd::prelude::*;

use crate::time::{duration_nanos, Timestamp};

verus! {

/// The smallest year that a calendar may name.
pub const MIN_CALENDAR_YEAR: i32 = 2000;

/// The largest year that a calendar may name; nothing fires after it.
pub const MAX_CALENDAR_YEAR: i32 = 2100;

/// The largest number of characters of a calendar's comment.
pub const MAX_COMMENT_LEN: usize = 200;

// ---------------------------------------------------------------------------
// Range
// ---------------------------------------------------------------------------

/// A range of values of one calendar field.
///
/// An `end` of 0 stands for the value of `start`, a `step` of 0 for a step of 1.
///
/// | text    | start | end | step | matches       |
/// |---------|-------|-----|------|---------------|
/// | `5`     | 5     | 0   | 0    | 5             |
/// | `1-5`   | 1     | 5   | 0    | 1, 2, 3, 4, 5 |
/// | `1-5/2` | 1     | 5   | 2    | 1, 3, 5       |
#[derive(Debug, Clone, Copy, PartialEq, Eq, Structural)]
pub struct Range {
    /// The first value.
    pub start: i32,
    /// The last value that may match; 0 stands for `start`.
    pub end: i32,
    /// The distance from one value to the next; 0 stands for 1.
    pub step: i32,
}

impl Range {
    /// The last value that may match.
    pub open spec fn last(self) -> int {
        if self.end == 0 {
            self.start as int
        } else {
            self.end as int
        }
    }

    /// The distance from one value to the next.
    pub open spec fn stride(self) -> int {
        if self.step == 0 {
            1
        } else {
            self.step as int
        }
    }

    /// Whether `v` is one of the values: from `start` on in steps, up to the last. A negative
    /// step leaves the first value only.
    pub open spec fn has(self, v: int) -> bool {
        &&& self.start <= v <= self.last()
        &&& if self.stride() > 0 {
            (v - self.start) % self.stride() == 0
        } else {
            v == self.start
        }
    }

    /// The range of the single value `start`.
    pub fn new(start: i32) -> (r: Range)
        ensures
            r == (Range { start: start, end: 0, step: 0 }),
    {
        Range { start, end: 0, step: 0 }
    }

    /// The last value that may match: `start` if `end` is 0.
    pub fn effective_end(&self) -> (r: i32)
        ensures
            r == self.last(),
    {
        if self.end == 0 {
            self.start
        } else {
            self.end
        }
    }

    /// The distance from one value to the next: 1 if `step` is 0.
    pub fn effective_step(&self) -> (r: i32)
        ensures
            r == self.stride(),
    {
        if self.step == 0 {
            1
        } else {
            self.step
        }
    }
}

/// Whether `v` is a value of one of the ranges.
pub open spec fn ranges_have(ranges: Seq<Range>, v: int) -> bool {
    exists|i: int| 0 <= i < ranges.len() && (#[trigger] ranges[i]).has(v)
}

/// A copy of a list of ranges.
pub fn copy_ranges(ranges: &Vec<Range>) -> (r: Vec<Range>)
    ensures
        r@ == ranges@,
{
    let mut r: Vec<Range> = Vec::new();
    let mut i: usize = 0;
    while i < ranges.len()
        invariant
            i <= ranges.len(),
            r@ == ranges@.take(i as int),
        decreases ranges.len() - i,
    {
        r.push(ranges[i]);
        i = i + 1;
        assert(ranges@.take(i as int) == ranges@.take(i - 1).push(ranges@[i - 1]));
    }
    assert(ranges@.take(ranges@.len() as int) == ranges@);
    r
}

// ---------------------------------------------------------------------------
// StructuredCalendarSpec
// ---------------------------------------------------------------------------

/// A calendar, each field a list of ranges. A time matches when every field matches.
#[derive(Debug, PartialEq, Eq)]
pub struct StructuredCalendarSpec {
    /// 0-59.
    pub second: Vec<Range>,
    /// 0-59.
    pub minute: Vec<Range>,
    /// 0-23.
    pub hour: Vec<Range>,
    /// 1-31.
    pub day_of_month: Vec<Range>,
    /// 1-12, 1 is January.
    pub month: Vec<Range>,
    /// 2000-2100; an empty list stands for all years.
    pub year: Vec<Range>,
    /// 0-6, 0 is Sunday.
    pub day_of_week: Vec<Range>,
    /// At most 200 characters.
    pub comment: String,
}

/// What a [`StructuredCalendarSpec`] says.
#[verifier::ext_equal]
pub struct StructuredCalendarView {
    pub second: Seq<Range>,
    pub minute: Seq<Range>,
    pub hour: Seq<Range>,
    pub day_of_month: Seq<Range>,
    pub month: Seq<Range>,
    pub year: Seq<Range>,
    pub day_of_week: Seq<Range>,
    pub comment: Seq<char>,
}

impl View for StructuredCalendarSpec {
    type V = StructuredCalendarView;

    open spec fn view(&self) -> StructuredCalendarView {
        StructuredCalendarView {
            second: self.second@,
            minute: self.minute@,
            hour: self.hour@,
            day_of_month: self.day_of_month@,
            month: self.month@,
            year: self.year@,
            day_of_week: self.day_of_week@,
            comment: self.comment@,
        }
    }
}

impl Clone for StructuredCalendarSpec {
    fn clone(&self) -> (r: StructuredCalendarSpec)
        ensures
            r@ == self@,
    {
        StructuredCalendarSpec {
            second: copy_ranges(&self.second),
            minute: copy_ranges(&self.minute),
            hour: copy_ranges(&self.hour),
            day_of_month: copy_ranges(&self.day_of_month),
            month: copy_ranges(&self.month),
            year: copy_ranges(&self.year),
            day_of_week: copy_ranges(&self.day_of_week),
            comment: self.comment.clone(),
        }
    }
}

impl Default for StructuredCalendarSpec {
    fn default() -> (r: StructuredCalendarSpec)
        ensures
            r@ == (StructuredCalendarView {
                second: Seq::empty(),
                minute: Seq::empty(),
                hour: Seq::empty(),
                day_of_month: Seq::empty(),
                month: Seq::empty(),
                year: Seq::empty(),
                day_of_week: Seq::empty(),
                comment: Seq::empty(),
            }),
    {
        StructuredCalendarSpec {
            second: Vec::new(),
            minute: Vec::new(),
            hour: Vec::new(),
            day_of_month: Vec::new(),
            month: Vec::new(),
            year: Vec::new(),
            day_of_week: Vec::new(),
            comment: String::new(),
        }
    }
}

/// What the calendars of a list say.
pub open spec fn structured_views(s: Seq<StructuredCalendarSpec>) -> Seq<StructuredCalendarView> {
    s.map_values(|c: StructuredCalendarSpec| c@)
}

// ---------------------------------------------------------------------------
// CalendarSpec
// ---------------------------------------------------------------------------

/// A calendar in text form: each field is written as in a crontab (`"5,7"`, `"*"`, `"1-5/2"`).
/// An empty field stands for its default.
#[derive(Debug, PartialEq, Eq)]
pub struct CalendarSpec {
    /// `"0"` by default.
    pub second: String,
    /// `"0"` by default.
    pub minute: String,
    /// `"0"` by default.
    pub hour: String,
    /// `"*"` by default.
    pub day_of_month: String,
    /// `"*"` by default.
    pub month: String,
    /// `"*"` by default.
    pub day_of_week: String,
    /// `"*"` by default.
    pub year: String,
    pub comment: String,
}

/// What a [`CalendarSpec`] says.
#[verifier::ext_equal]
pub struct CalendarView {
    pub second: Seq<char>,
    pub minute: Seq<char>,
    pub hour: Seq<char>,
    pub day_of_month: Seq<char>,
    pub month: Seq<char>,
    pub day_of_week: Seq<char>,
    pub year: Seq<char>,
    pub comment: Seq<char>,
}

impl View for CalendarSpec {
    type V = CalendarView;

    open spec fn view(&self) -> CalendarView {
        CalendarView {
            second: self.second@,
            minute: self.minute@,
            hour: self.hour@,
            day_of_month: self.day_of_month@,
            month: self.month@,
            day_of_week: self.day_of_week@,
            year: self.year@,
            comment: self.comment@,
        }
    }
}

impl Clone for CalendarSpec {
    fn clone(&self) -> (r: CalendarSpec)
        ensures
            r@ == self@,
    {
        CalendarSpec {
            second: self.second.clone(),
            minute: self.minute.clone(),
            hour: self.hour.clone(),
            day_of_month: self.day_of_month.clone(),
            month: self.month.clone(),
            day_of_week: self.day_of_week.clone(),
            year: self.year.clone(),
            comment: self.comment.clone(),
        }
    }
}

impl Default for CalendarSpec {
    fn default() -> (r: CalendarSpec)
        ensures
            r@ == (CalendarView {
                second: Seq::empty(),
                minute: Seq::empty(),
                hour: Seq::empty(),
                day_of_month: Seq::empty(),
                month: Seq::empty(),
                day_of_week: Seq::empty(),
                year: Seq::empty(),
                comment: Seq::empty(),
            }),
    {
        CalendarSpec {
            second: String::new(),
            minute: String::new(),
            hour: String::new(),
            day_of_month: String::new(),
            month: String::new(),
            day_of_week: String::new(),
            year: String::new(),
            comment: String::new(),
        }
    }
}

/// What the calendars of a list say.
pub open spec fn calendar_views(s: Seq<CalendarSpec>) -> Seq<CalendarView> {
    s.map_values(|c: CalendarSpec| c@)
}

// ---------------------------------------------------------------------------
// IntervalSpec
// ---------------------------------------------------------------------------

/// A fixed interval: every whole multiple of `interval` since 1970, moved by `phase`.
#[derive(Debug, Clone, Copy, PartialEq, Eq)]
pub struct IntervalSpec {
    /// At least one second.
    pub interval: Duration,
    /// Less than `interval`.
    pub phase: Duration,
}

/// What an [`IntervalSpec`] says, in nanoseconds.
pub struct IntervalView {
    pub interval: int,
    pub phase: int,
}

impl View for IntervalSpec {
    type V = IntervalView;

    open spec fn view(&self) -> IntervalView {
        IntervalView {
            interval: duration_nanos(self.interval),
            phase: duration_nanos(self.phase),
        }
    }
}

/// What the intervals of a list say.
pub open spec fn interval_views(s: Seq<IntervalSpec>) -> Seq<IntervalView> {
    s.map_values(|i: IntervalSpec| i@)
}

// ---------------------------------------------------------------------------
// ScheduleOverlapPolicy
// ---------------------------------------------------------------------------

/// What to do with a start that comes while an earlier one is still running.
#[derive(Debug, Clone, Copy, PartialEq, Eq, Hash, PartialOrd, Ord, Structural)]
pub enum ScheduleOverlapPolicy {
    /// Left open: the schedule's default applies.
    Unspecified,
    /// Drop the start.
    Skip,
    /// Keep one start waiting.
    BufferOne,
    /// Keep every start waiting.
    BufferAll,
    /// Cancel what is running, in favour of the start.
    CancelOther,
    /// Terminate what is running, in favour of the start.
    TerminateOther,
    /// Start at once, whatever is running.
    AllowAll,
}

impl ScheduleOverlapPolicy {
    /// The policy's number.
    pub open spec fn code(self) -> u8 {
        match self {
            ScheduleOverlapPolicy::Unspecified => 0,
            ScheduleOverlapPolicy::Skip => 1,
            ScheduleOverlapPolicy::BufferOne => 2,
            ScheduleOverlapPolicy::BufferAll => 3,
            ScheduleOverlapPolicy::CancelOther => 4,
            ScheduleOverlapPolicy::TerminateOther => 5,
            ScheduleOverlapPolicy::AllowAll => 6,
        }
    }

    /// The policy's number.
    pub fn number(self) -> (r: u8)
        ensures
            r == self.code(),
    {
        match self {
            ScheduleOverlapPolicy::Unspecified => 0,
            ScheduleOverlapPolicy::Skip => 1,
            ScheduleOverlapPolicy::BufferOne => 2,
            ScheduleOverlapPolicy::BufferAll => 3,
            ScheduleOverlapPolicy::CancelOther => 4,
            ScheduleOverlapPolicy::TerminateOther => 5,
            ScheduleOverlapPolicy::AllowAll => 6,
        }
    }

    /// `default` if the policy was left open, else the policy itself.
    pub fn resolve(self, default: ScheduleOverlapPolicy) -> (r: ScheduleOverlapPolicy)
        ensures
            r == (if self == ScheduleOverlapPolicy::Unspecified {
                default
            } else {
                self
            }),
    {
        match self {
            ScheduleOverlapPolicy::Unspecified => default,
            other => other,
        }
    }
}

// ---------------------------------------------------------------------------
// ScheduleSpec
// ---------------------------------------------------------------------------

/// When a schedule fires: at the times of its calendars and of its intervals, except at those
/// that an exclusion calendar matches.
///
/// [`crate::spec::canonicalize_spec`] turns calendars in text form and cron strings into
/// structured calendars and intervals.
#[derive(Debug, PartialEq)]
pub struct ScheduleSpec {
    pub structured_calendar: Vec<StructuredCalendarSpec>,
    /// Calendars of times that are left out.
    pub exclude_structured_calendar: Vec<StructuredCalendarSpec>,
    pub interval: Vec<IntervalSpec>,
    /// Such as `"23 5,7 * * *"`.
    pub cron_string: Vec<String>,
    pub calendar: Vec<CalendarSpec>,
    pub exclude_calendar: Vec<CalendarSpec>,
    /// Nothing fires before it.
    pub start_time: Option<Timestamp>,
    /// Nothing fires at it or after it.
    pub end_time: Option<Timestamp>,
    /// The bound of the deterministic delay of each start.
    pub jitter: Option<Duration>,
    /// The name of a time zone of the IANA database; UTC if empty.
    pub timezone_name: String,
    /// A time zone in the TZif format; it takes precedence over the name.
    pub timezone_data: Option<Vec<u8>>,
}

/// What a [`ScheduleSpec`] says: texts as rows of characters, times and lengths of time in
/// nanoseconds.
#[verifier::ext_equal]
pub struct ScheduleView {
    pub structured_calendar: Seq<StructuredCalendarView>,
    pub exclude_structured_calendar: Seq<StructuredCalendarView>,
    pub interval: Seq<IntervalView>,
    pub cron_string: Seq<Seq<char>>,
    pub calendar: Seq<CalendarView>,
    pub exclude_calendar: Seq<CalendarView>,
    pub start_time: Option<int>,
    pub end_time: Option<int>,
    pub jitter: Option<int>,
    pub timezone_name: Seq<char>,
    pub timezone_data: Option<Seq<u8>>,
}

/// The point in time, in nanoseconds, if there is one.
pub open spec fn time_view(t: Option<Timestamp>) -> Option<int> {
    match t {
        Some(t) => Some(t@),
        None => None,
    }
}

/// The length of time, in nanoseconds, if there is one.
pub open spec fn length_view(d: Option<Duration>) -> Option<int> {
    match d {
        Some(d) => Some(duration_nanos(d)),
        None => None,
    }
}

/// The bytes, if there are any.
pub open spec fn bytes_view(b: Option<Vec<u8>>) -> Option<Seq<u8>> {
    match b {
        Some(b) => Some(b@),
        None => None,
    }
}

impl View for ScheduleSpec {
    type V = ScheduleView;

    open spec fn view(&self) -> ScheduleView {
        ScheduleView {
            structured_calendar: structured_views(self.structured_calendar@),
            exclude_structured_calendar: structured_views(self.exclude_structured_calendar@),
            interval: interval_views(self.interval@),
            cron_string: crate::text::strings(self.cron_string@),
            calendar: calendar_views(self.calendar@),
            exclude_calendar: calendar_views(self.exclude_calendar@),
            start_time: time_view(self.start_time),
            end_time: time_view(self.end_time),
            jitter: length_view(self.jitter),
            timezone_name: self.timezone_name@,
            timezone_data: bytes_view(self.timezone_data),
        }
    }
}

/// A copy of a list of calendars.
pub fn copy_structured(calendars: &Vec<StructuredCalendarSpec>) -> (r: Vec<StructuredCalendarSpec>)
    ensures
        structured_views(r@) == structured_views(calendars@),
{
    let mut r: Vec<StructuredCalendarSpec> = Vec::new();
    let mut i: usize = 0;
    while i < calendars.len()
        invariant
            i <= calendars.len(),
            r.len() == i,
            forall|j: int| 0 <= j < i ==> (#[trigger] r@[j])@ == calendars@[j]@,
        decreases calendars.len() - i,
    {
        r.push(calendars[i].clone());
        i = i + 1;
    }
    assert(structured_views(r@) == structured_views(calendars@));
    r
}

/// A copy of a list of calendars in text form.
pub fn copy_calendars(calendars: &Vec<CalendarSpec>) -> (r: Vec<CalendarSpec>)
    ensures
        calendar_views(r@) == calendar_views(calendars@),
{
    let mut r: Vec<CalendarSpec> = Vec::new();
    let mut i: usize = 0;
    while i < calendars.len()
        invariant
            i <= calendars.len(),
            r.len() == i,
            forall|j: int| 0 <= j < i ==> (#[trigger] r@[j])@ == calendars@[j]@,
        decreases calendars.len() - i,
    {
        r.push(calendars[i].clone());
        i = i + 1;
    }
    assert(calendar_views(r@) == calendar_views(calendars@));
    r
}

/// A copy of a list of intervals.
pub fn copy_intervals(intervals: &Vec<IntervalSpec>) -> (r: Vec<IntervalSpec>)
    ensures
        r@ == intervals@,
{
    let mut r: Vec<IntervalSpec> = Vec::new();
    let mut i: usize = 0;
    while i < intervals.len()
        invariant
            i <= intervals.len(),
            r@ == intervals@.take(i as int),
        decreases intervals.len() - i,
    {
        r.push(intervals[i]);
        i = i + 1;
        assert(intervals@.take(i as int) == intervals@.take(i - 1).push(intervals@[i - 1]));
    }
    assert(intervals@.take(intervals@.len() as int) == intervals@);
    r
}

/// A copy of a list of strings.
pub fn copy_strings(strings: &Vec<String>) -> (r: Vec<String>)
    ensures
        crate::text::strings(r@) == crate::text::strings(strings@),
{
    let mut r: Vec<String> = Vec::new();
    let mut i: usize = 0;
    while i < strings.len()
        invariant
            i <= strings.len(),
            r.len() == i,
            forall|j: int| 0 <= j < i ==> (#[trigger] r@[j])@ == strings@[j]@,
        decreases strings.len() - i,
    {
        r.push(strings[i].clone());
        i = i + 1;
    }
    assert(crate::text::strings(r@) == crate::text::strings(strings@));
    r
}

/// A copy of some bytes.
pub fn copy_bytes(bytes: &Vec<u8>) -> (r: Vec<u8>)
    ensures
        r@ == bytes@,
{
    let mut r: Vec<u8> = Vec::new();
    let mut i: usize = 0;
    while i < bytes.len()
        invariant
            i <= bytes.len(),
            r@ == bytes@.take(i as int),
        decreases bytes.len() - i,
    {
        r.push(bytes[i]);
        i = i + 1;
        assert(bytes@.take(i as int) == bytes@.take(i - 1).push(bytes@[i - 1]));
    }
    assert(bytes@.take(bytes@.len() as int) == bytes@);
    r
}

impl Clone for ScheduleSpec {
    fn clone(&self) -> (r: ScheduleSpec)
        ensures
            r@ == self@,
    {
        ScheduleSpec {
            structured_calendar: copy_structured(&self.structured_calendar),
            exclude_structured_calendar: copy_structured(&self.exclude_structured_calendar),
            interval: copy_intervals(&self.interval),
            cron_string: copy_strings(&self.cron_string),
            calendar: copy_calendars(&self.calendar),
            exclude_calendar: copy_calendars(&self.exclude_calendar),
            start_time: self.start_time,
            end_time: self.end_time,
            jitter: self.jitter,
            timezone_name: self.timezone_name.clone(),
            timezone_data: match &self.timezone_data {
                Some(data) => Some(copy_bytes(data)),
                None => None,
            },
        }
    }
}

impl Default for ScheduleSpec {
    fn default() -> (r: ScheduleSpec)
        ensures
            r@ == (ScheduleView {
                structured_calendar: Seq::empty(),
                exclude_structured_calendar: Seq::empty(),
                interval: Seq::empty(),
                cron_string: Seq::empty(),
                calendar: Seq::empty(),
                exclude_calendar: Seq::empty(),
                start_time: None,
                end_time: None,
                jitter: None,
                timezone_name: Seq::empty(),
                timezone_data: None,
            }),
    {
        ScheduleSpec {
            structured_calendar: Vec::new(),
            exclude_structured_calendar: Vec::new(),
            interval: Vec::new(),
            cron_string: Vec::new(),
            calendar: Vec::new(),
            exclude_calendar: Vec::new(),
            start_time: None,
            end_time: None,
            jitter: None,
            timezone_name: String::new(),
            timezone_data: None,
        }
    }
}

// ---------------------------------------------------------------------------
// Results and starts
// ---------------------------------------------------------------------------

/// What [`crate::spec::CompiledSpec::get_next_time`] found; both are `None` if nothing fires any
/// more.
#[derive(Debug, Clone, Copy, PartialEq, Eq)]
pub struct GetNextTimeResult {
    /// The time that matched.
    pub nominal: Option<Timestamp>,
    /// The matching time with its delay.
    pub next: Option<Timestamp>,
}

impl Default for GetNextTimeResult {
    fn default() -> (r: GetNextTimeResult)
        ensures
            r.nominal is None,
            r.next is None,
    {
        GetNextTimeResult { nominal: None, next: None }
    }
}

/// A start that waits for [`crate::buffer::process_buffer`] to decide on it.
#[derive(Debug, Clone, Copy, PartialEq, Eq)]
pub struct BufferedStart {
    /// The time that matched.
    pub nominal_time: Timestamp,
    /// The matching time with its delay.
    pub actual_time: Timestamp,
    pub overlap_policy: ScheduleOverlapPolicy,
    /// Whether the start was asked for by hand.
    pub manual: bool,
}

impl BufferedStart {
    /// The policy of this start.
    pub fn get_overlap_policy(&self) -> (r: ScheduleOverlapPolicy)
        ensures
            r == self.overlap_policy,
    {
        self.overlap_policy
    }
}

} // verus!
