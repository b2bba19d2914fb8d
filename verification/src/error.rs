//! What can be wrong with a schedule.
use std::num::ParseIntError;

use vstd::prelude::*;

verus! {

/// What is wrong with a schedule that cannot be compiled.
#[derive(Debug, PartialEq, Eq)]
pub enum SpecError {
    /// A calendar is not valid; the text lists what is wrong with it, separated by commas.
    InvalidCalendarSpec(String),
    /// The schedule names more than one time zone.
    ConflictingTimezoneNames,
    /// An interval is shorter than a second.
    IntervalTooSmall,
    /// A phase is negative.
    PhaseNegative,
    /// A phase is not less than its interval.
    PhaseExceedsInterval,
    /// A cron string names a time zone and nothing else.
    CronStringMissingFields,
    /// A cron string does not have 5 to 7 fields.
    CronStringFieldCount,
    /// A cron string `@every` lacks its interval.
    CronStringMissingInterval,
    /// A field cannot be read.
    RangeError {
        /// The name of the field.
        field: String,
        /// What is wrong with it.
        detail: String,
    },
    /// The time zone cannot be loaded.
    TimezoneNotFound(String),
    /// Any other error.
    Internal(String),
}

/// What a [`SpecError`] says.
#[verifier::ext_equal]
pub enum ErrorView {
    InvalidCalendarSpec(Seq<char>),
    ConflictingTimezoneNames,
    IntervalTooSmall,
    PhaseNegative,
    PhaseExceedsInterval,
    CronStringMissingFields,
    CronStringFieldCount,
    CronStringMissingInterval,
    RangeError { field: Seq<char>, detail: Seq<char> },
    TimezoneNotFound(Seq<char>),
    Internal(Seq<char>),
}

impl ErrorView {
    /// The error in words.
    pub open spec fn message(self) -> Seq<char> {
        match self {
            ErrorView::InvalidCalendarSpec(text) => "invalid calendar spec: "@ + text,
            ErrorView::ConflictingTimezoneNames => "conflicting timezone names"@,
            ErrorView::IntervalTooSmall => "interval is too small (minimum 1 second)"@,
            ErrorView::PhaseNegative => "phase is negative"@,
            ErrorView::PhaseExceedsInterval => "phase cannot be greater than interval"@,
            ErrorView::CronStringMissingFields => "cron string has time zone but missing fields"@,
            ErrorView::CronStringFieldCount => "cron string does not have 5-7 fields"@,
            ErrorView::CronStringMissingInterval =>
                "cron string does not have interval after @every"@,
            ErrorView::RangeError { field, detail } => field + ": "@ + detail,
            ErrorView::TimezoneNotFound(text) => "timezone not found: "@ + text,
            ErrorView::Internal(text) => text,
        }
    }
}

impl View for SpecError {
    type V = ErrorView;

    open spec fn view(&self) -> ErrorView {
        match *self {
            SpecError::InvalidCalendarSpec(text) => ErrorView::InvalidCalendarSpec(text@),
            SpecError::ConflictingTimezoneNames => ErrorView::ConflictingTimezoneNames,
            SpecError::IntervalTooSmall => ErrorView::IntervalTooSmall,
            SpecError::PhaseNegative => ErrorView::PhaseNegative,
            SpecError::PhaseExceedsInterval => ErrorView::PhaseExceedsInterval,
            SpecError::CronStringMissingFields => ErrorView::CronStringMissingFields,
            SpecError::CronStringFieldCount => ErrorView::CronStringFieldCount,
            SpecError::CronStringMissingInterval => ErrorView::CronStringMissingInterval,
            SpecError::RangeError { field, detail } => ErrorView::RangeError {
                field: field@,
                detail: detail@,
            },
            SpecError::TimezoneNotFound(text) => ErrorView::TimezoneNotFound(text@),
            SpecError::Internal(text) => ErrorView::Internal(text@),
        }
    }
}

impl Clone for SpecError {
    fn clone(&self) -> (r: SpecError)
        ensures
            r@ == self@,
    {
        match self {
            SpecError::InvalidCalendarSpec(text) => SpecError::InvalidCalendarSpec(text.clone()),
            SpecError::ConflictingTimezoneNames => SpecError::ConflictingTimezoneNames,
            SpecError::IntervalTooSmall => SpecError::IntervalTooSmall,
            SpecError::PhaseNegative => SpecError::PhaseNegative,
            SpecError::PhaseExceedsInterval => SpecError::PhaseExceedsInterval,
            SpecError::CronStringMissingFields => SpecError::CronStringMissingFields,
            SpecError::CronStringFieldCount => SpecError::CronStringFieldCount,
            SpecError::CronStringMissingInterval => SpecError::CronStringMissingInterval,
            SpecError::RangeError { field, detail } => SpecError::RangeError {
                field: field.clone(),
                detail: detail.clone(),
            },
            SpecError::TimezoneNotFound(text) => SpecError::TimezoneNotFound(text.clone()),
            SpecError::Internal(text) => SpecError::Internal(text.clone()),
        }
    }
}

impl SpecError {
    /// The error in words.
    pub fn to_string(&self) -> (r: String)
        ensures
            r@ == self@.message(),
    {
        match self {
            SpecError::InvalidCalendarSpec(text) => "invalid calendar spec: ".to_owned().concat(
                text.as_str(),
            ),
            SpecError::ConflictingTimezoneNames => "conflicting timezone names".to_owned(),
            SpecError::IntervalTooSmall => "interval is too small (minimum 1 second)".to_owned(),
            SpecError::PhaseNegative => "phase is negative".to_owned(),
            SpecError::PhaseExceedsInterval => "phase cannot be greater than interval".to_owned(),
            SpecError::CronStringMissingFields =>
                "cron string has time zone but missing fields".to_owned(),
            SpecError::CronStringFieldCount => "cron string does not have 5-7 fields".to_owned(),
            SpecError::CronStringMissingInterval =>
                "cron string does not have interval after @every".to_owned(),
            SpecError::RangeError { field, detail } => field.clone().concat(": ").concat(
                detail.as_str(),
            ),
            SpecError::TimezoneNotFound(text) => "timezone not found: ".to_owned().concat(
                text.as_str(),
            ),
            SpecError::Internal(text) => text.clone(),
        }
    }
}

/// `std::num::ParseIntError`, carried as it is.
#[verifier::external_type_specification]
#[verifier::external_body]
pub struct ExParseIntError(ParseIntError);

/// `<std::num::ParseIntError as Clone>::clone`: the same error once more.
pub assume_specification[ <ParseIntError as Clone>::clone ](e: &ParseIntError) -> (r: ParseIntError)
    ensures
        r == *e,
;

/// What `std::num::ParseIntError` says of itself in words.
pub uninterp spec fn int_error_text(e: ParseIntError) -> Seq<char>;

/// `<std::num::ParseIntError as Display>::fmt`: the error in words. They follow from the error;
/// which words they are is left unsaid.
#[verifier::external_body]
fn int_error_string(e: &ParseIntError) -> (r: String)
    ensures
        r@ == int_error_text(*e),
{
    e.to_string()
}

/// What can be wrong with a range in text form.
#[derive(Debug, PartialEq, Eq)]
pub enum RangeParseError {
    /// A value is out of range.
    OutOfRange,
    /// A value is not an integer.
    ParseInt(ParseIntError),
    /// A length of time is not well formed.
    ParseDuration(DurationParseError),
}

/// What can be wrong with a length of time in text form.
#[derive(Debug, PartialEq, Eq)]
pub enum DurationParseError {
    /// The text is empty, or it has an unknown unit.
    InvalidFormat(String),
}

impl View for DurationParseError {
    type V = Seq<char>;

    open spec fn view(&self) -> Seq<char> {
        match *self {
            DurationParseError::InvalidFormat(text) => text@,
        }
    }
}

impl DurationParseError {
    /// The error in words.
    pub fn to_string(&self) -> (r: String)
        ensures
            r@ == "invalid duration format: "@ + self@,
    {
        match self {
            DurationParseError::InvalidFormat(text) =>
                "invalid duration format: ".to_owned().concat(text.as_str()),
        }
    }
}

impl RangeParseError {
    /// The error in words.
    pub fn to_string(&self) -> (r: String)
        ensures
            r@ == (match *self {
                RangeParseError::OutOfRange => "out of range"@,
                RangeParseError::ParseInt(e) => int_error_text(e),
                RangeParseError::ParseDuration(e) => "invalid duration format: "@ + e@,
            }),
    {
        match self {
            RangeParseError::OutOfRange => "out of range".to_owned(),
            RangeParseError::ParseInt(e) => int_error_string(e),
            RangeParseError::ParseDuration(e) => e.to_string(),
        }
    }
}

impl Clone for DurationParseError {
    fn clone(&self) -> (r: DurationParseError)
        ensures
            r@ == self@,
    {
        match self {
            DurationParseError::InvalidFormat(text) => DurationParseError::InvalidFormat(
                text.clone(),
            ),
        }
    }
}

impl Clone for RangeParseError {
    fn clone(&self) -> (r: RangeParseError)
        ensures
            match *self {
                RangeParseError::OutOfRange => r is OutOfRange,
                RangeParseError::ParseInt(e) => r == RangeParseError::ParseInt(e),
                RangeParseError::ParseDuration(e) => r matches RangeParseError::ParseDuration(copy)
                    && copy@ == e@,
            },
    {
        match self {
            RangeParseError::OutOfRange => RangeParseError::OutOfRange,
            RangeParseError::ParseInt(e) => RangeParseError::ParseInt(e.clone()),
            RangeParseError::ParseDuration(e) => RangeParseError::ParseDuration(e.clone()),
        }
    }
}

impl vstd::std_specs::convert::FromSpecImpl<ParseIntError> for RangeParseError {
    open spec fn obeys_from_spec() -> bool {
        true
    }

    open spec fn from_spec(e: ParseIntError) -> RangeParseError {
        RangeParseError::ParseInt(e)
    }
}

impl From<ParseIntError> for RangeParseError {
    fn from(e: ParseIntError) -> (r: RangeParseError) {
        RangeParseError::ParseInt(e)
    }
}

impl vstd::std_specs::convert::FromSpecImpl<DurationParseError> for RangeParseError {
    open spec fn obeys_from_spec() -> bool {
        true
    }

    open spec fn from_spec(e: DurationParseError) -> RangeParseError {
        RangeParseError::ParseDuration(e)
    }
}

impl From<DurationParseError> for RangeParseError {
    fn from(e: DurationParseError) -> (r: RangeParseError) {
        RangeParseError::ParseDuration(e)
    }
}

} // verus!
