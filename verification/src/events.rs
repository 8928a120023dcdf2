//! Event inputs: the shape rules an authored event must satisfy and the
//! clock-time syntax of event shorthands.
use vstd::prelude::*;
use crate::time::{instant_before, is_before, parse_timestamp, timestamp_of, Timestamp};

verus! {

/// An event as authored: either a point in time (`at`) or an interval
/// (`start` and `end`), with the tasks it accounts to.
#[derive(Debug, Clone, PartialEq, Eq)]
pub struct EventInput {
    pub title: String,
    pub at: Option<String>,
    pub start: Option<String>,
    pub end: Option<String>,
    pub tasks: Vec<String>,
}

#[derive(Debug, Clone, Copy, PartialEq, Eq, Structural)]
pub enum EventEditError {
    StaleOrInvalidDocument,
    EventNotFound,
    InvalidDatetime,
    InvalidTimeShape,
    InvalidInterval,
    GeneratedInvalid,
}

#[derive(Debug, Clone, Copy, PartialEq, Eq, Structural)]
pub enum EventShorthandError {
    StaleOrInvalidDocument,
    ListItemNotFound,
    EventAlreadyExists,
    InvalidShorthand,
    InvalidInterval,
    GeneratedInvalid,
}

/// The timestamp of an optional field, or `None` when absent; `Err(())` when
/// present but not valid RFC 3339.
pub open spec fn optional_timestamp(field: Option<String>) -> Result<Option<Timestamp>, ()> {
    match field {
        None => Ok(None),
        Some(text) => match timestamp_of(text@) {
            Some(t) => Ok(Some(t)),
            None => Err(()),
        },
    }
}

/// The outcome of validating an event input: `at` and `start` must parse
/// (checked in that order); exactly one of `at` and `start` is given; `at`
/// stands alone; `end` parses, needs `start`, lies strictly after it and
/// keeps its UTC offset; and `start` never stands without `end`.
pub open spec fn event_input_validity(input: EventInput) -> Result<(), EventEditError> {
    match (optional_timestamp(input.at), optional_timestamp(input.start)) {
        (Err(_), _) => Err(EventEditError::InvalidDatetime),
        (_, Err(_)) => Err(EventEditError::InvalidDatetime),
        (Ok(at), Ok(start)) => if at is None && start is None {
            Err(EventEditError::InvalidTimeShape)
        } else if at is Some && (start is Some || input.end is Some) {
            Err(EventEditError::InvalidTimeShape)
        } else {
            match input.end {
                Some(end_text) => match timestamp_of(end_text@) {
                    None => Err(EventEditError::InvalidDatetime),
                    Some(end) => match start {
                        None => Err(EventEditError::InvalidTimeShape),
                        Some(start) => if !instant_before(start, end) {
                            Err(EventEditError::InvalidInterval)
                        } else if end.offset_seconds != start.offset_seconds {
                            Err(EventEditError::InvalidInterval)
                        } else {
                            Ok(())
                        },
                    },
                },
                None => if start is Some {
                    Err(EventEditError::InvalidTimeShape)
                } else {
                    Ok(())
                },
            }
        }
    }
}

fn parse_optional(field: &Option<String>) -> (parsed: Result<Option<Timestamp>, ()>)
    ensures
        parsed == optional_timestamp(*field),
{
    match field {
        None => Ok(None),
        Some(text) => match parse_timestamp(text.as_str()) {
            Some(t) => Ok(Some(t)),
            None => Err(()),
        },
    }
}

/// Checks the time shape of an event input before it is authored.
pub fn validate_event_input(input: &EventInput) -> (result: Result<(), EventEditError>)
    ensures
        result == event_input_validity(*input),
{
    let at = match parse_optional(&input.at) {
        Ok(at) => at,
        Err(_) => return Err(EventEditError::InvalidDatetime),
    };
    let start = match parse_optional(&input.start) {
        Ok(start) => start,
        Err(_) => return Err(EventEditError::InvalidDatetime),
    };
    if at.is_none() && start.is_none() {
        return Err(EventEditError::InvalidTimeShape);
    }
    if at.is_some() && (start.is_some() || input.end.is_some()) {
        return Err(EventEditError::InvalidTimeShape);
    }
    match &input.end {
        Some(end_text) => {
            let end = match parse_timestamp(end_text.as_str()) {
                Some(end) => end,
                None => return Err(EventEditError::InvalidDatetime),
            };
            let start = match start {
                Some(start) => start,
                None => return Err(EventEditError::InvalidTimeShape),
            };
            if !is_before(&start, &end) {
                return Err(EventEditError::InvalidInterval);
            }
            if end.offset_seconds != start.offset_seconds {
                return Err(EventEditError::InvalidInterval);
            }
            Ok(())
        },
        None => {
            if start.is_some() {
                return Err(EventEditError::InvalidTimeShape);
            }
            Ok(())
        },
    }
}

/// Whether `c` is an ASCII decimal digit.
pub open spec fn is_digit(c: char) -> bool {
    '0' <= c && c <= '9'
}

/// The value of an ASCII digit.
pub open spec fn digit_value(c: char) -> int {
    (c as u32) - ('0' as u32)
}

/// The value of two ASCII digits starting at `i`.
pub open spec fn two_digits(s: Seq<char>, i: int) -> int {
    digit_value(s[i]) * 10 + digit_value(s[i + 1])
}

/// A shorthand clock time `HH`, `HH:MM` or `HH:MM:SS`, each field exactly
/// two ASCII digits, read as seconds since midnight; `None` when the text has
/// another shape or the hour, minute or second is out of range.
pub open spec fn shorthand_time_spec(s: Seq<char>) -> Option<u32> {
    if !(s.len() == 2 || s.len() == 5 || s.len() == 8) {
        None
    } else if exists|i: int|
        0 <= i < s.len() && #[trigger] s[i] != ':' && (i == 2 || i == 5) {
        None
    } else if exists|i: int| 0 <= i < s.len() && i != 2 && i != 5 && !is_digit(#[trigger] s[i]) {
        None
    } else {
        let hour = two_digits(s, 0);
        let minute = if s.len() >= 5 {
            two_digits(s, 3)
        } else {
            0
        };
        let second = if s.len() == 8 {
            two_digits(s, 6)
        } else {
            0
        };
        if hour < 24 && minute < 60 && second < 60 {
            Some((hour * 3600 + minute * 60 + second) as u32)
        } else {
            None
        }
    }
}

fn digit_at(chars: &Vec<char>, i: usize) -> (value: u32)
    requires
        i < chars.len(),
        is_digit(chars@[i as int]),
    ensures
        value == digit_value(chars@[i as int]),
        value <= 9,
{
    (chars[i] as u32) - ('0' as u32)
}

/// Parses a shorthand clock time (see `shorthand_time_spec`) into seconds
/// since midnight.
pub fn parse_shorthand_time(input: &str) -> (result: Result<u32, EventShorthandError>)
    ensures
        result matches Ok(seconds) ==> shorthand_time_spec(input@) == Some(seconds),
        result is Err ==> result == Err::<u32, EventShorthandError>(
            EventShorthandError::InvalidShorthand,
        ) && shorthand_time_spec(input@) is None,
{
    let chars = crate::text::chars_of(input);
    let n = chars.len();
    if !(n == 2 || n == 5 || n == 8) {
        return Err(EventShorthandError::InvalidShorthand);
    }
    let mut i: usize = 0;
    while i < n
        invariant
            n == chars.len(),
            n == input@.len(),
            chars@ == input@,
            i <= n,
            forall|k: int| 0 <= k < i && (k == 2 || k == 5) ==> chars@[k] == ':',
            forall|k: int| 0 <= k < i && k != 2 && k != 5 ==> is_digit(chars@[k]),
        decreases n - i,
    {
        if i == 2 || i == 5 {
            if chars[i] != ':' {
                return Err(EventShorthandError::InvalidShorthand);
            }
        } else if !(chars[i] >= '0' && chars[i] <= '9') {
            return Err(EventShorthandError::InvalidShorthand);
        }
        i = i + 1;
    }
    let hour = digit_at(&chars, 0) * 10 + digit_at(&chars, 1);
    let minute = if n >= 5 {
        digit_at(&chars, 3) * 10 + digit_at(&chars, 4)
    } else {
        0
    };
    let second = if n == 8 {
        digit_at(&chars, 6) * 10 + digit_at(&chars, 7)
    } else {
        0
    };
    if hour < 24 && minute < 60 && second < 60 {
        Ok(hour * 3600 + minute * 60 + second)
    } else {
        Err(EventShorthandError::InvalidShorthand)
    }
}

} // verus!
