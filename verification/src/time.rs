//! RFC 3339 timestamps as plain values: seconds since the Unix epoch, the
//! sub-second nanoseconds and the UTC offset in seconds.
use vstd::prelude::*;

verus! {

/// What `chrono::DateTime::parse_from_rfc3339` yields for a text, taken as
/// `(timestamp(), timestamp_subsec_nanos(), offset().local_minus_utc())`, or
/// `None` when the text is not accepted.
pub uninterp spec fn rfc3339_parse(text: Seq<char>) -> Option<(i64, u32, i32)>;

/// A parsed timestamp: the instant (seconds and nanoseconds since the Unix
/// epoch) and the UTC offset it was written with.
#[derive(Debug, Clone, Copy, PartialEq, Eq, Structural)]
pub struct Timestamp {
    pub seconds: i64,
    pub nanos: u32,
    pub offset_seconds: i32,
}

/// Parses a text with `chrono::DateTime::parse_from_rfc3339`.  The result is
/// the name `rfc3339_parse` of the text; which texts parse, and to what, is
/// left to chrono.
#[verifier::external_body]
pub(crate) fn parse_rfc3339_parts(text: &str) -> (parsed: Option<(i64, u32, i32)>)
    ensures
        parsed == rfc3339_parse(text@),
{
    chrono::DateTime::parse_from_rfc3339(text).ok().map(
        |value| (value.timestamp(), value.timestamp_subsec_nanos(), value.offset().local_minus_utc()),
    )
}

/// The timestamp that a text denotes, if it is valid RFC 3339.
pub open spec fn timestamp_of(text: Seq<char>) -> Option<Timestamp> {
    match rfc3339_parse(text) {
        Some(parts) => Some(Timestamp { seconds: parts.0, nanos: parts.1, offset_seconds: parts.2 }),
        None => None,
    }
}

/// Parses an RFC 3339 text into a timestamp.
pub fn parse_timestamp(text: &str) -> (parsed: Option<Timestamp>)
    ensures
        parsed == timestamp_of(text@),
{
    match parse_rfc3339_parts(text) {
        Some(parts) => Some(Timestamp { seconds: parts.0, nanos: parts.1, offset_seconds: parts.2 }),
        None => None,
    }
}

/// Instants are ordered by seconds, then nanoseconds; the offset does not
/// take part (it only changes how the instant is written).
pub open spec fn instant_before(a: Timestamp, b: Timestamp) -> bool {
    a.seconds < b.seconds || (a.seconds == b.seconds && a.nanos < b.nanos)
}

/// Whether `a` denotes an instant strictly before `b`.
pub fn is_before(a: &Timestamp, b: &Timestamp) -> (before: bool)
    ensures
        before == instant_before(*a, *b),
{
    a.seconds < b.seconds || (a.seconds == b.seconds && a.nanos < b.nanos)
}

/// Milliseconds since the epoch (`DateTime::timestamp_millis`).
pub open spec fn timestamp_millis(t: Timestamp) -> int {
    t.seconds * 1000 + (t.nanos / 1_000_000) as int
}

} // verus!
