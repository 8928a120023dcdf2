//! Event shorthands: `HH:MM title`, `HH:MM--HH:MM title`,
//! `YYYY-MM-DDTHH:MM--… title`, read into an event input.  Calendar
//! arithmetic and timestamp formatting are chrono's.
use vstd::prelude::*;
use crate::events::{shorthand_time_spec, EventEditError, EventInput, EventShorthandError};
use crate::text::{char_utf8_width, chars_of, is_white_space, is_whitespace, string_from_chars, utf8_len};
use crate::time::{instant_before, is_before, parse_rfc3339_parts, rfc3339_parse, Timestamp};
use chrono::{Datelike, TimeZone};

verus! {

/// What `NaiveDate::parse_from_str(text, "%Y-%m-%d")` gives, as year,
/// month and day.
pub uninterp spec fn date_parse(text: Seq<char>) -> Option<(i32, u32, u32)>;

/// The day after a date (`NaiveDate::succ_opt`), `None` for an invalid date
/// or past chrono's range.
pub uninterp spec fn date_successor(year: i32, month: u32, day: u32) -> Option<(i32, u32, u32)>;

/// The instant (seconds and nanoseconds since the epoch) at which the given
/// local date and time occurs at the given UTC offset
/// (`FixedOffset::from_local_datetime(..).single()`), `None` when a part is
/// invalid or out of range.
pub uninterp spec fn local_instant(year: i32, month: u32, day: u32, seconds: u32, nanos: u32, offset: i32) -> Option<(i64, u32)>;

/// The RFC 3339 spelling with whole seconds and a numeric offset
/// (`to_rfc3339_opts(SecondsFormat::Secs, false)`) of an instant at an
/// offset, `None` when the instant, the offset, or the local date and time
/// they make is out of chrono's range.
pub uninterp spec fn instant_text(seconds: i64, nanos: u32, offset: i32) -> Option<Seq<char>>;

/// The local date of an instant at an offset (the date of
/// `naive_utc().checked_add_offset(..)`), `None` when the instant, the
/// offset or the local date and time is out of chrono's range.
pub uninterp spec fn instant_date(seconds: i64, nanos: u32, offset: i32) -> Option<(i32, u32, u32)>;

/// Calls `chrono::NaiveDate::parse_from_str` with `%Y-%m-%d`; the result is
/// the name `date_parse` of the text.
#[verifier::external_body]
fn parse_date(text: &str) -> (date: Option<(i32, u32, u32)>)
    ensures
        date == date_parse(text@),
{
    chrono::NaiveDate::parse_from_str(text, "%Y-%m-%d").ok().map(|d| (d.year(), d.month(), d.day()))
}

/// Calls `NaiveDate::from_ymd_opt` and `succ_opt`; the result is the name
/// `date_successor` of the date.
#[verifier::external_body]
fn next_date(year: i32, month: u32, day: u32) -> (next: Option<(i32, u32, u32)>)
    ensures
        next == date_successor(year, month, day),
{
    chrono::NaiveDate::from_ymd_opt(year, month, day).and_then(|d| d.succ_opt()).map(|d| (d.year(), d.month(), d.day()))
}

/// Calls `FixedOffset::from_local_datetime(..).single()` on the date and time
/// chrono builds from the parts; the result is the name `local_instant`.
#[verifier::external_body]
fn to_instant(year: i32, month: u32, day: u32, seconds: u32, nanos: u32, offset: i32) -> (instant: Option<(i64, u32)>)
    ensures
        instant == local_instant(year, month, day, seconds, nanos, offset),
{
    let date = chrono::NaiveDate::from_ymd_opt(year, month, day)?;
    let time = chrono::NaiveTime::from_num_seconds_from_midnight_opt(seconds, nanos)?;
    let zone = chrono::FixedOffset::east_opt(offset)?;
    zone.from_local_datetime(&date.and_time(time)).single().map(|t| (t.timestamp(), t.timestamp_subsec_nanos()))
}

/// Calls `DateTime::to_rfc3339_opts(SecondsFormat::Secs, false)` once
/// `NaiveDateTime::checked_add_offset` has shown the local time in range (so
/// it cannot panic); the result is the name `instant_text`.
#[verifier::external_body]
fn format_instant(seconds: i64, nanos: u32, offset: i32) -> (text: Option<String>)
    ensures
        crate::workflow::opt_view(text) == instant_text(seconds, nanos, offset),
{
    let zone = chrono::FixedOffset::east_opt(offset)?;
    let t = chrono::DateTime::from_timestamp(seconds, nanos)?;
    t.naive_utc().checked_add_offset(zone)?;
    Some(t.with_timezone(&zone).to_rfc3339_opts(chrono::SecondsFormat::Secs, false))
}

/// Calls `NaiveDateTime::checked_add_offset` on the UTC instant and takes the
/// date; the result is the name `instant_date`.
#[verifier::external_body]
pub(crate) fn local_date(seconds: i64, nanos: u32, offset: i32) -> (date: Option<(i32, u32, u32)>)
    ensures
        date == instant_date(seconds, nanos, offset),
{
    let zone = chrono::FixedOffset::east_opt(offset)?;
    let t = chrono::DateTime::from_timestamp(seconds, nanos)?;
    t.naive_utc().checked_add_offset(zone).map(|d| (d.year(), d.month(), d.day()))
}

/// A calendar date.
#[derive(Debug, Clone, Copy, PartialEq, Eq, Structural)]
pub struct CalendarDate {
    pub year: i32,
    pub month: u32,
    pub day: u32,
}

/// A time of day: seconds since midnight and nanoseconds.
#[derive(Debug, Clone, Copy, PartialEq, Eq, Structural)]
pub struct ClockTime {
    pub seconds: u32,
    pub nanos: u32,
}

/// Where a shorthand starts: the instant (with its offset), its local date
/// and time, and whether the date was written out.
#[derive(Debug, Clone, Copy, PartialEq, Eq, Structural)]
pub struct ShorthandStart {
    pub instant: Timestamp,
    pub date: CalendarDate,
    pub time: ClockTime,
    pub explicit_date: bool,
}

pub open spec fn clock_before(a: ClockTime, b: ClockTime) -> bool {
    a.seconds < b.seconds || (a.seconds == b.seconds && a.nanos < b.nanos)
}

/// The position of the first `c` in `s`.
pub open spec fn first_index(s: Seq<char>, c: char) -> Option<int> {
    if exists|i: int| 0 <= i < s.len() && s[i] == c {
        Some(choose|i: int| 0 <= i < s.len() && s[i] == c && forall|j: int| 0 <= j < i ==> s[j] != c)
    } else {
        None
    }
}

/// Whether `s` holds `--` at `i`.
pub open spec fn dashes_at(s: Seq<char>, i: int) -> bool {
    0 <= i && i + 1 < s.len() && s[i] == '-' && s[i + 1] == '-'
}

/// The position of the first `--` in `s`.
pub open spec fn first_dashes(s: Seq<char>) -> Option<int> {
    if exists|i: int| #[trigger] dashes_at(s, i) {
        Some(choose|i: int| #[trigger] dashes_at(s, i) && forall|j: int| 0 <= j < i ==> !dashes_at(s, j))
    } else {
        None
    }
}

/// The instant a local date and time occur at, as a timestamp with the
/// offset; `None` when chrono refuses them.
pub open spec fn instant_at(date: CalendarDate, time: ClockTime, offset: i32) -> Option<Timestamp> {
    match local_instant(date.year, date.month, date.day, time.seconds, time.nanos, offset) {
        Some((s, n)) => Some(Timestamp { seconds: s, nanos: n, offset_seconds: offset }),
        None => None,
    }
}

/// The start of a shorthand: `TIME` on the default date, or `DATE'T'TIME`.
pub open spec fn shorthand_start_spec(s: Seq<char>, default_date: CalendarDate, offset: i32) -> Result<ShorthandStart, EventShorthandError> {
    let parts: Option<(CalendarDate, Seq<char>, bool)> = match first_index(s, 'T') {
        Some(i) => if first_index(s.skip(i + 1), 'T') is Some {
            None
        } else {
            match date_parse(s.take(i)) {
                Some((y, m, d)) => Some((CalendarDate { year: y, month: m, day: d }, s.skip(i + 1), true)),
                None => None,
            }
        },
        None => Some((default_date, s, false)),
    };
    match parts {
        None => Err(EventShorthandError::InvalidShorthand),
        Some((date, text, explicit)) => match shorthand_time_spec(text) {
            None => Err(EventShorthandError::InvalidShorthand),
            Some(secs) => {
                let time = ClockTime { seconds: secs, nanos: 0 };
                match instant_at(date, time, offset) {
                    None => Err(EventShorthandError::InvalidShorthand),
                    Some(instant) => Ok(ShorthandStart { instant, date, time, explicit_date: explicit }),
                }
            },
        },
    }
}

/// The day after a date, as a date.
pub open spec fn next_day(d: CalendarDate) -> Option<CalendarDate> {
    match date_successor(d.year, d.month, d.day) {
        Some((y, m, dd)) => Some(CalendarDate { year: y, month: m, day: dd }),
        None => None,
    }
}

/// The end of a shorthand interval: inferred (empty text), `DATE'T'TIME`,
/// or `TIME` on the start's date, or the next day when it is earlier than
/// the start's time.
pub open spec fn shorthand_end_spec(e: Seq<char>, start: ShorthandStart, inferred: Option<ShorthandStart>) -> Result<Timestamp, EventShorthandError> {
    let offset = start.instant.offset_seconds;
    if e.len() == 0 {
        match inferred {
            None => Err(EventShorthandError::InvalidShorthand),
            Some(inf) => if inf.instant.offset_seconds != offset {
                Err(EventShorthandError::InvalidInterval)
            } else if !inf.explicit_date && clock_before(inf.time, start.time) {
                match next_day(start.date) {
                    None => Err(EventShorthandError::InvalidInterval),
                    Some(nd) => match instant_at(nd, inf.time, offset) {
                        None => Err(EventShorthandError::InvalidShorthand),
                        Some(t) => Ok(t),
                    },
                }
            } else {
                Ok(inf.instant)
            },
        }
    } else {
        match first_index(e, 'T') {
            Some(i) => match date_parse(e.take(i)) {
                None => Err(EventShorthandError::InvalidShorthand),
                Some((y, m, d)) => match shorthand_time_spec(e.skip(i + 1)) {
                    None => Err(EventShorthandError::InvalidShorthand),
                    Some(secs) => match instant_at(CalendarDate { year: y, month: m, day: d }, ClockTime { seconds: secs, nanos: 0 }, offset) {
                        None => Err(EventShorthandError::InvalidShorthand),
                        Some(t) => Ok(t),
                    },
                },
            },
            None => match shorthand_time_spec(e) {
                None => Err(EventShorthandError::InvalidShorthand),
                Some(secs) => {
                    let time = ClockTime { seconds: secs, nanos: 0 };
                    let date = if clock_before(time, start.time) {
                        next_day(start.date)
                    } else {
                        Some(start.date)
                    };
                    match date {
                        None => Err(EventShorthandError::InvalidInterval),
                        Some(d) => match instant_at(d, time, offset) {
                            None => Err(EventShorthandError::InvalidShorthand),
                            Some(t) => Ok(t),
                        },
                    }
                },
            },
        }
    }
}

/// The text without its leading whitespace.
pub open spec fn trim_start_spec(s: Seq<char>) -> Seq<char>
    decreases s.len(),
{
    if s.len() > 0 && is_white_space(s[0]) {
        trim_start_spec(s.skip(1))
    } else {
        s
    }
}

/// The text without its trailing whitespace.
pub open spec fn trim_end_spec(s: Seq<char>) -> Seq<char>
    decreases s.len(),
{
    if s.len() > 0 && is_white_space(s.last()) {
        trim_end_spec(s.drop_last())
    } else {
        s
    }
}

/// The position of the first space or tab.
pub open spec fn first_separator(s: Seq<char>) -> Option<int> {
    if exists|i: int| 0 <= i < s.len() && (s[i] == ' ' || s[i] == '\t') {
        Some(choose|i: int| 0 <= i < s.len() && (s[i] == ' ' || s[i] == '\t') && forall|j: int| 0 <= j < i ==> s[j] != ' ' && s[j] != '\t')
    } else {
        None
    }
}

/// An event input as plain values: title, at, start and end.
pub open spec fn input_view(e: EventInput) -> (Seq<char>, Option<Seq<char>>, Option<Seq<char>>, Option<Seq<char>>, nat) {
    (e.title@, crate::workflow::opt_view(e.at), crate::workflow::opt_view(e.start), crate::workflow::opt_view(e.end), e.tasks@.len())
}

/// The spelling of an instant, when chrono gives one.
pub open spec fn spelled(t: Timestamp) -> Option<Seq<char>> {
    instant_text(t.seconds, t.nanos, t.offset_seconds)
}

/// A schedule split at `--` into start and end; `None` when the start is
/// empty or the end holds another `--`.
pub open spec fn schedule_split(schedule: Seq<char>) -> Option<(Seq<char>, Option<Seq<char>>)> {
    match first_dashes(schedule) {
        Some(i) => if i > 0 && first_dashes(schedule.skip(i + 2)) is None {
            Some((schedule.take(i), Some(schedule.skip(i + 2))))
        } else {
            None
        },
        None => Some((schedule, None)),
    }
}

/// The event a shorthand describes once its start is read: a point event,
/// or an interval whose end must follow the start.
pub open spec fn shorthand_event(
    title: Seq<char>,
    start: ShorthandStart,
    end: Option<Seq<char>>,
    inferred: Option<ShorthandStart>,
) -> Result<(Seq<char>, Option<Seq<char>>, Option<Seq<char>>, Option<Seq<char>>, nat), EventShorthandError> {
    match end {
        Some(e) => match shorthand_end_spec(e, start, inferred) {
            Err(x) => Err(x),
            Ok(end_instant) => if !instant_before(start.instant, end_instant) {
                Err(EventShorthandError::InvalidInterval)
            } else {
                match (spelled(start.instant), spelled(end_instant)) {
                    (Some(a), Some(b)) => Ok((trim_end_spec(title), None, Some(a), Some(b), 0)),
                    _ => Err(EventShorthandError::GeneratedInvalid),
                }
            },
        },
        None => match spelled(start.instant) {
            Some(a) => Ok((trim_end_spec(title), Some(a), None, None, 0)),
            None => Err(EventShorthandError::GeneratedInvalid),
        },
    }
}

/// What a shorthand reads as: the schedule before the first space or tab,
/// the title after it (trimmed), split at `--` into start and end; with the
/// byte offset where the title starts.  The spelled instants come from
/// chrono; a spelling chrono refuses makes the input `GeneratedInvalid`.
pub open spec fn event_shorthand_spec(
    input: Seq<char>,
    default_date: CalendarDate,
    offset: i32,
    inferred: Option<ShorthandStart>,
) -> Result<((Seq<char>, Option<Seq<char>>, Option<Seq<char>>, Option<Seq<char>>, nat), int), EventShorthandError> {
    match first_separator(input) {
        None => Err(EventShorthandError::InvalidShorthand),
        Some(sep) => {
            let title = trim_start_spec(input.skip(sep));
            if title.len() == 0 {
                Err(EventShorthandError::InvalidShorthand)
            } else {
                match schedule_split(input.take(sep)) {
                    None => Err(EventShorthandError::InvalidShorthand),
                    Some((s, end)) => match shorthand_start_spec(s, default_date, offset) {
                        Err(e) => Err(e),
                        Ok(start) => match shorthand_event(title, start, end, inferred) {
                            Err(e) => Err(e),
                            Ok(v) => Ok((v, utf8_len(input) - utf8_len(title))),
                        },
                    },
                }
            }
        },
    }
}

/// The date and offset a shorthand's times are read in: those of `now`,
/// overridden by a document `date` (a plain date, or an RFC 3339 timestamp,
/// which also sets the offset) and then by a document `timezone` offset.
pub open spec fn shorthand_context_spec(
    now_date: CalendarDate,
    now_offset: i32,
    date: Option<Seq<char>>,
    timezone: Option<Seq<char>>,
) -> (CalendarDate, i32) {
    let (d, o) = match date {
        Some(text) => match date_parse(text) {
            Some((y, m, dd)) => (CalendarDate { year: y, month: m, day: dd }, now_offset),
            None => match rfc3339_parse(text) {
                Some((s, n, off)) => match instant_date(s, n, off) {
                    Some((y, m, dd)) => (CalendarDate { year: y, month: m, day: dd }, off),
                    None => (now_date, now_offset),
                },
                None => (now_date, now_offset),
            },
        },
        None => (now_date, now_offset),
    };
    match timezone {
        Some(tz) => match rfc3339_parse("2000-01-01T00:00:00"@ + tz) {
            Some((_, _, off)) => (d, off),
            None => (d, o),
        },
        None => (d, o),
    }
}

// ---------------------------------------------------------------------------
// Reading a shorthand.

fn first_index_exec(s: &Vec<char>, c: char) -> (found: Option<usize>)
    ensures
        match first_index(s@, c) {
            Some(i) => found == Some(i as usize) && 0 <= i < s.len(),
            None => found is None,
        },
{
    let mut i: usize = 0;
    while i < s.len()
        invariant
            i <= s.len(),
            forall|j: int| 0 <= j < i ==> s@[j] != c,
        decreases s.len() - i,
    {
        if s[i] == c {
            proof {
                let k = choose|k: int| 0 <= k < s@.len() && s@[k] == c && forall|j: int| 0 <= j < k ==> s@[j] != c;
                assert(s@[i as int] == c);
                if k < i {
                    assert(s@[k] != c);
                } else if k > i {
                    assert(s@[i as int] != c);
                }
            }
            return Some(i);
        }
        i = i + 1;
    }
    None
}

fn first_dashes_exec(s: &Vec<char>) -> (found: Option<usize>)
    ensures
        found matches Some(x) ==> x + 1 < s.len(),
        match first_dashes(s@) {
            Some(i) => found == Some(i as usize) && dashes_at(s@, i),
            None => found is None,
        },
{
    let mut i: usize = 0;
    while i < s.len() && i + 1 < s.len()
        invariant
            i <= s.len(),
            forall|j: int| 0 <= j < i ==> !dashes_at(s@, j),
        decreases s.len() - i,
    {
        if s[i] == '-' && s[i + 1] == '-' {
            proof {
                assert(dashes_at(s@, i as int));
                let k = choose|k: int| #[trigger] dashes_at(s@, k) && forall|j: int| 0 <= j < k ==> !dashes_at(s@, j);
                if k < i {
                    assert(!dashes_at(s@, k));
                } else if k > i {
                    assert(!dashes_at(s@, i as int));
                }
            }
            return Some(i);
        }
        i = i + 1;
    }
    proof {
        assert forall|j: int| !#[trigger] dashes_at(s@, j) by {
            if 0 <= j && j + 1 < s.len() {
                assert(j < i);
            }
        }
    }
    None
}

fn first_separator_exec(s: &Vec<char>) -> (found: Option<usize>)
    ensures
        match first_separator(s@) {
            Some(i) => found == Some(i as usize) && 0 <= i < s.len(),
            None => found is None,
        },
{
    let mut i: usize = 0;
    while i < s.len()
        invariant
            i <= s.len(),
            forall|j: int| 0 <= j < i ==> s@[j] != ' ' && s@[j] != '\t',
        decreases s.len() - i,
    {
        if s[i] == ' ' || s[i] == '\t' {
            proof {
                let k = choose|k: int| 0 <= k < s@.len() && (s@[k] == ' ' || s@[k] == '\t') && forall|j: int| 0 <= j < k ==> s@[j] != ' ' && s@[j] != '\t';
                if k < i {
                    assert(s@[k] != ' ' && s@[k] != '\t');
                } else if k > i {
                    assert(s@[i as int] != ' ' && s@[i as int] != '\t');
                }
            }
            return Some(i);
        }
        i = i + 1;
    }
    None
}

fn slice(s: &Vec<char>, from: usize, to: usize) -> (part: Vec<char>)
    requires
        from <= to <= s.len(),
    ensures
        part@ == s@.subrange(from as int, to as int),
{
    let mut part: Vec<char> = Vec::new();
    let mut i = from;
    while i < to
        invariant
            from <= i <= to <= s.len(),
            part@ == s@.subrange(from as int, i as int),
        decreases to - i,
    {
        part.push(s[i]);
        assert(s@.subrange(from as int, i + 1) == s@.subrange(from as int, i as int).push(s@[i as int]));
        i = i + 1;
    }
    part
}

fn instant_at_exec(date: CalendarDate, time: ClockTime, offset: i32) -> (t: Option<Timestamp>)
    ensures
        t == instant_at(date, time, offset),
{
    match to_instant(date.year, date.month, date.day, time.seconds, time.nanos, offset) {
        Some((s, n)) => Some(Timestamp { seconds: s, nanos: n, offset_seconds: offset }),
        None => None,
    }
}

fn time_of(text: &Vec<char>) -> (secs: Option<u32>)
    ensures
        secs == shorthand_time_spec(text@),
{
    let t = string_from_chars(text);
    match crate::events::parse_shorthand_time(t.as_str()) {
        Ok(secs) => Some(secs),
        Err(_) => None,
    }
}

fn date_of(text: &Vec<char>) -> (date: Option<CalendarDate>)
    ensures
        date == match date_parse(text@) {
            Some((y, m, d)) => Some(CalendarDate { year: y, month: m, day: d }),
            None => None,
        },
{
    let t = string_from_chars(text);
    match parse_date(t.as_str()) {
        Some((y, m, d)) => Some(CalendarDate { year: y, month: m, day: d }),
        None => None,
    }
}

/// Reads where a shorthand starts (see `shorthand_start_spec`).
pub fn shorthand_start(s: &Vec<char>, default_date: CalendarDate, offset: i32) -> (start: Result<ShorthandStart, EventShorthandError>)
    ensures
        start == shorthand_start_spec(s@, default_date, offset),
{
    let (date, text, explicit) = match first_index_exec(s, 'T') {
        Some(i) => {
            let rest = slice(s, i + 1, s.len());
            assert(rest@ == s@.skip(i + 1));
            if first_index_exec(&rest, 'T').is_some() {
                return Err(EventShorthandError::InvalidShorthand);
            }
            let head = slice(s, 0, i);
            assert(head@ == s@.take(i as int));
            match date_of(&head) {
                Some(d) => (d, rest, true),
                None => return Err(EventShorthandError::InvalidShorthand),
            }
        },
        None => (default_date, slice(s, 0, s.len()), false),
    };
    assert(s@.subrange(0, s.len() as int) == s@);
    let secs = match time_of(&text) {
        Some(secs) => secs,
        None => return Err(EventShorthandError::InvalidShorthand),
    };
    let time = ClockTime { seconds: secs, nanos: 0 };
    match instant_at_exec(date, time, offset) {
        Some(instant) => Ok(ShorthandStart { instant, date, time, explicit_date: explicit }),
        None => Err(EventShorthandError::InvalidShorthand),
    }
}

fn clock_before_exec(a: ClockTime, b: ClockTime) -> (before: bool)
    ensures
        before == clock_before(a, b),
{
    a.seconds < b.seconds || (a.seconds == b.seconds && a.nanos < b.nanos)
}

fn next_day_exec(d: CalendarDate) -> (next: Option<CalendarDate>)
    ensures
        next == next_day(d),
{
    match next_date(d.year, d.month, d.day) {
        Some((y, m, dd)) => Some(CalendarDate { year: y, month: m, day: dd }),
        None => None,
    }
}

/// An open end (`START--`) takes the following block's start: when that
/// start has its date written out, or falls no earlier in the day than this
/// start, the end is exactly that start's instant (at the same offset); an
/// offset that differs is refused, whatever the dates.
pub proof fn lemma_inferred_end(e: Seq<char>, start: ShorthandStart, inf: ShorthandStart)
    requires
        e.len() == 0,
    ensures
        inf.instant.offset_seconds != start.instant.offset_seconds ==> shorthand_end_spec(e, start, Some(inf)) == Err::<
            Timestamp,
            EventShorthandError,
        >(EventShorthandError::InvalidInterval),
        inf.instant.offset_seconds == start.instant.offset_seconds && (inf.explicit_date || !clock_before(inf.time, start.time))
            ==> shorthand_end_spec(e, start, Some(inf)) == Ok::<Timestamp, EventShorthandError>(inf.instant),
{
}

/// Reads where a shorthand interval ends (see `shorthand_end_spec`).
pub fn shorthand_end(e: &Vec<char>, start: ShorthandStart, inferred: Option<ShorthandStart>) -> (end: Result<Timestamp, EventShorthandError>)
    ensures
        end == shorthand_end_spec(e@, start, inferred),
        e.len() == 0 && inferred is Some && inferred->0.instant.offset_seconds == start.instant.offset_seconds && (inferred->0.explicit_date
            || !clock_before(inferred->0.time, start.time)) ==> end == Ok::<Timestamp, EventShorthandError>(inferred->0.instant),
        e.len() == 0 && inferred is Some && inferred->0.instant.offset_seconds != start.instant.offset_seconds ==> end == Err::<
            Timestamp,
            EventShorthandError,
        >(EventShorthandError::InvalidInterval),
        e.len() == 0 && inferred is None ==> end == Err::<Timestamp, EventShorthandError>(EventShorthandError::InvalidShorthand),
{
    proof {
        if e.len() == 0 {
            if let Some(inf) = inferred {
                lemma_inferred_end(e@, start, inf);
            }
        }
    }
    let offset = start.instant.offset_seconds;
    if e.len() == 0 {
        return match inferred {
            None => Err(EventShorthandError::InvalidShorthand),
            Some(inf) => if inf.instant.offset_seconds != offset {
                Err(EventShorthandError::InvalidInterval)
            } else if !inf.explicit_date && clock_before_exec(inf.time, start.time) {
                match next_day_exec(start.date) {
                    None => Err(EventShorthandError::InvalidInterval),
                    Some(nd) => match instant_at_exec(nd, inf.time, offset) {
                        None => Err(EventShorthandError::InvalidShorthand),
                        Some(t) => Ok(t),
                    },
                }
            } else {
                Ok(inf.instant)
            },
        };
    }
    match first_index_exec(e, 'T') {
        Some(i) => {
            let head = slice(e, 0, i);
            let rest = slice(e, i + 1, e.len());
            assert(head@ == e@.take(i as int));
            assert(rest@ == e@.skip(i + 1));
            match date_of(&head) {
                None => Err(EventShorthandError::InvalidShorthand),
                Some(d) => match time_of(&rest) {
                    None => Err(EventShorthandError::InvalidShorthand),
                    Some(secs) => match instant_at_exec(d, ClockTime { seconds: secs, nanos: 0 }, offset) {
                        None => Err(EventShorthandError::InvalidShorthand),
                        Some(t) => Ok(t),
                    },
                },
            }
        },
        None => match time_of(e) {
            None => Err(EventShorthandError::InvalidShorthand),
            Some(secs) => {
                let time = ClockTime { seconds: secs, nanos: 0 };
                let date = if clock_before_exec(time, start.time) {
                    next_day_exec(start.date)
                } else {
                    Some(start.date)
                };
                match date {
                    None => Err(EventShorthandError::InvalidInterval),
                    Some(d) => match instant_at_exec(d, time, offset) {
                        None => Err(EventShorthandError::InvalidShorthand),
                        Some(t) => Ok(t),
                    },
                }
            },
        },
    }
}

proof fn lemma_utf8_concat(a: Seq<char>, b: Seq<char>)
    ensures
        utf8_len(a + b) == utf8_len(a) + utf8_len(b),
    decreases b.len(),
{
    if b.len() > 0 {
        lemma_utf8_concat(a, b.drop_last());
        assert((a + b).drop_last() == a + b.drop_last());
        assert((a + b).last() == b.last());
    }
}

fn trimmed_end(s: &Vec<char>) -> (t: Vec<char>)
    ensures
        t@ == trim_end_spec(s@),
{
    let mut n = s.len();
    assert(s@.take(s.len() as int) == s@);
    while n > 0 && is_whitespace(s[n - 1])
        invariant
            n <= s.len(),
            trim_end_spec(s@) == trim_end_spec(s@.take(n as int)),
        decreases n,
    {
        assert(s@.take(n as int).drop_last() == s@.take(n - 1));
        n = n - 1;
    }
    let t = slice(s, 0, n);
    assert(t@ == s@.take(n as int));
    t
}

fn spelled_exec(t: Timestamp) -> (text: Option<String>)
    ensures
        crate::workflow::opt_view(text) == spelled(t),
{
    format_instant(t.seconds, t.nanos, t.offset_seconds)
}

#[verifier::rlimit(40)]
fn split_schedule(schedule: &Vec<char>) -> (split: Option<(Vec<char>, Option<Vec<char>>)>)
    ensures
        match schedule_split(schedule@) {
            Some((a, b)) => split matches Some((x, y)) && x@ == a && match b {
                Some(e) => y matches Some(z) && z@ == e,
                None => y is None,
            },
            None => split is None,
        },
{
    match first_dashes_exec(schedule) {
        Some(i) => {
            let rest = slice(schedule, i + 2, schedule.len());
            assert(rest@ == schedule@.skip(i + 2));
            if i == 0 || first_dashes_exec(&rest).is_some() {
                return None;
            }
            let head = slice(schedule, 0, i);
            assert(head@ == schedule@.take(i as int));
            Some((head, Some(rest)))
        },
        None => {
            let whole = slice(schedule, 0, schedule.len());
            assert(whole@ == schedule@);
            Some((whole, None))
        },
    }
}

fn build_event(
    title: &Vec<char>,
    start: ShorthandStart,
    end: &Option<Vec<char>>,
    inferred: Option<ShorthandStart>,
) -> (event: Result<EventInput, EventShorthandError>)
    ensures
        match shorthand_event(
            title@,
            start,
            match end {
                Some(e) => Some(e@),
                None => None,
            },
            inferred,
        ) {
            Ok(v) => event matches Ok(e) && input_view(e) == v,
            Err(x) => event == Err::<EventInput, EventShorthandError>(x),
        },
{
    let title_text = string_from_chars(&trimmed_end(title));
    match end {
        Some(e) => {
            let end = match shorthand_end(e, start, inferred) {
                Ok(t) => t,
                Err(x) => return Err(x),
            };
            if !is_before(&start.instant, &end) {
                return Err(EventShorthandError::InvalidInterval);
            }
            match (spelled_exec(start.instant), spelled_exec(end)) {
                (Some(a), Some(b)) => Ok(EventInput { title: title_text, at: None, start: Some(a), end: Some(b), tasks: Vec::new() }),
                _ => Err(EventShorthandError::GeneratedInvalid),
            }
        },
        None => match spelled_exec(start.instant) {
            Some(a) => Ok(EventInput { title: title_text, at: Some(a), start: None, end: None, tasks: Vec::new() }),
            None => Err(EventShorthandError::GeneratedInvalid),
        },
    }
}

/// Where the title starts: after the separator and the whitespace that
/// follows it.
fn title_position(chars: &Vec<char>, sep: usize) -> (k: usize)
    requires
        sep <= chars.len(),
    ensures
        sep <= k <= chars.len(),
        chars@.skip(k as int) == trim_start_spec(chars@.skip(sep as int)),
{
    let mut k = sep;
    while k < chars.len() && is_whitespace(chars[k])
        invariant
            sep <= k <= chars.len(),
            trim_start_spec(chars@.skip(sep as int)) == trim_start_spec(chars@.skip(k as int)),
        decreases chars.len() - k,
    {
        assert(chars@.skip(k as int)[0] == chars@[k as int]);
        assert(chars@.skip(k as int).skip(1) == chars@.skip(k + 1));
        k = k + 1;
    }
    proof {
        if k < chars.len() {
            assert(chars@.skip(k as int)[0] == chars@[k as int]);
        }
    }
    k
}

fn prefix_bytes(chars: &Vec<char>, k: usize) -> (bytes: usize)
    requires
        k <= chars.len(),
        utf8_len(chars@) <= usize::MAX,
    ensures
        bytes == utf8_len(chars@) - utf8_len(chars@.skip(k as int)),
{
    let mut bytes: usize = 0;
    let mut j: usize = 0;
    while j < k
        invariant
            k <= chars.len(),
            j <= k,
            utf8_len(chars@) <= usize::MAX,
            bytes == utf8_len(chars@.take(j as int)),
        decreases k - j,
    {
        proof {
            assert(chars@.take(j + 1).drop_last() == chars@.take(j as int));
            crate::text::lemma_utf8_len_prefix(chars@, j + 1);
        }
        bytes = bytes + char_utf8_width(chars[j]);
        j = j + 1;
    }
    proof {
        assert(chars@ == chars@.take(k as int) + chars@.skip(k as int));
        lemma_utf8_concat(chars@.take(k as int), chars@.skip(k as int));
    }
    bytes
}

/// Reads an event shorthand (see `event_shorthand_spec`) in the date and
/// offset of its document, with the end inferred from the next event where
/// the shorthand leaves it open; also gives the byte offset of the title.
pub fn parse_event_shorthand(
    input: &str,
    default_date: CalendarDate,
    offset: i32,
    inferred: Option<ShorthandStart>,
) -> (result: Result<(EventInput, usize), EventShorthandError>)
    requires
        utf8_len(input@) <= usize::MAX,
    ensures
        match event_shorthand_spec(input@, default_date, offset, inferred) {
            Ok((v, title_start)) => result matches Ok((e, t)) && input_view(e) == v && t == title_start,
            Err(x) => result == Err::<(EventInput, usize), EventShorthandError>(x),
        },
{
    let chars = chars_of(input);
    let sep = match first_separator_exec(&chars) {
        Some(i) => i,
        None => return Err(EventShorthandError::InvalidShorthand),
    };
    let k = title_position(&chars, sep);
    let title = slice(&chars, k, chars.len());
    assert(title@ == chars@.skip(k as int));
    if title.len() == 0 {
        return Err(EventShorthandError::InvalidShorthand);
    }
    let title_start = prefix_bytes(&chars, k);
    let schedule = slice(&chars, 0, sep);
    assert(schedule@ == chars@.take(sep as int));
    let (start_text, end_text) = match split_schedule(&schedule) {
        Some(parts) => parts,
        None => return Err(EventShorthandError::InvalidShorthand),
    };
    let start = match shorthand_start(&start_text, default_date, offset) {
        Ok(s) => s,
        Err(e) => return Err(e),
    };
    match build_event(&title, start, &end_text, inferred) {
        Ok(event) => Ok((event, title_start)),
        Err(x) => Err(x),
    }
}

/// The date and offset a document's shorthands are read in (see
/// `shorthand_context_spec`).
pub fn shorthand_context(now_date: CalendarDate, now_offset: i32, date: Option<&str>, timezone: Option<&str>) -> (context: (
    CalendarDate,
    i32,
))
    ensures
        context == shorthand_context_spec(
            now_date,
            now_offset,
            match date {
                Some(d) => Some(d@),
                None => None,
            },
            match timezone {
                Some(t) => Some(t@),
                None => None,
            },
        ),
{
    let (d, o) = match date {
        Some(text) => match parse_date(text) {
            Some((y, m, dd)) => (CalendarDate { year: y, month: m, day: dd }, now_offset),
            None => match parse_rfc3339_parts(text) {
                Some((s, n, off)) => match local_date(s, n, off) {
                    Some((y, m, dd)) => (CalendarDate { year: y, month: m, day: dd }, off),
                    None => (now_date, now_offset),
                },
                None => (now_date, now_offset),
            },
        },
        None => (now_date, now_offset),
    };
    match timezone {
        Some(tz) => {
            let mut probe = chars_of("2000-01-01T00:00:00");
            let tz_chars = chars_of(tz);
            crate::text::extend_chars(&mut probe, &tz_chars);
            let probe_text = string_from_chars(&probe);
            assert(probe_text@ == "2000-01-01T00:00:00"@ + tz@);
            match parse_rfc3339_parts(probe_text.as_str()) {
                Some((_, _, off)) => (d, off),
                None => (d, o),
            }
        },
        None => (d, o),
    }
}

// ---------------------------------------------------------------------------
// Writing an event's schedule compactly.

/// `n` in decimal, zero-padded to at least `width` digits.
pub open spec fn padded(n: nat, width: nat) -> Seq<char> {
    let digits = crate::ids::decimal(n);
    if digits.len() >= width {
        digits
    } else {
        Seq::new((width - digits.len()) as nat, |i: int| '0') + digits
    }
}

/// A year as chrono's `%Y` writes it: four digits, with a sign outside
/// the years 0 to 9999.
pub open spec fn year_text(year: i32) -> Seq<char> {
    if 0 <= year <= 9999 {
        padded(year as nat, 4)
    } else if year < 0 {
        seq!['-'] + padded((-year) as nat, 4)
    } else {
        seq!['+'] + padded(year as nat, 4)
    }
}

/// A date as `%Y-%m-%d`.
pub open spec fn date_text(d: CalendarDate) -> Seq<char> {
    year_text(d.year) + seq!['-'] + padded(d.month as nat, 2) + seq!['-'] + padded(d.day as nat, 2)
}

/// A time of day as `%H:%M`, or `%H:%M:%S` when the seconds are not zero.
pub open spec fn clock_text(t: ClockTime) -> Seq<char> {
    let s = t.seconds as nat;
    let hm = padded(s / 3600, 2) + seq![':'] + padded((s / 60) % 60, 2);
    if s % 60 == 0 {
        hm
    } else {
        hm + seq![':'] + padded(s % 60, 2)
    }
}

/// A UTC offset as chrono writes it: sign, hours and minutes, and seconds
/// when there are any.
pub open spec fn offset_text(offset: i32) -> Seq<char> {
    let sign = if offset < 0 { '-' } else { '+' };
    let a = if offset < 0 { -offset } else { offset as int };
    let hm = seq![sign] + padded((a / 3600) as nat, 2) + seq![':'] + padded(((a / 60) % 60) as nat, 2);
    if a % 60 == 0 {
        hm
    } else {
        hm + seq![':'] + padded((a % 60) as nat, 2)
    }
}

/// The local reading of a parsed timestamp: date, time of day and offset.
pub open spec fn local_reading(t: Timestamp) -> Option<(CalendarDate, ClockTime)> {
    match instant_date(t.seconds, t.nanos, t.offset_seconds) {
        Some((y, m, d)) => Some((
            CalendarDate { year: y, month: m, day: d },
            ClockTime { seconds: ((t.seconds + t.offset_seconds) % 86400) as u32, nanos: t.nanos },
        )),
        None => None,
    }
}

/// An event input's schedule written compactly: the start's date, its
/// offset, and `TIME` or `TIME--END`, the end with its date only when it
/// falls neither on the start's day nor on the next day before the start's
/// time.
pub open spec fn compact_schedule_spec(input: EventInput) -> Result<(Seq<char>, Seq<char>, Seq<char>), crate::events::EventEditError> {
    let parsed: Result<(Timestamp, Option<Timestamp>), crate::events::EventEditError> = match input.at {
        Some(at) => match crate::time::timestamp_of(at@) {
            Some(t) => Ok((t, None)),
            None => Err(crate::events::EventEditError::InvalidDatetime),
        },
        None => match input.start {
            None => Err(crate::events::EventEditError::InvalidTimeShape),
            Some(st) => match crate::time::timestamp_of(st@) {
                None => Err(crate::events::EventEditError::InvalidDatetime),
                Some(start) => match input.end {
                    None => Err(crate::events::EventEditError::InvalidTimeShape),
                    Some(en) => match crate::time::timestamp_of(en@) {
                        None => Err(crate::events::EventEditError::InvalidDatetime),
                        Some(end) => Ok((start, Some(end))),
                    },
                },
            },
        },
    };
    match parsed {
        Err(e) => Err(e),
        Ok((start, end)) => match local_reading(start) {
            None => Err(crate::events::EventEditError::InvalidDatetime),
            Some((sd, st)) => match end {
                None => Ok((date_text(sd), offset_text(start.offset_seconds), clock_text(st))),
                Some(e) => match local_reading(e) {
                    None => Err(crate::events::EventEditError::InvalidDatetime),
                    Some((ed, et)) => {
                        let rollover = next_day(sd) == Some(ed) && clock_before(et, st);
                        let end_text = if ed == sd || rollover {
                            clock_text(et)
                        } else {
                            date_text(ed) + seq!['T'] + clock_text(et)
                        };
                        Ok((date_text(sd), offset_text(start.offset_seconds), clock_text(st) + seq!['-', '-'] + end_text))
                    },
                },
            },
        },
    }
}

fn push_padded(out: &mut Vec<char>, n: u64, width: usize)
    ensures
        final(out)@ == old(out)@ + padded(n as nat, width as nat),
{
    let ghost start = out@;
    let digits = crate::cursor::decimal_u64(n);
    if digits.len() < width {
        let pad = width - digits.len();
        let mut z: usize = 0;
        while z < pad
            invariant
                z <= pad,
                out@ == start + Seq::new(z as nat, |i: int| '0'),
            decreases pad - z,
        {
            out.push('0');
            assert(Seq::new((z + 1) as nat, |i: int| '0') =~= Seq::new(z as nat, |i: int| '0').push('0'));
            z = z + 1;
        }
        crate::text::extend_chars(out, &digits);
        assert(out@ =~= start + padded(n as nat, width as nat));
    } else {
        crate::text::extend_chars(out, &digits);
        assert(out@ =~= start + padded(n as nat, width as nat));
    }
}

fn push_year(out: &mut Vec<char>, year: i32)
    ensures
        final(out)@ == old(out)@ + year_text(year),
{
    let ghost start = out@;
    if 0 <= year && year <= 9999 {
        push_padded(out, year as u64, 4);
    } else if year < 0 {
        out.push('-');
        push_padded(out, (-(year as i64)) as u64, 4);
        assert(out@ =~= start + year_text(year));
    } else {
        out.push('+');
        push_padded(out, year as u64, 4);
        assert(out@ =~= start + year_text(year));
    }
}

fn push_date(out: &mut Vec<char>, d: CalendarDate)
    ensures
        final(out)@ == old(out)@ + date_text(d),
{
    let ghost start = out@;
    push_year(out, d.year);
    out.push('-');
    push_padded(out, d.month as u64, 2);
    out.push('-');
    push_padded(out, d.day as u64, 2);
    assert(out@ =~= start + date_text(d));
}

fn push_clock(out: &mut Vec<char>, t: ClockTime)
    ensures
        final(out)@ == old(out)@ + clock_text(t),
{
    let ghost start = out@;
    let s = t.seconds as u64;
    push_padded(out, s / 3600, 2);
    out.push(':');
    push_padded(out, (s / 60) % 60, 2);
    if s % 60 != 0 {
        out.push(':');
        push_padded(out, s % 60, 2);
    }
    assert(out@ =~= start + clock_text(t));
}

fn push_offset(out: &mut Vec<char>, offset: i32)
    ensures
        final(out)@ == old(out)@ + offset_text(offset),
{
    let ghost start = out@;
    let a: u64 = if offset < 0 { (-(offset as i64)) as u64 } else { offset as u64 };
    out.push(if offset < 0 { '-' } else { '+' });
    push_padded(out, a / 3600, 2);
    out.push(':');
    push_padded(out, (a / 60) % 60, 2);
    if a % 60 != 0 {
        out.push(':');
        push_padded(out, a % 60, 2);
    }
    assert(out@ =~= start + offset_text(offset));
}

fn local_reading_exec(t: Timestamp) -> (reading: Option<(CalendarDate, ClockTime)>)
    ensures
        reading == local_reading(t),
{
    match local_date(t.seconds, t.nanos, t.offset_seconds) {
        Some((y, m, d)) => {
            let shift: i128 = 86400 * 1125899906842624;
            let x: i128 = t.seconds as i128 + t.offset_seconds as i128;
            let y_pos: i128 = x + shift;
            let r = (y_pos % 86400) as u32;
            proof {
                vstd::arithmetic::div_mod::lemma_mod_multiples_vanish(1125899906842624, x as int, 86400);
                assert(y_pos % 86400 == (t.seconds + t.offset_seconds) % 86400);
            }
            Some((CalendarDate { year: y, month: m, day: d }, ClockTime { seconds: r, nanos: t.nanos }))
        },
        None => None,
    }
}

fn timestamp_field(text: &Option<String>) -> (t: Result<Option<Timestamp>, ()>)
    ensures
        match *text {
            None => t == Ok::<Option<Timestamp>, ()>(None),
            Some(s) => match crate::time::timestamp_of(s@) {
                Some(x) => t == Ok::<Option<Timestamp>, ()>(Some(x)),
                None => t is Err,
            },
        },
{
    match text {
        None => Ok(None),
        Some(s) => match crate::time::parse_timestamp(s.as_str()) {
            Some(x) => Ok(Some(x)),
            None => Err(()),
        },
    }
}

/// Writes an event input's schedule compactly (see
/// `compact_schedule_spec`): the start's date, its offset, and the times.
pub fn compact_event_schedule(input: &EventInput) -> (result: Result<(String, String, String), crate::events::EventEditError>)
    ensures
        match compact_schedule_spec(*input) {
            Ok((d, o, w)) => result matches Ok((a, b, c)) && a@ == d && b@ == o && c@ == w,
            Err(e) => result == Err::<(String, String, String), crate::events::EventEditError>(e),
        },
{
    let (start, end) = match &input.at {
        Some(_) => match timestamp_field(&input.at) {
            Ok(Some(t)) => (t, None),
            _ => return Err(EventEditError::InvalidDatetime),
        },
        None => {
            if input.start.is_none() {
                return Err(EventEditError::InvalidTimeShape);
            }
            let start = match timestamp_field(&input.start) {
                Ok(Some(t)) => t,
                _ => return Err(EventEditError::InvalidDatetime),
            };
            if input.end.is_none() {
                return Err(EventEditError::InvalidTimeShape);
            }
            let end = match timestamp_field(&input.end) {
                Ok(Some(t)) => t,
                _ => return Err(EventEditError::InvalidDatetime),
            };
            (start, Some(end))
        },
    };
    let (sd, st) = match local_reading_exec(start) {
        Some(r) => r,
        None => return Err(EventEditError::InvalidDatetime),
    };
    let mut date: Vec<char> = Vec::new();
    push_date(&mut date, sd);
    let mut offset: Vec<char> = Vec::new();
    push_offset(&mut offset, start.offset_seconds);
    let mut when: Vec<char> = Vec::new();
    push_clock(&mut when, st);
    match end {
        None => {},
        Some(e) => {
            let (ed, et) = match local_reading_exec(e) {
                Some(r) => r,
                None => return Err(EventEditError::InvalidDatetime),
            };
            let rollover = match next_day_exec(sd) {
                Some(n) => n == ed && clock_before_exec(et, st),
                None => false,
            };
            when.push('-');
            when.push('-');
            if ed == sd || rollover {
                push_clock(&mut when, et);
            } else {
                push_date(&mut when, ed);
                when.push('T');
                push_clock(&mut when, et);
            }
            proof {
                let end_text = if ed == sd || rollover {
                    clock_text(et)
                } else {
                    date_text(ed) + seq!['T'] + clock_text(et)
                };
                assert(when@ =~= clock_text(st) + seq!['-', '-'] + end_text);
            }
        },
    }
    Ok((string_from_chars(&date), string_from_chars(&offset), string_from_chars(&when)))
}


/// The start that the leading shorthand argument of a following block
/// gives: the argument must hold a schedule, a space or tab, and a rest
/// that is not blank; a schedule with an end (`start--end`) counts only
/// when the end is empty or a bare time; the start is then read as a
/// shorthand start.
pub open spec fn inferred_start_spec(s: Seq<char>, default_date: CalendarDate, offset: i32) -> Option<ShorthandStart> {
    match first_separator(s) {
        None => None,
        Some(sep) => if trim_end_spec(s.skip(sep)).len() == 0 {
            None
        } else {
            let start: Option<Seq<char>> = match schedule_split(s.take(sep)) {
                Some((a, None)) => Some(a),
                Some((a, Some(e))) => if e.len() == 0 || (first_index(e, 'T') is None && shorthand_time_spec(e) is Some) {
                    Some(a)
                } else {
                    None
                },
                None => None,
            };
            match start {
                Some(a) => match shorthand_start_spec(a, default_date, offset) {
                    Ok(x) => Some(x),
                    Err(_) => None,
                },
                None => None,
            }
        },
    }
}

/// The start that a following block's leading shorthand argument gives
/// (see `inferred_start_spec`).
pub fn inferred_start(argument: &str, default_date: CalendarDate, offset: i32) -> (start: Option<ShorthandStart>)
    ensures
        start == inferred_start_spec(argument@, default_date, offset),
{
    let s = chars_of(argument);
    let sep = match first_separator_exec(&s) {
        Some(i) => i,
        None => {
            return None;
        },
    };
    let rest = slice(&s, sep, s.len());
    assert(rest@ == s@.skip(sep as int));
    if trimmed_end(&rest).len() == 0 {
        return None;
    }
    let schedule = slice(&s, 0, sep);
    assert(schedule@ == s@.take(sep as int));
    let start = match split_schedule(&schedule) {
        Some((a, None)) => a,
        Some((a, Some(e))) => {
            if e.len() == 0 || (first_index_exec(&e, 'T').is_none() && crate::events::parse_shorthand_time(
                string_from_chars(&e).as_str(),
            ).is_ok()) {
                a
            } else {
                return None;
            }
        },
        None => {
            return None;
        },
    };
    match shorthand_start(&start, default_date, offset) {
        Ok(x) => Some(x),
        Err(_) => None,
    }
}

} // verus!
