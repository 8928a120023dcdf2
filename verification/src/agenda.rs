//! Agenda accounting: where an event lands in a reporting window, and how
//! the accepted intervals cover that window (gaps, overlaps, covered time).
//! Instants are integers on one clock; the caller converts timestamps.
use vstd::prelude::*;
use vstd::std_specs::convert::FromSpecImpl;

verus! {

/// An ordered source byte span.
#[derive(Debug, Clone, Copy, PartialEq, Eq, Structural, PartialOrd, Ord, Hash)]
pub struct RangeKey {
    pub start: usize,
    pub end: usize,
}

impl From<std::ops::Range<usize>> for RangeKey {
    fn from(r: std::ops::Range<usize>) -> (key: RangeKey) {
        RangeKey { start: r.start, end: r.end }
    }
}

impl FromSpecImpl<std::ops::Range<usize>> for RangeKey {
    open spec fn obeys_from_spec() -> bool {
        true
    }

    open spec fn from_spec(r: std::ops::Range<usize>) -> RangeKey {
        RangeKey { start: r.start, end: r.end }
    }
}

/// A place in a document: its path and a byte span.
#[derive(Debug, Clone, PartialEq, Eq, PartialOrd, Ord)]
pub struct AgendaLocation {
    pub path: String,
    pub range: RangeKey,
}

/// A problem found while accounting, with a stable code.
#[derive(Debug, Clone)]
pub struct AgendaIssue {
    pub code: String,
    pub message: String,
    pub source: AgendaLocation,
}

/// What an event is accounted to: a document, or a task anchor in it.
#[derive(Debug, Clone, PartialEq, Eq, PartialOrd, Ord)]
pub struct AgendaItem {
    pub path: String,
    pub id: Option<String>,
}

/// The outcome of checking the categories of the selected events.
#[derive(Debug, Clone)]
pub struct CategoryCheckReport {
    pub complete: bool,
    pub checked: usize,
    pub missing: Vec<AgendaLocation>,
    pub issues: Vec<AgendaIssue>,
}

/// The location of a span in a document.
pub fn location(path: &str, range: std::ops::Range<usize>) -> (loc: AgendaLocation)
    ensures
        loc.path@ == path@,
        loc.range == (RangeKey { start: range.start, end: range.end }),
{
    AgendaLocation { path: path.to_string(), range: RangeKey::from(range) }
}

/// An issue with the given code and message at a location.
pub fn issue(code: &str, message: String, source: AgendaLocation) -> (found: AgendaIssue)
    ensures
        found.code@ == code@,
        found.message == message,
        found.source == source,
{
    AgendaIssue { code: code.to_string(), message, source }
}

// ---------------------------------------------------------------------------
// Where an event lands in the window [from, to).

/// How an event relates to a reporting window.
#[derive(Debug, Clone, Copy, PartialEq, Eq, Structural)]
pub enum EventPlacement {
    /// A point event inside the window.
    Point,
    /// Nothing of the event lies in the window.
    Outside,
    /// The event has no finite interval.
    NoInterval,
    /// The event's end does not follow its start.
    EndNotAfterStart,
    /// The part of the event's interval inside the window.
    Clipped { start: i64, end: i64 },
}

/// Where an event with an optional point instant and optional interval
/// bounds lands in the window `[from, to)`.
pub open spec fn placement_spec(at: Option<i64>, start: Option<i64>, end: Option<i64>, from: i64, to: i64) -> EventPlacement {
    match at {
        Some(t) => if from <= t < to { EventPlacement::Point } else { EventPlacement::Outside },
        None => match (start, end) {
            (Some(s), Some(e)) => {
                if e <= s {
                    EventPlacement::EndNotAfterStart
                } else if s >= to || e <= from {
                    EventPlacement::Outside
                } else {
                    EventPlacement::Clipped {
                        start: if s < from { from } else { s },
                        end: if e > to { to } else { e },
                    }
                }
            },
            _ => EventPlacement::NoInterval,
        },
    }
}

/// Places one event in the window `[from, to)`.
pub fn place_event(at: Option<i64>, start: Option<i64>, end: Option<i64>, from: i64, to: i64) -> (placed: EventPlacement)
    ensures
        placed == placement_spec(at, start, end, from, to),
        from < to && placed is Clipped ==> from <= placed->start < placed->end <= to,
{
    match at {
        Some(t) => if from <= t && t < to { EventPlacement::Point } else { EventPlacement::Outside },
        None => match (start, end) {
            (Some(s), Some(e)) => {
                if e <= s {
                    EventPlacement::EndNotAfterStart
                } else if s >= to || e <= from {
                    EventPlacement::Outside
                } else {
                    EventPlacement::Clipped {
                        start: if s < from { from } else { s },
                        end: if e > to { to } else { e },
                    }
                }
            },
            _ => EventPlacement::NoInterval,
        },
    }
}

/// The issue an event's placement raises, if any: events without a finite
/// interval, or whose end does not follow the start, are reported.
pub fn placement_issue(placed: EventPlacement, source: AgendaLocation) -> (found: Option<AgendaIssue>)
    ensures
        placed == EventPlacement::NoInterval ==> (found matches Some(i) && i.code@ == "agenda.invalid-time"@
            && i.message@ == "event has no valid finite interval"@ && i.source == source),
        placed == EventPlacement::EndNotAfterStart ==> (found matches Some(i) && i.code@ == "agenda.invalid-time"@
            && i.message@ == "event end must follow start"@ && i.source == source),
        placed != EventPlacement::NoInterval && placed != EventPlacement::EndNotAfterStart ==> found is None,
{
    match placed {
        EventPlacement::NoInterval => Some(issue("agenda.invalid-time", "event has no valid finite interval".to_string(), source)),
        EventPlacement::EndNotAfterStart => Some(issue("agenda.invalid-time", "event end must follow start".to_string(), source)),
        _ => None,
    }
}

// ---------------------------------------------------------------------------
// How accepted intervals cover the window.

/// Whether interval `i` covers instant `t`.
pub open spec fn covers(iv: Seq<(i64, i64)>, i: int, t: int) -> bool {
    iv[i].0 <= t < iv[i].1
}

/// The indices below `n` of the intervals that cover `t`, ascending.
pub open spec fn active_below(iv: Seq<(i64, i64)>, t: int, n: int) -> Seq<usize>
    decreases n,
{
    if n <= 0 {
        seq![]
    } else if covers(iv, n - 1, t) {
        active_below(iv, t, n - 1).push((n - 1) as usize)
    } else {
        active_below(iv, t, n - 1)
    }
}

/// The indices of the intervals that cover `t`, ascending.
pub open spec fn active_at(iv: Seq<(i64, i64)>, t: int) -> Seq<usize> {
    active_below(iv, t, iv.len() as int)
}

/// Whether `t` is an end of the window or of some interval.
pub open spec fn is_boundary(from: i64, to: i64, iv: Seq<(i64, i64)>, t: int) -> bool {
    ||| t == from
    ||| t == to
    ||| exists|i: int| 0 <= i < iv.len() && (iv[i].0 == t || iv[i].1 == t)
}

/// Whether `[a, b)` lies in the window between two neighbouring boundaries.
pub open spec fn elementary(from: i64, to: i64, iv: Seq<(i64, i64)>, a: int, b: int) -> bool {
    &&& from <= a < b <= to
    &&& is_boundary(from, to, iv, a)
    &&& is_boundary(from, to, iv, b)
    &&& forall|t: int| a < t < b ==> !#[trigger] is_boundary(from, to, iv, t)
}

/// Whether every interval is nonempty and lies in the nonempty window.
pub open spec fn well_placed(from: i64, to: i64, iv: Seq<(i64, i64)>) -> bool {
    &&& from < to
    &&& forall|i: int| 0 <= i < iv.len() ==> from <= #[trigger] iv[i].0 < iv[i].1 <= to
}

/// How many instants of `[a, b)` some interval covers.
pub open spec fn covered_count(iv: Seq<(i64, i64)>, a: int, b: int) -> int
    decreases b - a,
{
    if b <= a {
        0
    } else {
        covered_count(iv, a, b - 1) + if active_at(iv, b - 1).len() > 0 { 1int } else { 0int }
    }
}

/// The summed lengths of a list of intervals.
pub open spec fn interval_total(iv: Seq<(i64, i64)>) -> int
    decreases iv.len(),
{
    if iv.len() == 0 {
        0
    } else {
        interval_total(iv.drop_last()) + (iv.last().1 - iv.last().0)
    }
}

/// A stretch of the window between neighbouring boundaries, with the
/// indices of the intervals that cover it.
#[derive(Debug)]
pub struct TimelineSpan {
    pub start: i64,
    pub end: i64,
    pub events: Vec<usize>,
}

/// How the intervals cover the window: the stretches no interval covers,
/// those more than one covers, how many instants are covered, and the
/// summed interval lengths.
#[derive(Debug)]
pub struct AgendaTimeline {
    pub gaps: Vec<TimelineSpan>,
    pub overlaps: Vec<TimelineSpan>,
    pub covered: u64,
    pub accumulated: u128,
}

/// The summed lengths of a list of spans.
pub open spec fn span_total(spans: Seq<TimelineSpan>) -> int
    decreases spans.len(),
{
    if spans.len() == 0 {
        0
    } else {
        span_total(spans.drop_last()) + (spans.last().end - spans.last().start)
    }
}

/// `spans` lists, in order, exactly the stretches of the window before
/// `upto` between neighbouring boundaries whose number of covering
/// intervals satisfies `wanted`, each with those intervals.
pub open spec fn spans_exact(
    from: i64,
    to: i64,
    iv: Seq<(i64, i64)>,
    spans: Seq<TimelineSpan>,
    upto: int,
    wanted: spec_fn(nat) -> bool,
) -> bool {
    &&& forall|k: int| 0 <= k < spans.len() ==> elementary(from, to, iv, #[trigger] spans[k].start as int, spans[k].end as int)
    &&& forall|k: int| 0 <= k < spans.len() ==> #[trigger] spans[k].end <= upto
    &&& forall|k: int| 0 <= k < spans.len() ==> #[trigger] spans[k].events@ == active_at(iv, spans[k].start as int)
    &&& forall|k: int| 0 <= k < spans.len() ==> wanted(#[trigger] active_at(iv, spans[k].start as int).len())
    &&& forall|k: int, l: int| 0 <= k < l < spans.len() ==> #[trigger] spans[k].end <= #[trigger] spans[l].start
    &&& forall|t: int| from <= t < upto && wanted(#[trigger] active_at(iv, t).len()) ==>
        exists|k: int| 0 <= k < spans.len() && (#[trigger] spans[k]).start <= t < spans[k].end
}

/// No interval covers.
pub open spec fn uncovered() -> spec_fn(nat) -> bool {
    |n: nat| n == 0
}

/// More than one interval covers.
pub open spec fn overlapping() -> spec_fn(nat) -> bool {
    |n: nat| n > 1
}

proof fn lemma_active_same(iv: Seq<(i64, i64)>, t: int, u: int, n: int)
    requires
        0 <= n <= iv.len(),
        forall|i: int| 0 <= i < n ==> covers(iv, i, t) == covers(iv, i, u),
    ensures
        active_below(iv, t, n) == active_below(iv, u, n),
    decreases n,
{
    if n > 0 {
        lemma_active_same(iv, t, u, n - 1);
    }
}

proof fn lemma_active_empty(iv: Seq<(i64, i64)>, t: int, n: int)
    requires
        0 <= n <= iv.len(),
    ensures
        active_below(iv, t, n).len() == 0 <==> forall|i: int| 0 <= i < n ==> !covers(iv, i, t),
    decreases n,
{
    if n > 0 {
        lemma_active_empty(iv, t, n - 1);
        if active_below(iv, t, n).len() == 0 {
            assert forall|i: int| 0 <= i < n implies !covers(iv, i, t) by {
                if i < n - 1 {
                } else {
                }
            }
        }
    }
}

proof fn lemma_count_split(iv: Seq<(i64, i64)>, a: int, b: int, c: int)
    requires
        a <= b <= c,
    ensures
        covered_count(iv, a, c) == covered_count(iv, a, b) + covered_count(iv, b, c),
    decreases c - b,
{
    if c > b {
        lemma_count_split(iv, a, b, c - 1);
    }
}

proof fn lemma_count_constant(iv: Seq<(i64, i64)>, p: int, n: int)
    requires
        p <= n,
        forall|t: int| p <= t < n ==> #[trigger] active_at(iv, t) == active_at(iv, p),
    ensures
        covered_count(iv, p, n) == if active_at(iv, p).len() > 0 { n - p } else { 0 },
    decreases n - p,
{
    if n > p {
        lemma_count_constant(iv, p, n - 1);
        assert(active_at(iv, n - 1) == active_at(iv, p));
    }
}

proof fn lemma_count_bound(iv: Seq<(i64, i64)>, a: int, b: int)
    requires
        a <= b,
    ensures
        0 <= covered_count(iv, a, b) <= b - a,
    decreases b - a,
{
    if b > a {
        lemma_count_bound(iv, a, b - 1);
    }
}

/// Spans exact up to `prev` stay exact up to `next` when `[prev, next)`
/// holds no instant they are meant to list.
proof fn lemma_spans_extend(
    from: i64,
    to: i64,
    iv: Seq<(i64, i64)>,
    spans: Seq<TimelineSpan>,
    prev: int,
    next: int,
    wanted: spec_fn(nat) -> bool,
)
    requires
        prev <= next,
        spans_exact(from, to, iv, spans, prev, wanted),
        !wanted(active_at(iv, prev).len()),
        forall|t: int| prev <= t < next ==> #[trigger] active_at(iv, t) == active_at(iv, prev),
    ensures
        spans_exact(from, to, iv, spans, next, wanted),
{
    assert forall|t: int| from <= t < next && wanted(#[trigger] active_at(iv, t).len()) implies
        exists|k: int| 0 <= k < spans.len() && (#[trigger] spans[k]).start <= t < spans[k].end by {
        if t >= prev {
            assert(active_at(iv, t) == active_at(iv, prev));
        }
    }
}

/// Appending the span `[prev, next)` keeps the spans exact, now up to `next`.
proof fn lemma_spans_push(
    from: i64,
    to: i64,
    iv: Seq<(i64, i64)>,
    spans: Seq<TimelineSpan>,
    span: TimelineSpan,
    prev: int,
    next: int,
    wanted: spec_fn(nat) -> bool,
)
    requires
        spans_exact(from, to, iv, spans, prev, wanted),
        span.start == prev,
        span.end == next,
        elementary(from, to, iv, prev, next),
        span.events@ == active_at(iv, prev),
        wanted(active_at(iv, prev).len()),
        forall|t: int| prev <= t < next ==> #[trigger] active_at(iv, t) == active_at(iv, prev),
    ensures
        spans_exact(from, to, iv, spans.push(span), next, wanted),
        span_total(spans.push(span)) == span_total(spans) + (next - prev),
{
    let out = spans.push(span);
    assert(out.drop_last() == spans);
    assert forall|k: int| 0 <= k < out.len() implies elementary(from, to, iv, #[trigger] out[k].start as int, out[k].end as int) by {
        if k < spans.len() {
            assert(out[k] == spans[k]);
        }
    }
    assert forall|k: int| 0 <= k < out.len() implies #[trigger] out[k].events@ == active_at(iv, out[k].start as int) by {
        if k < spans.len() {
            assert(out[k] == spans[k]);
            assert(spans[k].events@ == active_at(iv, spans[k].start as int));
        } else {
            assert(out[k] == span);
            assert(span.events@ == active_at(iv, span.start as int));
        }
    }
    assert forall|k: int| 0 <= k < out.len() implies wanted(#[trigger] active_at(iv, out[k].start as int).len()) by {
        if k < spans.len() {
            assert(out[k] == spans[k]);
        }
    }
    assert forall|k: int| 0 <= k < out.len() implies #[trigger] out[k].end <= next by {
        if k < spans.len() {
            assert(out[k] == spans[k]);
            assert(spans[k].end <= prev);
        }
    }
    assert forall|k: int, l: int| 0 <= k < l < out.len() implies #[trigger] out[k].end <= #[trigger] out[l].start by {
        assert(out[k] == spans[k]);
        if l < spans.len() {
            assert(out[l] == spans[l]);
        } else {
            assert(spans[k].end <= prev);
        }
    }
    assert forall|t: int| from <= t < next && wanted(#[trigger] active_at(iv, t).len()) implies
        exists|k: int| 0 <= k < out.len() && (#[trigger] out[k]).start <= t < out[k].end by {
        if t >= prev {
            assert(out[out.len() - 1] == span);
        } else {
            let k = choose|k: int| 0 <= k < spans.len() && (#[trigger] spans[k]).start <= t < spans[k].end;
            assert(out[k] == spans[k]);
        }
    }
}

/// How the well-placed intervals `iv` cover the window `[from, to)`.
/// The gaps and the covered instants together fill the window.
pub fn agenda_timeline(from: i64, to: i64, iv: &Vec<(i64, i64)>) -> (timeline: AgendaTimeline)
    requires
        well_placed(from, to, iv@),
    ensures
        spans_exact(from, to, iv@, timeline.gaps@, to as int, uncovered()),
        spans_exact(from, to, iv@, timeline.overlaps@, to as int, overlapping()),
        timeline.covered == covered_count(iv@, from as int, to as int),
        timeline.accumulated == interval_total(iv@),
        span_total(timeline.gaps@) + timeline.covered == to - from,
{
    let n = iv.len();
    let mut gaps: Vec<TimelineSpan> = Vec::new();
    let mut overlaps: Vec<TimelineSpan> = Vec::new();
    let mut covered: u64 = 0;
    let mut prev: i64 = from;
    while prev < to
        invariant
            n == iv.len(),
            well_placed(from, to, iv@),
            from <= prev <= to,
            is_boundary(from, to, iv@, prev as int),
            covered == covered_count(iv@, from as int, prev as int),
            span_total(gaps@) + covered == prev - from,
            spans_exact(from, to, iv@, gaps@, prev as int, uncovered()),
            spans_exact(from, to, iv@, overlaps@, prev as int, overlapping()),
        decreases to - prev,
    {
        // The next boundary after `prev`.
        let mut next: i64 = to;
        let mut i: usize = 0;
        while i < n
            invariant
                n == iv.len(),
                well_placed(from, to, iv@),
                from <= prev < to,
                i <= n,
                prev < next <= to,
                next == to || exists|j: int| 0 <= j < n && (iv@[j].0 == next || iv@[j].1 == next),
                forall|j: int| 0 <= j < i ==> !(prev < #[trigger] iv@[j].0 < next) && !(prev < iv@[j].1 < next),
            decreases n - i,
        {
            let (s, e) = iv[i];
            if prev < s && s < next {
                next = s;
            }
            if prev < e && e < next {
                next = e;
            }
            i = i + 1;
        }
        // The intervals covering `prev`, and so all of `[prev, next)`.
        let mut active: Vec<usize> = Vec::new();
        let mut j: usize = 0;
        while j < n
            invariant
                n == iv.len(),
                j <= n,
                active@ == active_below(iv@, prev as int, j as int),
            decreases n - j,
        {
            let (s, e) = iv[j];
            if s <= prev && prev < e {
                active.push(j);
            }
            j = j + 1;
        }
        proof {
            assert(is_boundary(from, to, iv@, next as int));
            assert forall|t: int| prev < t < next implies !#[trigger] is_boundary(from, to, iv@, t) by {
                if exists|k: int| 0 <= k < iv@.len() && (iv@[k].0 == t || iv@[k].1 == t) {
                    let k = choose|k: int| 0 <= k < iv@.len() && (iv@[k].0 == t || iv@[k].1 == t);
                    assert(!(prev < iv@[k].0 < next));
                }
            }
            assert(elementary(from, to, iv@, prev as int, next as int));
            assert forall|t: int| prev <= t < next implies #[trigger] active_at(iv@, t) == active_at(iv@, prev as int) by {
                assert forall|k: int| 0 <= k < iv@.len() implies covers(iv@, k, t) == covers(iv@, k, prev as int) by {
                    assert(!(prev < iv@[k].0 < next));
                    assert(!(prev < iv@[k].1 < next));
                }
                lemma_active_same(iv@, t, prev as int, iv@.len() as int);
            }
            lemma_count_split(iv@, from as int, prev as int, next as int);
            lemma_count_constant(iv@, prev as int, next as int);
        }
        let width: u64 = (next as i128 - prev as i128) as u64;
        let count = active.len();
        let span = TimelineSpan { start: prev, end: next, events: active };
        assert(span.events@ == active_at(iv@, prev as int));
        if count == 0 {
            proof {
                lemma_spans_push(from, to, iv@, gaps@, span, prev as int, next as int, uncovered());
                lemma_spans_extend(from, to, iv@, overlaps@, prev as int, next as int, overlapping());
            }
            gaps.push(span);
        } else {
            proof {
                lemma_count_bound(iv@, from as int, next as int);
                lemma_spans_extend(from, to, iv@, gaps@, prev as int, next as int, uncovered());
            }
            covered = covered + width;
            if count > 1 {
                proof {
                    lemma_spans_push(from, to, iv@, overlaps@, span, prev as int, next as int, overlapping());
                }
                overlaps.push(span);
            } else {
                proof {
                    lemma_spans_extend(from, to, iv@, overlaps@, prev as int, next as int, overlapping());
                }
            }
        }
        prev = next;
    }
    let mut accumulated: u128 = 0;
    let mut k: usize = 0;
    while k < n
        invariant
            n == iv.len(),
            well_placed(from, to, iv@),
            k <= n,
            accumulated == interval_total(iv@.take(k as int)),
            0 <= accumulated <= k * 0x1_0000_0000_0000_0000,
        decreases n - k,
    {
        let (s, e) = iv[k];
        proof {
            assert(iv@.take(k + 1).drop_last() == iv@.take(k as int));
        }
        accumulated = accumulated + (e as i128 - s as i128) as u128;
        k = k + 1;
    }
    assert(iv@.take(n as int) == iv@);
    AgendaTimeline { gaps, overlaps, covered, accumulated }
}

// ---------------------------------------------------------------------------
// Checking event categories.

/// A copy of a location.
pub fn copy_location(l: &AgendaLocation) -> (c: AgendaLocation)
    ensures
        c == *l,
{
    AgendaLocation { path: l.path.clone(), range: l.range }
}

/// A copy of an issue.
pub fn copy_issue(i: &AgendaIssue) -> (c: AgendaIssue)
    ensures
        c == *i,
{
    AgendaIssue { code: i.code.clone(), message: i.message.clone(), source: copy_location(&i.source) }
}

/// What the categories of one selected event look like.
#[derive(Debug, Clone)]
pub struct EventCategoryFacts {
    pub source: AgendaLocation,
    /// The event declares no category value.
    pub declared_empty: bool,
    /// The event's category declaration is malformed.
    pub declared_invalid: bool,
    /// Some accounting share of the event is left without a category.
    pub share_uncategorized: bool,
    /// The issues that accounting the event raised.
    pub accounting_issues: Vec<AgendaIssue>,
}

/// An issue as plain values: code, message and location.
pub open spec fn issue_view(i: AgendaIssue) -> (Seq<char>, Seq<char>, AgendaLocation) {
    (i.code@, i.message@, i.source)
}

/// Whether an event lacks a category: in explicit mode its own declaration
/// must give one, otherwise every accounting share must end with one.
pub open spec fn category_missing(explicit: bool, f: EventCategoryFacts) -> bool {
    if explicit {
        f.declared_empty || f.declared_invalid
    } else {
        f.share_uncategorized
    }
}

/// The locations of the events that lack a category, in order.
pub open spec fn missing_sources(explicit: bool, events: Seq<EventCategoryFacts>) -> Seq<AgendaLocation>
    decreases events.len(),
{
    if events.len() == 0 {
        seq![]
    } else {
        let rest = missing_sources(explicit, events.drop_last());
        if category_missing(explicit, events.last()) {
            rest.push(events.last().source)
        } else {
            rest
        }
    }
}

/// The issues one event raises when categories are checked.
pub open spec fn event_category_issues(explicit: bool, f: EventCategoryFacts) -> Seq<(Seq<char>, Seq<char>, AgendaLocation)> {
    if explicit {
        if f.declared_invalid {
            seq![("agenda.invalid-category"@, "invalid event category"@, f.source)]
        } else {
            seq![]
        }
    } else {
        f.accounting_issues@.map_values(|i: AgendaIssue| issue_view(i))
    }
}

/// The issues all events raise, in order.
pub open spec fn category_issues(explicit: bool, events: Seq<EventCategoryFacts>) -> Seq<(Seq<char>, Seq<char>, AgendaLocation)>
    decreases events.len(),
{
    if events.len() == 0 {
        seq![]
    } else {
        category_issues(explicit, events.drop_last()) + event_category_issues(explicit, events.last())
    }
}

/// Checks the categories of the selected events, without a time window.
/// The report is complete when the selection was and nothing was raised.
pub fn check_event_categories(selection_complete: bool, explicit: bool, events: &Vec<EventCategoryFacts>) -> (report: CategoryCheckReport)
    ensures
        report.checked == events.len(),
        report.missing@ == missing_sources(explicit, events@),
        report.issues@.map_values(|i: AgendaIssue| issue_view(i)) == category_issues(explicit, events@),
        report.complete == (selection_complete && report.issues.len() == 0),
{
    let mut missing: Vec<AgendaLocation> = Vec::new();
    let mut issues: Vec<AgendaIssue> = Vec::new();
    let mut i: usize = 0;
    while i < events.len()
        invariant
            i <= events.len(),
            missing@ == missing_sources(explicit, events@.take(i as int)),
            issues@.map_values(|x: AgendaIssue| issue_view(x)) == category_issues(explicit, events@.take(i as int)),
        decreases events.len() - i,
    {
        let f = &events[i];
        let ghost before = issues@;
        proof {
            assert(events@.take(i + 1).drop_last() == events@.take(i as int));
            assert(events@.take(i + 1).last() == events@[i as int]);
        }
        if explicit {
            if f.declared_invalid {
                issues.push(issue("agenda.invalid-category", "invalid event category".to_string(), copy_location(&f.source)));
                proof {
                    assert(issues@.map_values(|x: AgendaIssue| issue_view(x)) =~= before.map_values(|x: AgendaIssue| issue_view(x))
                        + event_category_issues(explicit, *f));
                }
            } else {
                assert(event_category_issues(explicit, *f) =~= seq![]);
                assert(before.map_values(|x: AgendaIssue| issue_view(x)) + seq![] =~= before.map_values(|x: AgendaIssue| issue_view(x)));
            }
        } else {
            let mut j: usize = 0;
            while j < f.accounting_issues.len()
                invariant
                    j <= f.accounting_issues.len(),
                    issues@ == before + f.accounting_issues@.take(j as int),
                decreases f.accounting_issues.len() - j,
            {
                issues.push(copy_issue(&f.accounting_issues[j]));
                proof {
                    assert(f.accounting_issues@.take(j + 1) == f.accounting_issues@.take(j as int).push(f.accounting_issues@[j as int]));
                }
                j = j + 1;
            }
            proof {
                assert(f.accounting_issues@.take(j as int) == f.accounting_issues@);
                assert(issues@.map_values(|x: AgendaIssue| issue_view(x)) =~= before.map_values(|x: AgendaIssue| issue_view(x))
                    + f.accounting_issues@.map_values(|x: AgendaIssue| issue_view(x)));
            }
        }
        let missing_here = if explicit { f.declared_empty || f.declared_invalid } else { f.share_uncategorized };
        if missing_here {
            missing.push(copy_location(&f.source));
        }
        i = i + 1;
    }
    proof {
        assert(events@.take(events.len() as int) == events@);
    }
    let complete = selection_complete && issues.len() == 0;
    CategoryCheckReport { complete, checked: events.len(), missing, issues }
}

/// What `agenda_timeline` promises of a timeline of the window `[from,
/// to)` and the intervals `iv`.
pub open spec fn timeline_of(from: i64, to: i64, iv: Seq<(i64, i64)>, timeline: AgendaTimeline) -> bool {
    &&& spans_exact(from, to, iv, timeline.gaps@, to as int, uncovered())
    &&& spans_exact(from, to, iv, timeline.overlaps@, to as int, overlapping())
    &&& timeline.covered == covered_count(iv, from as int, to as int)
    &&& timeline.accumulated == interval_total(iv)
    &&& span_total(timeline.gaps@) + timeline.covered == to - from
}

/// The intervals of the events that were clipped to the window, in order.
pub open spec fn clipped_intervals(placements: Seq<EventPlacement>) -> Seq<(i64, i64)>
    decreases placements.len(),
{
    if placements.len() == 0 {
        Seq::empty()
    } else {
        let rest = clipped_intervals(placements.drop_last());
        match placements.last() {
            EventPlacement::Clipped { start, end } => rest.push((start, end)),
            _ => rest,
        }
    }
}

/// The events (by position) whose placement passes `keep`, in order.
pub open spec fn placed_where(placements: Seq<EventPlacement>, keep: spec_fn(EventPlacement) -> bool) -> Seq<usize>
    decreases placements.len(),
{
    if placements.len() == 0 {
        Seq::empty()
    } else {
        let rest = placed_where(placements.drop_last(), keep);
        if keep(placements.last()) {
            rest.push((placements.len() - 1) as usize)
        } else {
            rest
        }
    }
}

/// Where each event of a report lands in its window: the point events
/// inside it, the events whose clipped intervals are allocated (in the
/// order of the timeline's intervals), and how those intervals cover the
/// window.
#[derive(Debug)]
pub struct AgendaWindow {
    pub placements: Vec<EventPlacement>,
    pub points: Vec<usize>,
    pub allocated: Vec<usize>,
    pub timeline: AgendaTimeline,
}

/// The events (by position) whose intervals were clipped to the window.
pub open spec fn allocated_positions(placements: Seq<EventPlacement>) -> Seq<usize> {
    placed_where(placements, |p: EventPlacement| p is Clipped)
}

/// What `w` holds for the events (their `at`, `start` and `end` instants)
/// in the window `[from, to)`: each event's placement, the point events,
/// the events whose clipped intervals are allocated, and the timeline of
/// those intervals, which lie in the window.
pub open spec fn window_of(from: i64, to: i64, events: Seq<(Option<i64>, Option<i64>, Option<i64>)>, w: AgendaWindow) -> bool {
    &&& w.placements@ == events.map_values(
        |e: (Option<i64>, Option<i64>, Option<i64>)| placement_spec(e.0, e.1, e.2, from, to),
    )
    &&& w.points@ == placed_where(w.placements@, |p: EventPlacement| p is Point)
    &&& w.allocated@ == allocated_positions(w.placements@)
    &&& timeline_of(from, to, clipped_intervals(w.placements@), w.timeline)
    &&& well_placed(from, to, clipped_intervals(w.placements@))
}

/// Places events (each by its `at`, `start` and `end` instants) in the
/// window `[from, to)` and lays out the clipped intervals; a window whose
/// end does not follow its start is refused.
pub fn agenda_window(from: i64, to: i64, events: &Vec<(Option<i64>, Option<i64>, Option<i64>)>) -> (result: Result<
    AgendaWindow,
    String,
>)
    ensures
        to <= from ==> (result matches Err(m) && m@ == "--to must be later than --from"@),
        from < to ==> (result matches Ok(w) && window_of(from, to, events@, w)),
{
    if to <= from {
        return Err("--to must be later than --from".to_string());
    }
    let mut placements: Vec<EventPlacement> = Vec::new();
    let mut points: Vec<usize> = Vec::new();
    let mut allocated: Vec<usize> = Vec::new();
    let mut iv: Vec<(i64, i64)> = Vec::new();
    let mut i: usize = 0;
    while i < events.len()
        invariant
            from < to,
            i <= events.len(),
            placements@ == events@.take(i as int).map_values(
                |e: (Option<i64>, Option<i64>, Option<i64>)| placement_spec(e.0, e.1, e.2, from, to),
            ),
            placements.len() == i,
            iv@ == clipped_intervals(placements@),
            points@ == placed_where(placements@, |p: EventPlacement| p is Point),
            allocated@ == allocated_positions(placements@),
            forall|k: int| 0 <= k < iv.len() ==> from <= #[trigger] iv@[k].0 < iv@[k].1 <= to,
        decreases events.len() - i,
    {
        let (at, start, end) = events[i];
        let placed = place_event(at, start, end, from, to);
        let ghost before = placements@;
        placements.push(placed);
        assert(placements@.drop_last() == before);
        match placed {
            EventPlacement::Clipped { start, end } => {
                iv.push((start, end));
                allocated.push(i);
            },
            EventPlacement::Point => points.push(i),
            _ => {},
        }
        assert(events@.take(i + 1) == events@.take(i as int).push(events@[i as int]));
        assert(placements@ =~= events@.take(i + 1).map_values(
            |e: (Option<i64>, Option<i64>, Option<i64>)| placement_spec(e.0, e.1, e.2, from, to),
        ));
        i = i + 1;
    }
    assert(events@.take(events.len() as int) == events@);
    let timeline = agenda_timeline(from, to, &iv);
    Ok(AgendaWindow { placements, points, allocated, timeline })
}

} // verus!
