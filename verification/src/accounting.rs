//! Accounting one event: which items its time goes to, in which categories,
//! and what is wrong with its references.  Resolving the references against
//! the workspace is the caller's part; it hands in what each resolved to.
use vstd::prelude::*;
use crate::agenda::{
    agenda_window, allocated_positions, copy_location, issue, issue_view, placement_issue, placement_spec, window_of, AgendaIssue, AgendaItem,
    AgendaLocation, AgendaWindow, EventPlacement,
};
use crate::paths::{resolve_relative, resolved_relative};
use crate::text::{chars_of, extend_chars, str_eq, string_from_chars};
use crate::order::{lemma_lex_irreflexive, lemma_lex_total, lemma_lex_transitive, lex_less, lex_lt, push_str_key, str_key};
use crate::workflow::opt_view;

verus! {

/// Where a task reference points.
#[derive(Debug, Clone, PartialEq, Eq)]
pub enum ReferenceTarget {
    /// A task of the same document.
    Internal { id: String },
    /// A task of another document.
    External { path: String, id: String },
    /// Another document's own task.
    Document { path: String },
    /// Nothing that names a task.
    Invalid,
}

/// The item a reference written in the document at `path` accounts to.
pub open spec fn identity_spec(path: Seq<char>, target: ReferenceTarget) -> Option<(Seq<char>, Option<Seq<char>>)> {
    match target {
        ReferenceTarget::Internal { id } => Some((path, Some(id@))),
        ReferenceTarget::External { path: p, id } => Some((resolved_relative(path, p@), Some(id@))),
        ReferenceTarget::Document { path: p } => Some((resolved_relative(path, p@), None)),
        ReferenceTarget::Invalid => None,
    }
}

/// An item as plain values.
pub open spec fn item_view(item: Option<AgendaItem>) -> Option<(Seq<char>, Option<Seq<char>>)> {
    match item {
        Some(i) => Some((i.path@, opt_view(i.id))),
        None => None,
    }
}

/// The item a reference from the document at `path` accounts to.
pub fn accounting_identity(path: &str, target: &ReferenceTarget) -> (item: Option<AgendaItem>)
    ensures
        item_view(item) == identity_spec(path@, *target),
{
    match target {
        ReferenceTarget::Internal { id } => Some(AgendaItem { path: path.to_string(), id: Some(id.clone()) }),
        ReferenceTarget::External { path: p, id } => Some(
            AgendaItem { path: resolve_relative(path, p.as_str()), id: Some(id.clone()) },
        ),
        ReferenceTarget::Document { path: p } => Some(AgendaItem { path: resolve_relative(path, p.as_str()), id: None }),
        ReferenceTarget::Invalid => None,
    }
}

/// A category declaration: its values, whether it is malformed, and where
/// its first declaration stands (none when nothing is declared).
#[derive(Debug, Clone)]
pub struct CategoryFacts {
    pub values: Vec<String>,
    pub invalid: bool,
    pub declared_at: Option<AgendaLocation>,
}

/// One reference of an event as the caller resolved it.
#[derive(Debug, Clone)]
pub struct AccountingTarget {
    /// The item it accounts to (see `accounting_identity`).
    pub identity: Option<AgendaItem>,
    /// How it is spelled.
    pub spelling: String,
    /// Where it is spelled.
    pub source: AgendaLocation,
    /// It resolved to a list item or a document.
    pub found: bool,
    /// What it resolved to is a task.
    pub is_task: bool,
    /// The category of what it resolved to.
    pub category: CategoryFacts,
}

/// The event being accounted.
#[derive(Debug, Clone)]
pub struct AccountedEvent {
    pub source: AgendaLocation,
    /// The event lists its tasks explicitly.
    pub tasks_override: bool,
    pub category: CategoryFacts,
}

/// A part of an event's time: the event's duration divided by
/// `share_count`, then by `category_count`.
#[derive(Debug, Clone)]
pub struct ShareAllocation {
    pub item: Option<AgendaItem>,
    pub is_task: bool,
    pub category: Option<String>,
    pub category_source: Option<AgendaLocation>,
    pub share_count: usize,
    pub category_count: usize,
}

/// What identifies a reference among those of an event: its item, and its
/// spelling when it has none.
pub open spec fn target_key(t: AccountingTarget) -> (Option<(Seq<char>, Option<Seq<char>>)>, Option<Seq<char>>) {
    (item_view(t.identity), if t.identity is None { Some(t.spelling@) } else { None })
}

/// Whether some reference in `ts` has key `k`.
pub open spec fn key_seen(ts: Seq<AccountingTarget>, k: (Option<(Seq<char>, Option<Seq<char>>)>, Option<Seq<char>>)) -> bool {
    exists|j: int| 0 <= j < ts.len() && target_key(#[trigger] ts[j]) == k
}

/// The references that count: the first of each key, in order.
pub open spec fn kept_targets(ts: Seq<AccountingTarget>) -> Seq<AccountingTarget>
    decreases ts.len(),
{
    if ts.len() == 0 {
        seq![]
    } else if key_seen(ts.drop_last(), target_key(ts.last())) {
        kept_targets(ts.drop_last())
    } else {
        kept_targets(ts.drop_last()).push(ts.last())
    }
}

/// A counted reference is valid when it resolved, and to a task where the
/// event lists its tasks explicitly.
pub open spec fn target_valid(override_tasks: bool, t: AccountingTarget) -> bool {
    t.found && (!override_tasks || t.is_task)
}

/// The issues one counted reference raises.
pub open spec fn target_issues(e: AccountedEvent, t: AccountingTarget) -> Seq<(Seq<char>, Seq<char>, AgendaLocation)> {
    let invalid_item: Seq<(Seq<char>, Seq<char>, AgendaLocation)> = if target_valid(e.tasks_override, t) {
        seq![]
    } else {
        seq![("agenda.invalid-item"@, "cannot resolve accounting item '"@ + t.spelling@ + seq!['\''], t.source)]
    };
    let invalid_category: Seq<(Seq<char>, Seq<char>, AgendaLocation)> = if t.category.invalid && e.category.declared_at is None {
        seq![(
            "agenda.invalid-category"@,
            "item category must be a nonempty scalar or list of plain categories"@,
            match t.category.declared_at {
                Some(l) => l,
                None => e.source,
            },
        )]
    } else {
        seq![]
    };
    invalid_item + invalid_category
}

/// The issues of all counted references, in order.
pub open spec fn targets_issues(e: AccountedEvent, kept: Seq<AccountingTarget>) -> Seq<(Seq<char>, Seq<char>, AgendaLocation)>
    decreases kept.len(),
{
    if kept.len() == 0 {
        seq![]
    } else {
        targets_issues(e, kept.drop_last()) + target_issues(e, kept.last())
    }
}

/// All issues of accounting an event: an empty explicit task list, then
/// each counted reference's, then a malformed event category.
pub open spec fn accounting_issues(e: AccountedEvent, ts: Seq<AccountingTarget>) -> Seq<(Seq<char>, Seq<char>, AgendaLocation)> {
    let empty: Seq<(Seq<char>, Seq<char>, AgendaLocation)> = if e.tasks_override && ts.len() == 0 {
        seq![("agenda.invalid-item"@, "explicit tasks declaration is empty"@, e.source)]
    } else {
        seq![]
    };
    let event_category: Seq<(Seq<char>, Seq<char>, AgendaLocation)> = if e.category.invalid {
        seq![("agenda.invalid-category"@, "event category must be a nonempty scalar or list of plain categories"@, e.source)]
    } else {
        seq![]
    };
    empty + targets_issues(e, kept_targets(ts)) + event_category
}

/// The categories a counted reference passes on when the event declares
/// none: its item's, if it is valid and well formed.
pub open spec fn inherited(e: AccountedEvent, t: AccountingTarget) -> Seq<String> {
    if target_valid(e.tasks_override, t) && !t.category.invalid {
        t.category.values@
    } else {
        seq![]
    }
}

/// The categories a share is split over: the event's own when it declares
/// any (none when they are malformed), otherwise the inherited ones.
pub open spec fn share_categories(e: AccountedEvent, inherited: Seq<String>) -> Seq<String> {
    if e.category.declared_at is Some {
        if e.category.invalid {
            seq![]
        } else {
            e.category.values@
        }
    } else {
        inherited
    }
}

/// The shares of one base share: one per category, or one without category.
pub open spec fn split_share(
    e: AccountedEvent,
    item: Option<AgendaItem>,
    is_task: bool,
    source: Option<AgendaLocation>,
    inherited: Seq<String>,
    share_count: nat,
) -> Seq<ShareAllocation> {
    let cats = share_categories(e, inherited);
    let category_source = if e.category.declared_at is Some { e.category.declared_at } else { source };
    if cats.len() == 0 {
        seq![ShareAllocation { item, is_task, category: None, category_source, share_count: share_count as usize, category_count: 1 }]
    } else {
        Seq::new(
            cats.len(),
            |k: int|
                ShareAllocation {
                    item,
                    is_task,
                    category: Some(cats[k]),
                    category_source,
                    share_count: share_count as usize,
                    category_count: cats.len() as usize,
                },
        )
    }
}

/// The shares of the counted references, in order.
pub open spec fn target_shares(e: AccountedEvent, kept: Seq<AccountingTarget>, share_count: nat) -> Seq<ShareAllocation>
    decreases kept.len(),
{
    if kept.len() == 0 {
        seq![]
    } else {
        let t = kept.last();
        target_shares(e, kept.drop_last(), share_count) + split_share(
            e,
            t.identity,
            t.is_task,
            t.category.declared_at,
            inherited(e, t),
            share_count,
        )
    }
}

/// All shares of an event: those of its counted references, or one share
/// for no item when none counts.
pub open spec fn accounting_shares(e: AccountedEvent, ts: Seq<AccountingTarget>) -> Seq<ShareAllocation> {
    let kept = kept_targets(ts);
    if kept.len() == 0 {
        split_share(e, None, false, None, seq![], 1)
    } else {
        target_shares(e, kept, kept.len())
    }
}

// ---------------------------------------------------------------------------
// Computing the shares.

fn copy_string(s: &String) -> (c: String)
    ensures
        c == *s,
{
    s.clone()
}

/// A copy of an optional item.
pub fn copy_item(item: &Option<AgendaItem>) -> (c: Option<AgendaItem>)
    ensures
        c == *item,
{
    match item {
        Some(i) => Some(
            AgendaItem {
                path: copy_string(&i.path),
                id: match &i.id {
                    Some(id) => Some(copy_string(id)),
                    None => None,
                },
            },
        ),
        None => None,
    }
}

fn copy_opt_location(l: &Option<AgendaLocation>) -> (c: Option<AgendaLocation>)
    ensures
        c == *l,
{
    match l {
        Some(x) => Some(copy_location(x)),
        None => None,
    }
}

fn opt_str_eq(a: &Option<String>, b: &Option<String>) -> (eq: bool)
    ensures
        eq == (opt_view(*a) == opt_view(*b)),
{
    match (a, b) {
        (Some(x), Some(y)) => str_eq(x.as_str(), y.as_str()),
        (None, None) => true,
        _ => false,
    }
}

fn same_key(a: &AccountingTarget, b: &AccountingTarget) -> (same: bool)
    ensures
        same == (target_key(*a) == target_key(*b)),
{
    match (&a.identity, &b.identity) {
        (Some(x), Some(y)) => str_eq(x.path.as_str(), y.path.as_str()) && opt_str_eq(&x.id, &y.id),
        (None, None) => str_eq(a.spelling.as_str(), b.spelling.as_str()),
        _ => false,
    }
}

/// The references' targets at the given positions.
pub open spec fn at_positions(ts: Seq<AccountingTarget>, positions: Seq<usize>) -> Seq<AccountingTarget> {
    positions.map_values(|k: usize| ts[k as int])
}

fn kept_positions(targets: &Vec<AccountingTarget>) -> (kept: Vec<usize>)
    ensures
        at_positions(targets@, kept@) == kept_targets(targets@),
        forall|m: int| 0 <= m < kept.len() ==> #[trigger] kept@[m] < targets.len(),
{
    let mut kept: Vec<usize> = Vec::new();
    let mut i: usize = 0;
    while i < targets.len()
        invariant
            i <= targets.len(),
            at_positions(targets@, kept@) == kept_targets(targets@.take(i as int)),
            forall|m: int| 0 <= m < kept.len() ==> #[trigger] kept@[m] < i,
        decreases targets.len() - i,
    {
        let ghost prefix = targets@.take(i as int);
        proof {
            assert(targets@.take(i + 1).drop_last() == prefix);
            assert(targets@.take(i + 1).last() == targets@[i as int]);
        }
        let mut seen = false;
        let mut j: usize = 0;
        while j < i
            invariant
                j <= i,
                i < targets.len(),
                prefix == targets@.take(i as int),
                seen == exists|x: int| 0 <= x < j && target_key(#[trigger] prefix[x]) == target_key(targets@[i as int]),
            decreases i - j,
        {
            let same = same_key(&targets[j], &targets[i]);
            proof {
                assert(prefix[j as int] == targets@[j as int]);
                if same {
                    assert(target_key(prefix[j as int]) == target_key(targets@[i as int]));
                }
            }
            seen = seen || same;
            j = j + 1;
        }
        let ghost before = kept@;
        if !seen {
            kept.push(i);
            proof {
                assert(at_positions(targets@, kept@) =~= at_positions(targets@, before).push(targets@[i as int]));
            }
        }
        i = i + 1;
    }
    assert(targets@.take(targets.len() as int) == targets@);
    kept
}

fn split_exec(
    event: &AccountedEvent,
    item: &Option<AgendaItem>,
    is_task: bool,
    source: &Option<AgendaLocation>,
    inherited: &Vec<String>,
    share_count: usize,
) -> (shares: Vec<ShareAllocation>)
    ensures
        shares@ == split_share(*event, *item, is_task, *source, inherited@, share_count as nat),
{
    let declared = event.category.declared_at.is_some();
    let cats: &Vec<String> = if declared {
        &event.category.values
    } else {
        inherited
    };
    let none_left = declared && event.category.invalid;
    let category_source = if declared {
        copy_opt_location(&event.category.declared_at)
    } else {
        copy_opt_location(source)
    };
    let ghost expected = split_share(*event, *item, is_task, *source, inherited@, share_count as nat);
    let mut shares: Vec<ShareAllocation> = Vec::new();
    if none_left || cats.len() == 0 {
        shares.push(
            ShareAllocation {
                item: copy_item(item),
                is_task,
                category: None,
                category_source,
                share_count,
                category_count: 1,
            },
        );
        assert(shares@ =~= expected);
    } else {
        let mut k: usize = 0;
        while k < cats.len()
            invariant
                k <= cats.len(),
                cats.len() > 0,
                cats@ == share_categories(*event, inherited@),
                category_source == (if event.category.declared_at is Some { event.category.declared_at } else { *source }),
                expected == split_share(*event, *item, is_task, *source, inherited@, share_count as nat),
                shares@ == expected.take(k as int),
            decreases cats.len() - k,
        {
            shares.push(
                ShareAllocation {
                    item: copy_item(item),
                    is_task,
                    category: Some(copy_string(&cats[k])),
                    category_source: copy_opt_location(&category_source),
                    share_count,
                    category_count: cats.len(),
                },
            );
            assert(shares@ =~= expected.take(k + 1));
            k = k + 1;
        }
        assert(expected.take(cats.len() as int) =~= expected);
    }
    shares
}

/// Accounts one event: the shares its time splits into and the issues its
/// references raise (see `accounting_shares` and `accounting_issues`).
/// References with the same item (or, without an item, the same spelling)
/// count once.
pub fn event_accounting(event: &AccountedEvent, targets: &Vec<AccountingTarget>) -> (result: (
    Vec<ShareAllocation>,
    Vec<AgendaIssue>,
))
    ensures
        result.0@ == accounting_shares(*event, targets@),
        result.1@.map_values(|i: AgendaIssue| issue_view(i)) == accounting_issues(*event, targets@),
{
    let kept = kept_positions(targets);
    let ghost kt = kept_targets(targets@);
    // Issues.
    let mut issues: Vec<AgendaIssue> = Vec::new();
    if event.tasks_override && targets.len() == 0 {
        issues.push(issue("agenda.invalid-item", "explicit tasks declaration is empty".to_string(), copy_location(&event.source)));
    }
    let ghost head = issues@.map_values(|i: AgendaIssue| issue_view(i));
    let mut m: usize = 0;
    while m < kept.len()
        invariant
            m <= kept.len(),
            at_positions(targets@, kept@) == kt,
            forall|x: int| 0 <= x < kept.len() ==> #[trigger] kept@[x] < targets.len(),
            issues@.map_values(|i: AgendaIssue| issue_view(i)) == head + targets_issues(*event, kt.take(m as int)),
        decreases kept.len() - m,
    {
        let t = &targets[kept[m]];
        let ghost before = issues@.map_values(|i: AgendaIssue| issue_view(i));
        proof {
            assert(kt[m as int] == targets@[kept@[m as int] as int]);
            assert(kt.take(m + 1).drop_last() == kt.take(m as int));
            assert(kt.take(m + 1).last() == kt[m as int]);
        }
        let valid = t.found && (!event.tasks_override || t.is_task);
        if !valid {
            let mut message: Vec<char> = chars_of("cannot resolve accounting item '");
            let spelling = chars_of(t.spelling.as_str());
            extend_chars(&mut message, &spelling);
            message.push('\'');
            assert(message@ =~= "cannot resolve accounting item '"@ + t.spelling@ + seq!['\'']);
            issues.push(issue("agenda.invalid-item", string_from_chars(&message), copy_location(&t.source)));
        }
        if t.category.invalid && event.category.declared_at.is_none() {
            let at = match &t.category.declared_at {
                Some(l) => copy_location(l),
                None => copy_location(&event.source),
            };
            issues.push(
                issue(
                    "agenda.invalid-category",
                    "item category must be a nonempty scalar or list of plain categories".to_string(),
                    at,
                ),
            );
        }
        proof {
            assert(issues@.map_values(|i: AgendaIssue| issue_view(i)) =~= before + target_issues(*event, kt[m as int]));
        }
        m = m + 1;
    }
    assert(kt.take(kept.len() as int) == kt);
    if event.category.invalid {
        let ghost before = issues@.map_values(|i: AgendaIssue| issue_view(i));
        issues.push(
            issue(
                "agenda.invalid-category",
                "event category must be a nonempty scalar or list of plain categories".to_string(),
                copy_location(&event.source),
            ),
        );
        assert(issues@.map_values(|i: AgendaIssue| issue_view(i)) =~= before.push(
            ("agenda.invalid-category"@, "event category must be a nonempty scalar or list of plain categories"@, event.source),
        ));
    }
    proof {
        assert(issues@.map_values(|i: AgendaIssue| issue_view(i)) =~= accounting_issues(*event, targets@));
    }
    // Shares.
    let n = kept.len();
    let mut shares: Vec<ShareAllocation> = Vec::new();
    if n == 0 {
        let nothing: Vec<String> = Vec::new();
        shares = split_exec(event, &None, false, &None, &nothing, 1);
        assert(nothing@ =~= seq![]);
    } else {
        let mut m: usize = 0;
        while m < n
            invariant
                n == kept.len(),
                m <= n,
                at_positions(targets@, kept@) == kt,
                forall|x: int| 0 <= x < kept.len() ==> #[trigger] kept@[x] < targets.len(),
                shares@ == target_shares(*event, kt.take(m as int), n as nat),
            decreases n - m,
        {
            let t = &targets[kept[m]];
            proof {
                assert(kt[m as int] == targets@[kept@[m as int] as int]);
                assert(kt.take(m + 1).drop_last() == kt.take(m as int));
                assert(kt.take(m + 1).last() == kt[m as int]);
            }
            let valid = t.found && (!event.tasks_override || t.is_task);
            let nothing: Vec<String> = Vec::new();
            let passed_on: &Vec<String> = if valid && !t.category.invalid {
                &t.category.values
            } else {
                &nothing
            };
            assert(passed_on@ == inherited(*event, *t));
            let part = split_exec(event, &t.identity, t.is_task, &t.category.declared_at, passed_on, n);
            let ghost before = shares@;
            let mut q: usize = 0;
            while q < part.len()
                invariant
                    q <= part.len(),
                    shares@ == before + part@.take(q as int),
                decreases part.len() - q,
            {
                shares.push(copy_share(&part[q]));
                assert(part@.take(q + 1) == part@.take(q as int).push(part@[q as int]));
                q = q + 1;
            }
            assert(part@.take(part.len() as int) == part@);
            m = m + 1;
        }
        assert(kt.take(n as int) == kt);
    }
    (shares, issues)
}

fn copy_share(s: &ShareAllocation) -> (c: ShareAllocation)
    ensures
        c == *s,
{
    ShareAllocation {
        item: copy_item(&s.item),
        is_task: s.is_task,
        category: match &s.category {
            Some(c) => Some(copy_string(c)),
            None => None,
        },
        category_source: copy_opt_location(&s.category_source),
        share_count: s.share_count,
        category_count: s.category_count,
    }
}

// ---------------------------------------------------------------------------
// An agenda report.

/// An event selected for an agenda report: its `at`, `start` and `end`
/// instants, what accounting reads of it, and its references.
#[derive(Debug)]
pub struct ReportEvent {
    pub at: Option<i64>,
    pub start: Option<i64>,
    pub end: Option<i64>,
    pub event: AccountedEvent,
    pub targets: Vec<AccountingTarget>,
}

/// The parts of an agenda report that do not count seconds: where the
/// events land and the timeline, the shares of each allocated event (in
/// the order of `window.allocated`), the issues, and whether the report is
/// complete.
#[derive(Debug)]
pub struct AgendaAssembly {
    pub window: AgendaWindow,
    pub shares: Vec<Vec<ShareAllocation>>,
    pub issues: Vec<AgendaIssue>,
    pub complete: bool,
}

pub open spec fn share_views(shares: Seq<Vec<ShareAllocation>>) -> Seq<Seq<ShareAllocation>> {
    shares.map_values(|v: Vec<ShareAllocation>| v@)
}

pub open spec fn issue_views(issues: Seq<AgendaIssue>) -> Seq<(Seq<char>, Seq<char>, AgendaLocation)> {
    issues.map_values(|i: AgendaIssue| issue_view(i))
}

pub open spec fn report_times(events: Seq<ReportEvent>) -> Seq<(Option<i64>, Option<i64>, Option<i64>)> {
    events.map_values(|e: ReportEvent| (e.at, e.start, e.end))
}

/// The issue an event's placement raises: none, or an invalid time.
pub open spec fn placement_issue_views(p: EventPlacement, source: AgendaLocation) -> Seq<(Seq<char>, Seq<char>, AgendaLocation)> {
    match p {
        EventPlacement::NoInterval => seq![("agenda.invalid-time"@, "event has no valid finite interval"@, source)],
        EventPlacement::EndNotAfterStart => seq![("agenda.invalid-time"@, "event end must follow start"@, source)],
        _ => seq![],
    }
}

/// The issues one event raises: an allocated event's accounting issues
/// when accounting is on, otherwise its placement's.
pub open spec fn event_issue_views(e: ReportEvent, p: EventPlacement, accounting: bool) -> Seq<(Seq<char>, Seq<char>, AgendaLocation)> {
    if p is Clipped {
        if accounting {
            accounting_issues(e.event, e.targets@)
        } else {
            seq![]
        }
    } else {
        placement_issue_views(p, e.event.source)
    }
}

/// The issues of the first `n` events, in order.
pub open spec fn report_issue_views(events: Seq<ReportEvent>, placements: Seq<EventPlacement>, accounting: bool, n: int) -> Seq<
    (Seq<char>, Seq<char>, AgendaLocation),
>
    decreases n,
{
    if n <= 0 {
        seq![]
    } else {
        report_issue_views(events, placements, accounting, n - 1) + event_issue_views(events[n - 1], placements[n - 1], accounting)
    }
}

/// The shares of the allocated events: their accounting shares when
/// accounting is on, none otherwise.
pub open spec fn report_shares(events: Seq<ReportEvent>, allocated: Seq<usize>, accounting: bool) -> Seq<Seq<ShareAllocation>> {
    allocated.map_values(
        |i: usize|
            if accounting {
                accounting_shares(events[i as int].event, events[i as int].targets@)
            } else {
                seq![]
            },
    )
}

fn report_times_exec(events: &Vec<ReportEvent>) -> (times: Vec<(Option<i64>, Option<i64>, Option<i64>)>)
    ensures
        times@ == report_times(events@),
{
    let mut times: Vec<(Option<i64>, Option<i64>, Option<i64>)> = Vec::new();
    let mut i: usize = 0;
    while i < events.len()
        invariant
            i <= events.len(),
            times.len() == i,
            forall|k: int| 0 <= k < i ==> #[trigger] times@[k] == (events@[k].at, events@[k].start, events@[k].end),
        decreases events.len() - i,
    {
        times.push((events[i].at, events[i].start, events[i].end));
        i = i + 1;
    }
    assert(times@ =~= report_times(events@));
    times
}

/// What an assembled report holds (see `assemble_agenda`).
pub open spec fn assembled(
    from: i64,
    to: i64,
    events: Seq<ReportEvent>,
    accounting: bool,
    selection_complete: bool,
    invalid_documents: Seq<AgendaIssue>,
    a: AgendaAssembly,
) -> bool {
    &&& window_of(from, to, report_times(events), a.window)
    &&& share_views(a.shares@) == report_shares(events, a.window.allocated@, accounting)
    &&& issue_views(a.issues@) == issue_views(invalid_documents) + report_issue_views(
        events,
        a.window.placements@,
        accounting,
        events.len() as int,
    )
    &&& a.complete == (selection_complete && a.issues.len() == 0)
}

/// Assembles an agenda report's parts over the window `[from, to)`: the
/// events' placements and timeline (see `agenda_window`); with accounting
/// on, each allocated event's shares and accounting issues, with it off,
/// no shares and no accounting issues; the issues in order (those of
/// invalid documents first, then each event's); and the report complete
/// exactly when the selection was complete and there is no issue.  A
/// window whose end does not follow its start is refused.
pub fn assemble_agenda(
    from: i64,
    to: i64,
    events: &Vec<ReportEvent>,
    accounting: bool,
    selection_complete: bool,
    invalid_documents: Vec<AgendaIssue>,
) -> (result: Result<AgendaAssembly, String>)
    ensures
        to <= from ==> (result matches Err(m) && m@ == "--to must be later than --from"@),
        from < to ==> (result matches Ok(a) && assembled(from, to, events@, accounting, selection_complete, invalid_documents@, a)),
{
    let times = report_times_exec(events);
    let window = match agenda_window(from, to, &times) {
        Ok(w) => w,
        Err(m) => {
            return Err(m);
        },
    };
    let ghost ps = window.placements@;
    let ghost head = issue_views(invalid_documents@);
    let mut issues = invalid_documents;
    let mut shares: Vec<Vec<ShareAllocation>> = Vec::new();
    let mut i: usize = 0;
    while i < events.len()
        invariant
            i <= events.len(),
            ps == window.placements@,
            ps.len() == events.len(),
            forall|k: int| 0 <= k < events.len() ==> #[trigger] ps[k] == placement_spec(events@[k].at, events@[k].start, events@[k].end, from, to),
            issue_views(issues@) == head + report_issue_views(events@, ps, accounting, i as int),
            share_views(shares@) == report_shares(
                events@,
                allocated_positions(ps.take(i as int)),
                accounting,
            ),
        decreases events.len() - i,
    {
        let placed = window.placements[i];
        let ghost before_issues = issue_views(issues@);
        let ghost before_shares = share_views(shares@);
        let ghost w0 = allocated_positions(ps.take(i as int));
        proof {
            assert(ps.take(i + 1).drop_last() == ps.take(i as int));
            assert(ps.take(i + 1).last() == ps[i as int]);
        }
        let ghost w1 = allocated_positions(ps.take(i + 1));
        match placed {
            EventPlacement::Clipped { .. } => {
                let ghost before_vecs = shares@;
                if accounting {
                    let (sh, is) = event_accounting(&events[i].event, &events[i].targets);
                    let mut is = is;
                    let ghost added = issue_views(is@);
                    issues.append(&mut is);
                    proof {
                        assert(issue_views(issues@) =~= before_issues + added);
                    }
                    shares.push(sh);
                } else {
                    shares.push(Vec::new());
                }
                proof {
                    assert(w1 == w0.push(i as usize));
                    let now_shares = share_views(shares@);
                    let want = report_shares(events@, w1, accounting);
                    assert(shares@.len() == before_vecs.len() + 1);
                    assert(before_shares.len() == before_vecs.len());
                    assert(before_shares.len() == w0.len());
                    assert(w1.len() == w0.len() + 1);
                    assert(now_shares.len() == want.len());
                    assert forall|k: int| 0 <= k < want.len() implies now_shares[k] == want[k] by {
                        if k < w0.len() {
                            assert(now_shares[k] == before_shares[k]);
                            assert(want[k] == report_shares(events@, w0, accounting)[k]);
                        }
                    }
                    assert(now_shares =~= want);
                }
            },
            _ => {
                match placement_issue(placed, copy_location(&events[i].event.source)) {
                    Some(found) => {
                        issues.push(found);
                        proof {
                            assert(issue_views(issues@) =~= before_issues + seq![issue_view(found)]);
                        }
                    },
                    None => {
                        proof {
                            assert(issue_views(issues@) =~= before_issues + Seq::<(Seq<char>, Seq<char>, AgendaLocation)>::empty());
                        }
                    },
                }
                proof {
                    assert(w1 == w0);
                }
            },
        }
        proof {
            assert(report_issue_views(events@, ps, accounting, i + 1) == report_issue_views(events@, ps, accounting, i as int)
                + event_issue_views(events@[i as int], ps[i as int], accounting));
        }
        i = i + 1;
    }
    proof {
        assert(ps.take(events.len() as int) == ps);
    }
    let complete = selection_complete && issues.len() == 0;
    Ok(AgendaAssembly { window, shares, issues, complete })
}

proof fn lemma_placement_issues_only(events: Seq<ReportEvent>, ps: Seq<EventPlacement>, n: int)
    ensures
        forall|k: int| 0 <= k < report_issue_views(events, ps, false, n).len() ==> (#[trigger] report_issue_views(events, ps, false, n)[k]).0
            == "agenda.invalid-time"@,
    decreases n,
{
    if n > 0 {
        lemma_placement_issues_only(events, ps, n - 1);
        let prev = report_issue_views(events, ps, false, n - 1);
        let last = event_issue_views(events[n - 1], ps[n - 1], false);
        assert forall|k: int| 0 <= k < (prev + last).len() implies (#[trigger] (prev + last)[k]).0 == "agenda.invalid-time"@ by {
            if k >= prev.len() {
                assert((prev + last)[k] == last[k - prev.len()]);
            } else {
                assert((prev + last)[k] == prev[k]);
            }
        }
    }
}

proof fn lemma_off_issues_within(events: Seq<ReportEvent>, ps: Seq<EventPlacement>, n: int)
    ensures
        report_issue_views(events, ps, false, n).to_multiset().subset_of(report_issue_views(events, ps, true, n).to_multiset()),
    decreases n,
{
    if n > 0 {
        lemma_off_issues_within(events, ps, n - 1);
        let a0 = report_issue_views(events, ps, false, n - 1);
        let b0 = report_issue_views(events, ps, true, n - 1);
        let a = event_issue_views(events[n - 1], ps[n - 1], false);
        let b = event_issue_views(events[n - 1], ps[n - 1], true);
        vstd::seq_lib::lemma_multiset_commutative(a0, a);
        vstd::seq_lib::lemma_multiset_commutative(b0, b);
        if ps[n - 1] is Clipped {
            assert(a.len() == 0);
            assert(a0 + a =~= a0);
        } else {
            assert(a == b);
        }
        assert forall|v: (Seq<char>, Seq<char>, AgendaLocation)| (a0 + a).to_multiset().count(v) <= (b0 + b).to_multiset().count(v) by {
            assert(a0.to_multiset().count(v) <= b0.to_multiset().count(v));
        }
    }
}

/// Turning accounting off keeps the report's placements, points,
/// allocated events, covered time and accumulated time, gives every
/// allocated event no shares, and leaves only the invalid documents' issues
/// and invalid times (no accounting issue), each of which the report with
/// accounting on has too (as many times).
pub proof fn lemma_accounting_switch(
    from: i64,
    to: i64,
    events: Seq<ReportEvent>,
    selection_complete: bool,
    invalid_documents: Seq<AgendaIssue>,
    off: AgendaAssembly,
    on: AgendaAssembly,
)
    requires
        assembled(from, to, events, false, selection_complete, invalid_documents, off),
        assembled(from, to, events, true, selection_complete, invalid_documents, on),
    ensures
        off.window.placements@ == on.window.placements@,
        off.window.points@ == on.window.points@,
        off.window.allocated@ == on.window.allocated@,
        off.window.timeline.covered == on.window.timeline.covered,
        off.window.timeline.accumulated == on.window.timeline.accumulated,
        forall|k: int| 0 <= k < off.shares.len() ==> (#[trigger] off.shares@[k])@.len() == 0,
        forall|k: int|
            invalid_documents.len() <= k < off.issues.len() ==> (#[trigger] issue_views(off.issues@)[k]).0 == "agenda.invalid-time"@,
        issue_views(off.issues@).to_multiset().subset_of(issue_views(on.issues@).to_multiset()),
{
    let ps = off.window.placements@;
    lemma_placement_issues_only(events, ps, events.len() as int);
    assert forall|k: int| 0 <= k < off.shares.len() implies (#[trigger] off.shares@[k])@.len() == 0 by {
        assert(share_views(off.shares@)[k] == off.shares@[k]@);
        assert(share_views(off.shares@).len() == off.window.allocated@.len());
        assert(report_shares(events, off.window.allocated@, false)[k] == Seq::<ShareAllocation>::empty());
    }
    let head = issue_views(invalid_documents);
    let rest = report_issue_views(events, ps, false, events.len() as int);
    assert forall|k: int| invalid_documents.len() <= k < off.issues.len() implies (#[trigger] issue_views(off.issues@)[k]).0
        == "agenda.invalid-time"@ by {
        assert(issue_views(off.issues@).len() == off.issues.len());
        assert(head.len() == invalid_documents.len());
        assert(issue_views(off.issues@)[k] == (head + rest)[k]);
        assert((head + rest)[k] == rest[k - head.len()]);
    }
    let n = events.len() as int;
    lemma_off_issues_within(events, ps, n);
    let on_rest = report_issue_views(events, ps, true, n);
    vstd::seq_lib::lemma_multiset_commutative(head, rest);
    vstd::seq_lib::lemma_multiset_commutative(head, on_rest);
    assert(issue_views(on.issues@) == head + on_rest);
    assert(issue_views(off.issues@) == head + rest);
    assert forall|v: (Seq<char>, Seq<char>, AgendaLocation)| (head + rest).to_multiset().count(v) <= (head + on_rest).to_multiset().count(v) by {
        assert(rest.to_multiset().count(v) <= on_rest.to_multiset().count(v));
    }
}

// ---------------------------------------------------------------------------
// Grouping shares for totals.

/// `groups` lists the positions with `present` set, grouped by equal keys:
/// each group nonempty, increasing, of one key; the groups in increasing
/// key order; every present position in a group.
pub open spec fn grouped(keys: Seq<Seq<i128>>, present: Seq<bool>, groups: Seq<Seq<usize>>) -> bool {
    &&& forall|g: int| 0 <= g < groups.len() ==> (#[trigger] groups[g]).len() > 0
    &&& forall|g: int, q: int|
        0 <= g < groups.len() && 0 <= q < groups[g].len() ==> (#[trigger] groups[g][q] as int) < keys.len() && present[groups[g][q] as int]
            && keys[groups[g][q] as int] == keys[groups[g][0] as int]
    &&& forall|g: int, q1: int, q2: int|
        0 <= g < groups.len() && 0 <= q1 < q2 < groups[g].len() ==> #[trigger] groups[g][q1] < #[trigger] groups[g][q2]
    &&& forall|g1: int, g2: int|
        0 <= g1 < g2 < groups.len() ==> lex_lt(keys[(#[trigger] groups[g1])[0] as int], keys[(#[trigger] groups[g2])[0] as int])
    &&& forall|k: int| 0 <= k < keys.len() && #[trigger] present[k] ==> exists|g: int, q: int| 0 <= g < groups.len() && 0 <= q < groups[g].len() && groups[g][q] == k
}

pub open spec fn group_views(groups: Seq<Vec<usize>>) -> Seq<Seq<usize>> {
    groups.map_values(|g: Vec<usize>| g@)
}

pub open spec fn key_views(keys: Seq<Vec<i128>>) -> Seq<Seq<i128>> {
    keys.map_values(|k: Vec<i128>| k@)
}

fn keys_equal(a: &Vec<i128>, b: &Vec<i128>) -> (eq: bool)
    ensures
        eq == (a@ == b@),
{
    proof {
        lemma_lex_total(a@, b@);
        lemma_lex_irreflexive(a@);
    }
    !lex_less(a, b) && !lex_less(b, a)
}

/// `groups` groups the present positions below `k` (see `grouped`).
#[verifier::opaque]
pub open spec fn groups_below(keys: Seq<Seq<i128>>, present: Seq<bool>, groups: Seq<Seq<usize>>, k: int) -> bool {
    &&& forall|g: int| 0 <= g < groups.len() ==> (#[trigger] groups[g]).len() > 0
    &&& forall|g: int, q: int|
        0 <= g < groups.len() && 0 <= q < groups[g].len() ==> (#[trigger] groups[g][q] as int) < k && present[groups[g][q] as int]
            && keys[groups[g][q] as int] == keys[groups[g][0] as int]
    &&& forall|g: int, q1: int, q2: int|
        0 <= g < groups.len() && 0 <= q1 < q2 < groups[g].len() ==> #[trigger] groups[g][q1] < #[trigger] groups[g][q2]
    &&& forall|g1: int, g2: int|
        0 <= g1 < g2 < groups.len() ==> lex_lt(keys[(#[trigger] groups[g1])[0] as int], keys[(#[trigger] groups[g2])[0] as int])
    &&& forall|j: int| 0 <= j < k && #[trigger] present[j] ==> exists|g: int, q: int| 0 <= g < groups.len() && 0 <= q < groups[g].len() && groups[g][q] == j
}

#[verifier::rlimit(50)]
proof fn lemma_join_group(keys: Seq<Seq<i128>>, present: Seq<bool>, groups: Seq<Seq<usize>>, g: int, k: int)
    requires
        0 <= k < keys.len() == present.len(),
        keys.len() <= usize::MAX,
        present[k],
        groups_below(keys, present, groups, k),
        0 <= g < groups.len(),
        keys[groups[g][0] as int] == keys[k],
    ensures
        groups_below(keys, present, groups.update(g, groups[g].push(k as usize)), k + 1),
{
    reveal(groups_below);
    let ng = groups.update(g, groups[g].push(k as usize));
    assert forall|h: int, q: int| 0 <= h < ng.len() && 0 <= q < ng[h].len() implies (#[trigger] ng[h][q] as int) < k + 1 && present[ng[h][q] as int]
        && keys[ng[h][q] as int] == keys[ng[h][0] as int] by {
        if h == g && q == groups[g].len() {
            assert(ng[h][q] == k);
        } else if h == g {
            assert(ng[h][q] == groups[g][q]);
        }
    }
    assert forall|h: int, q1: int, q2: int| 0 <= h < ng.len() && 0 <= q1 < q2 < ng[h].len() implies #[trigger] ng[h][q1] < #[trigger] ng[h][q2] by {
        if h == g {
            assert(ng[h][q1] == groups[g][q1]);
            if q2 < groups[g].len() {
                assert(ng[h][q2] == groups[g][q2]);
            }
        }
    }
    assert forall|g1: int, g2: int| 0 <= g1 < g2 < ng.len() implies lex_lt(keys[(#[trigger] ng[g1])[0] as int], keys[(#[trigger] ng[g2])[0] as int]) by {
        assert(ng[g1][0] == groups[g1][0]);
        assert(ng[g2][0] == groups[g2][0]);
    }
    assert forall|j: int| 0 <= j < k + 1 && #[trigger] present[j] implies exists|h: int, q: int|
        0 <= h < ng.len() && 0 <= q < ng[h].len() && ng[h][q] == j by {
        if j == k {
            assert(ng[g][groups[g].len() as int] == k);
        } else {
            let (h, q) = choose|h: int, q: int| 0 <= h < groups.len() && 0 <= q < groups[h].len() && groups[h][q] == j;
            assert(ng[h][q] == j);
        }
    }
    assert forall|h: int| 0 <= h < ng.len() implies (#[trigger] ng[h]).len() > 0 by {}
}

#[verifier::rlimit(50)]
proof fn lemma_open_group_order(keys: Seq<Seq<i128>>, groups: Seq<Seq<usize>>, g: int, k: int)
    requires
        0 <= k < keys.len(),
        keys.len() <= usize::MAX,
        forall|h: int| 0 <= h < groups.len() ==> (#[trigger] groups[h]).len() > 0,
        forall|g1: int, g2: int|
            0 <= g1 < g2 < groups.len() ==> lex_lt(keys[(#[trigger] groups[g1])[0] as int], keys[(#[trigger] groups[g2])[0] as int]),
        0 <= g <= groups.len(),
        forall|h: int| 0 <= h < g ==> lex_lt(keys[(#[trigger] groups[h])[0] as int], keys[k]),
        g < groups.len() ==> lex_lt(keys[k], keys[groups[g][0] as int]),
    ensures
        forall|g1: int, g2: int|
            0 <= g1 < g2 < groups.insert(g, seq![k as usize]).len() ==> lex_lt(
                keys[(#[trigger] groups.insert(g, seq![k as usize])[g1])[0] as int],
                keys[(#[trigger] groups.insert(g, seq![k as usize])[g2])[0] as int],
            ),
{
    let ng = groups.insert(g, seq![k as usize]);
    let kk = keys[k];
    assert(ng[g][0] == k);
    assert forall|g1: int, g2: int| 0 <= g1 < g2 < ng.len() implies lex_lt(keys[(#[trigger] ng[g1])[0] as int], keys[(#[trigger] ng[g2])[0] as int]) by {
        if g2 == g {
            assert(ng[g1] == groups[g1]);
        } else if g1 == g {
            assert(ng[g2] == groups[g2 - 1]);
            if g2 - 1 > g {
                lemma_lex_transitive(kk, keys[groups[g][0] as int], keys[groups[g2 - 1][0] as int]);
            }
        } else if g2 < g {
            assert(ng[g1] == groups[g1]);
            assert(ng[g2] == groups[g2]);
        } else if g1 < g {
            assert(ng[g1] == groups[g1]);
            assert(ng[g2] == groups[g2 - 1]);
            if g2 - 1 > g {
                lemma_lex_transitive(kk, keys[groups[g][0] as int], keys[groups[g2 - 1][0] as int]);
            }
            lemma_lex_transitive(keys[groups[g1][0] as int], kk, keys[groups[g2 - 1][0] as int]);
        } else {
            assert(ng[g1] == groups[g1 - 1]);
            assert(ng[g2] == groups[g2 - 1]);
        }
    }
}

#[verifier::rlimit(50)]
proof fn lemma_open_group(keys: Seq<Seq<i128>>, present: Seq<bool>, groups: Seq<Seq<usize>>, g: int, k: int)
    requires
        0 <= k < keys.len() == present.len(),
        keys.len() <= usize::MAX,
        present[k],
        groups_below(keys, present, groups, k),
        0 <= g <= groups.len(),
        forall|h: int| 0 <= h < g ==> lex_lt(keys[(#[trigger] groups[h])[0] as int], keys[k]),
        g < groups.len() ==> lex_lt(keys[k], keys[groups[g][0] as int]),
    ensures
        groups_below(keys, present, groups.insert(g, seq![k as usize]), k + 1),
{
    reveal(groups_below);
    let ng = groups.insert(g, seq![k as usize]);
    lemma_open_group_order(keys, groups, g, k);
    assert forall|h: int, q: int| 0 <= h < ng.len() && 0 <= q < ng[h].len() implies (#[trigger] ng[h][q] as int) < k + 1 && present[ng[h][q] as int]
        && keys[ng[h][q] as int] == keys[ng[h][0] as int] by {
        if h < g {
            assert(ng[h] == groups[h]);
        } else if h > g {
            assert(ng[h] == groups[h - 1]);
        }
    }
    assert forall|h: int, q1: int, q2: int| 0 <= h < ng.len() && 0 <= q1 < q2 < ng[h].len() implies #[trigger] ng[h][q1] < #[trigger] ng[h][q2] by {
        if h < g {
            assert(ng[h] == groups[h]);
        } else if h > g {
            assert(ng[h] == groups[h - 1]);
        }
    }
    assert forall|j: int| 0 <= j < k + 1 && #[trigger] present[j] implies exists|h: int, q: int|
        0 <= h < ng.len() && 0 <= q < ng[h].len() && ng[h][q] == j by {
        if j == k {
            assert(ng[g][0] == k);
        } else {
            let (h, q) = choose|h: int, q: int| 0 <= h < groups.len() && 0 <= q < groups[h].len() && groups[h][q] == j;
            if h < g {
                assert(ng[h] == groups[h]);
            } else {
                assert(ng[h + 1] == groups[h]);
            }
        }
    }
    assert forall|h: int| 0 <= h < ng.len() implies (#[trigger] ng[h]).len() > 0 by {
        if h < g {
            assert(ng[h] == groups[h]);
        } else if h > g {
            assert(ng[h] == groups[h - 1]);
        }
    }
}

proof fn lemma_group_heads(keys: Seq<Seq<i128>>, present: Seq<bool>, groups: Seq<Seq<usize>>, k: int)
    requires
        groups_below(keys, present, groups, k),
    ensures
        forall|h: int| 0 <= h < groups.len() ==> (#[trigger] groups[h]).len() > 0 && (groups[h][0] as int) < k,
{
    reveal(groups_below);
}

proof fn lemma_skip_absent(keys: Seq<Seq<i128>>, present: Seq<bool>, groups: Seq<Seq<usize>>, k: int)
    requires
        groups_below(keys, present, groups, k),
        0 <= k < present.len(),
        !present[k],
    ensures
        groups_below(keys, present, groups, k + 1),
{
    reveal(groups_below);
    assert forall|j: int| 0 <= j < k + 1 && #[trigger] present[j] implies exists|h: int, q: int|
        0 <= h < groups.len() && 0 <= q < groups[h].len() && groups[h][q] == j by {
        assert(j < k);
    }
}

proof fn lemma_groups_done(keys: Seq<Seq<i128>>, present: Seq<bool>, groups: Seq<Seq<usize>>)
    requires
        groups_below(keys, present, groups, keys.len() as int),
        keys.len() == present.len(),
    ensures
        grouped(keys, present, groups),
{
    reveal(groups_below);
}

#[verifier::rlimit(50)]
fn group_positions(keys: &Vec<Vec<i128>>, present: &Vec<bool>) -> (groups: Vec<Vec<usize>>)
    requires
        keys.len() == present.len(),
    ensures
        grouped(key_views(keys@), present@, group_views(groups@)),
{
    let ghost kv = key_views(keys@);
    let mut groups: Vec<Vec<usize>> = Vec::new();
    let mut k: usize = 0;
    proof {
        reveal(groups_below);
        assert(groups_below(kv, present@, group_views(groups@), 0));
    }
    while k < keys.len()
        invariant
            keys.len() == present.len(),
            kv == key_views(keys@),
            k <= keys.len(),
            groups_below(kv, present@, group_views(groups@), k as int),
        decreases keys.len() - k,
    {
        let ghost gv = group_views(groups@);
        if present[k] {
            proof {
                lemma_group_heads(kv, present@, gv, k as int);
                assert forall|h: int| 0 <= h < groups.len() implies (#[trigger] groups@[h])@.len() > 0 && (groups@[h]@[0] as int) < k by {
                    assert(gv[h] == groups@[h]@);
                }
            }
            let mut g: usize = 0;
            while g < groups.len() && lex_less(&keys[groups[g][0]], &keys[k])
                invariant
                    g <= groups.len(),
                    gv == group_views(groups@),
                    forall|h: int| 0 <= h < groups.len() ==> (#[trigger] groups@[h])@.len() > 0 && (groups@[h]@[0] as int) < k,
                    groups_below(kv, present@, gv, k as int),
                    forall|h: int| 0 <= h < g ==> lex_lt(kv[(#[trigger] gv[h])[0] as int], kv[k as int]),
                    kv == key_views(keys@),
                    k < keys.len(),
                    keys.len() == present.len(),
                decreases groups.len() - g,
            {
                g = g + 1;
            }
            if g < groups.len() {
                assert(gv[g as int] == groups@[g as int]@);
            }
            if g < groups.len() && keys_equal(&keys[groups[g][0]], &keys[k]) {
                let mut grp = groups.remove(g);
                grp.push(k);
                groups.insert(g, grp);
                proof {
                    lemma_join_group(kv, present@, gv, g as int, k as int);
                    assert(group_views(groups@) =~= gv.update(g as int, gv[g as int].push(k)));
                }
            } else {
                proof {
                    if g < groups.len() {
                        lemma_lex_total(kv[gv[g as int][0] as int], kv[k as int]);
                    }
                    lemma_open_group(kv, present@, gv, g as int, k as int);
                }
                let mut grp: Vec<usize> = Vec::new();
                grp.push(k);
                groups.insert(g, grp);
                proof {
                    assert(group_views(groups@) =~= gv.insert(g as int, seq![k]));
                }
            }
        } else {
            proof {
                lemma_skip_absent(kv, present@, gv, k as int);
            }
        }
        k = k + 1;
    }
    proof {
        lemma_groups_done(kv, present@, group_views(groups@));
    }
    groups
}

/// The key of a category in total order: none first, then by text.
pub open spec fn category_key(c: Option<String>) -> Seq<i128> {
    match c {
        None => seq![0i128],
        Some(t) => seq![1i128] + str_key(t@),
    }
}

/// The key of an item in total order: by path, then no id first, then by id.
pub open spec fn item_key(i: AgendaItem) -> Seq<i128> {
    str_key(i.path@) + match i.id {
        None => seq![0i128],
        Some(t) => seq![1i128] + str_key(t@),
    }
}

pub open spec fn share_category_keys(shares: Seq<ShareAllocation>) -> Seq<Seq<i128>> {
    shares.map_values(|s: ShareAllocation| category_key(s.category))
}

pub open spec fn share_item_keys(shares: Seq<ShareAllocation>) -> Seq<Seq<i128>> {
    shares.map_values(
        |s: ShareAllocation|
            match s.item {
                Some(i) => item_key(i),
                None => Seq::empty(),
            },
    )
}

pub open spec fn with_item(shares: Seq<ShareAllocation>) -> Seq<bool> {
    shares.map_values(|s: ShareAllocation| s.item is Some)
}

pub open spec fn with_task(shares: Seq<ShareAllocation>) -> Seq<bool> {
    shares.map_values(|s: ShareAllocation| s.item is Some && s.is_task)
}

/// The shares of a report grouped for its totals: by category, by item,
/// and by task item (an item that is a task), each list of groups in key
/// order with the key of each group.
#[derive(Debug)]
pub struct ShareGroups {
    pub categories: Vec<Option<String>>,
    pub category_shares: Vec<Vec<usize>>,
    pub items: Vec<AgendaItem>,
    pub item_shares: Vec<Vec<usize>>,
    pub tasks: Vec<AgendaItem>,
    pub task_shares: Vec<Vec<usize>>,
}

/// `items` are the items of the groups' first shares.
pub open spec fn group_items(shares: Seq<ShareAllocation>, groups: Seq<Seq<usize>>, items: Seq<AgendaItem>) -> bool {
    items.len() == groups.len() && forall|g: int|
        0 <= g < items.len() ==> shares[(#[trigger] groups[g])[0] as int].item == Some(items[g])
}

fn category_key_exec(c: &Option<String>) -> (key: Vec<i128>)
    ensures
        key@ == category_key(*c),
{
    let mut key: Vec<i128> = Vec::new();
    match c {
        None => key.push(0),
        Some(t) => {
            key.push(1);
            push_str_key(&mut key, &chars_of(t.as_str()));
        },
    }
    key
}

fn item_key_exec(i: &AgendaItem) -> (key: Vec<i128>)
    ensures
        key@ == item_key(*i),
{
    let mut key: Vec<i128> = Vec::new();
    push_str_key(&mut key, &chars_of(i.path.as_str()));
    match &i.id {
        None => key.push(0),
        Some(t) => {
            key.push(1);
            push_str_key(&mut key, &chars_of(t.as_str()));
        },
    }
    proof {
        if i.id is None {
            assert(key@ =~= item_key(*i));
        } else {
            assert(key@ =~= item_key(*i));
        }
    }
    key
}

fn group_items_exec(shares: &Vec<ShareAllocation>, groups: &Vec<Vec<usize>>) -> (items: Vec<AgendaItem>)
    requires
        forall|g: int| 0 <= g < groups.len() ==> (#[trigger] groups@[g])@.len() > 0 && (groups@[g]@[0] as int) < shares.len()
            && shares@[groups@[g]@[0] as int].item is Some,
    ensures
        group_items(shares@, group_views(groups@), items@),
{
    let mut items: Vec<AgendaItem> = Vec::new();
    let mut g: usize = 0;
    while g < groups.len()
        invariant
            g <= groups.len(),
            items.len() == g,
            forall|h: int| 0 <= h < groups.len() ==> (#[trigger] groups@[h])@.len() > 0 && (groups@[h]@[0] as int) < shares.len()
                && shares@[groups@[h]@[0] as int].item is Some,
            forall|h: int| 0 <= h < g ==> shares@[(#[trigger] groups@[h])@[0] as int].item == Some(items@[h]),
        decreases groups.len() - g,
    {
        let first = groups[g][0];
        match copy_item(&shares[first].item) {
            Some(i) => items.push(i),
            None => {},
        }
        g = g + 1;
    }
    proof {
        let gv = group_views(groups@);
        assert forall|h: int| 0 <= h < items.len() implies shares@[(#[trigger] gv[h])[0] as int].item == Some(items@[h]) by {
            assert(gv[h] == groups@[h]@);
        }
    }
    items
}

proof fn lemma_heads(keys: Seq<Seq<i128>>, present: Seq<bool>, groups: Seq<Vec<usize>>)
    requires
        grouped(keys, present, group_views(groups)),
    ensures
        forall|g: int| 0 <= g < groups.len() ==> (#[trigger] groups[g])@.len() > 0 && (groups[g]@[0] as int) < keys.len()
            && present[groups[g]@[0] as int],
{
    assert forall|g: int| 0 <= g < groups.len() implies (#[trigger] groups[g])@.len() > 0 && (groups[g]@[0] as int) < keys.len()
        && present[groups[g]@[0] as int] by {
        assert(group_views(groups)[g] == groups[g]@);
    }
}

/// Groups a report's shares for its totals (whose seconds are summed
/// elsewhere): every share by its category, the shares with an item by
/// item, and those whose item is a task by that item; each list of groups
/// in key order (`category_key`, `item_key`), each group's shares in order,
/// and each group's key the one of its shares.
pub fn group_shares(shares: &Vec<ShareAllocation>) -> (groups: ShareGroups)
    ensures
        grouped(share_category_keys(shares@), Seq::new(shares.len() as nat, |i: int| true), group_views(groups.category_shares@)),
        groups.categories.len() == groups.category_shares.len(),
        forall|g: int|
            0 <= g < groups.categories.len() ==> opt_view(#[trigger] groups.categories@[g]) == opt_view(
                shares@[groups.category_shares@[g]@[0] as int].category,
            ),
        grouped(share_item_keys(shares@), with_item(shares@), group_views(groups.item_shares@)),
        group_items(shares@, group_views(groups.item_shares@), groups.items@),
        grouped(share_item_keys(shares@), with_task(shares@), group_views(groups.task_shares@)),
        group_items(shares@, group_views(groups.task_shares@), groups.tasks@),
{
    let mut ckeys: Vec<Vec<i128>> = Vec::new();
    let mut ikeys: Vec<Vec<i128>> = Vec::new();
    let mut all: Vec<bool> = Vec::new();
    let mut has_item: Vec<bool> = Vec::new();
    let mut has_task: Vec<bool> = Vec::new();
    let mut i: usize = 0;
    while i < shares.len()
        invariant
            i <= shares.len(),
            ckeys.len() == i && ikeys.len() == i && all.len() == i && has_item.len() == i && has_task.len() == i,
            forall|k: int| 0 <= k < i ==> (#[trigger] ckeys@[k])@ == category_key(shares@[k].category),
            forall|k: int| 0 <= k < i ==> (#[trigger] ikeys@[k])@ == share_item_keys(shares@)[k],
            forall|k: int| 0 <= k < i ==> #[trigger] all@[k],
            forall|k: int| 0 <= k < i ==> #[trigger] has_item@[k] == shares@[k].item is Some,
            forall|k: int| 0 <= k < i ==> #[trigger] has_task@[k] == (shares@[k].item is Some && shares@[k].is_task),
        decreases shares.len() - i,
    {
        let s = &shares[i];
        ckeys.push(category_key_exec(&s.category));
        match &s.item {
            Some(it) => {
                ikeys.push(item_key_exec(it));
                has_item.push(true);
                has_task.push(s.is_task);
            },
            None => {
                ikeys.push(Vec::new());
                has_item.push(false);
                has_task.push(false);
            },
        }
        all.push(true);
        i = i + 1;
    }
    proof {
        assert(key_views(ckeys@) =~= share_category_keys(shares@));
        assert(key_views(ikeys@) =~= share_item_keys(shares@));
        assert(all@ =~= Seq::new(shares.len() as nat, |i: int| true));
        assert(has_item@ =~= with_item(shares@));
        assert(has_task@ =~= with_task(shares@));
    }
    let category_shares = group_positions(&ckeys, &all);
    let item_shares = group_positions(&ikeys, &has_item);
    let task_shares = group_positions(&ikeys, &has_task);
    proof {
        lemma_heads(share_category_keys(shares@), all@, category_shares@);
        lemma_heads(share_item_keys(shares@), has_item@, item_shares@);
        lemma_heads(share_item_keys(shares@), has_task@, task_shares@);
    }
    let mut categories: Vec<Option<String>> = Vec::new();
    let mut g: usize = 0;
    while g < category_shares.len()
        invariant
            g <= category_shares.len(),
            categories.len() == g,
            forall|h: int| 0 <= h < category_shares.len() ==> (#[trigger] category_shares@[h])@.len() > 0 && (category_shares@[h]@[0] as int)
                < shares.len(),
            forall|h: int|
                0 <= h < g ==> opt_view(#[trigger] categories@[h]) == opt_view(shares@[category_shares@[h]@[0] as int].category),
        decreases category_shares.len() - g,
    {
        let first = category_shares[g][0];
        categories.push(
            match &shares[first].category {
                Some(t) => Some(t.clone()),
                None => None,
            },
        );
        g = g + 1;
    }
    let items = group_items_exec(shares, &item_shares);
    let tasks = group_items_exec(shares, &task_shares);
    ShareGroups { categories, category_shares, items, item_shares, tasks, task_shares }
}

} // verus!
