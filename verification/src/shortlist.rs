//! The next-task shortlist: the tasks in flight (focused) and the tasks to
//! start next (ready, by effective priority).
//!
//! Both sections read one snapshot of the workspace's tasks and one query
//! instant.  Focus is a fact of its own: a focused task stays in flight
//! while it waits or is blocked, and a task whose focus ended is an ordinary
//! candidate again.  Effective priority flows along the whole relation graph
//! before anything is filtered, so a focused task still lends its priority
//! to the tasks it waits on.
use vstd::prelude::*;
use crate::cursor::{
    all_digits, digits_value, framed, hex, hex_spec, parse_u64, parse_u64_spec, push_framed, sha256, sha256_digest,
    split_cursor, split_parts, utf8_bytes, utf8_encode, decimal_u64, TaskPageQueryError,
};
use crate::ids::decimal;
use crate::order::{index_before, permuted, push_str_key, sort_by_keys, sorted_permutation, str_key};
use crate::text::{chars_equal, chars_of, extend_chars, string_from_chars};
use crate::graph::{adjacency, edge, is_reach_max, propagate_max, reaches, reaches_rel, well_formed};
use crate::workflow::{TaskClosure, TaskWaitReason, TaskWorkflowState};

verus! {

/// How many in-flight tasks one page holds.
pub const NEXT_FOCUSED_PAGE: usize = 50;

/// What the shortlist reads of one task.
#[derive(Debug)]
pub struct ShortlistFact {
    /// How the task was closed, as its source records it.
    pub closure: TaskClosure,
    /// Its wait instant, in milliseconds since the epoch.
    pub wait_millis: Option<i64>,
    /// Its own priority.
    pub priority: Option<i32>,
    /// The position of its outline parent among the facts.
    pub parent: Option<usize>,
    /// The positions of the open tasks it depends on.
    pub open_dependencies: Vec<usize>,
    /// Whether its focus history is valid.
    pub focus_valid: bool,
    /// Whether it is focused now.
    pub focused: bool,
    /// When its current focus began, in milliseconds since the epoch.
    pub focused_since_millis: Option<i64>,
    /// The path of its document.
    pub path: String,
    /// Where it starts in its document.
    pub start: usize,
}

/// Every position a fact names is one of the facts.
pub open spec fn facts_well_formed(facts: Seq<ShortlistFact>) -> bool {
    forall|i: int| 0 <= i < facts.len() ==> {
        &&& (#[trigger] facts[i]).parent matches Some(p) ==> (p as int) < facts.len()
        &&& forall|k: int| 0 <= k < facts[i].open_dependencies@.len() ==> (#[trigger] facts[i].open_dependencies@[k] as int) < facts.len()
    }
}

// ---------------------------------------------------------------------------
// Workflow states at the query instant.

/// Whether the task still waits at `now`: its wait instant lies after it.
pub open spec fn waits_at(wait: Option<i64>, now: i64) -> bool {
    match wait {
        Some(w) => w > now,
        None => false,
    }
}

/// The workflow state of a task at `now`: closed tasks keep their closure;
/// an open task waits while its wait instant lies ahead, is blocked while an
/// open dependency remains, and is ready otherwise.
pub open spec fn state_at(closure: TaskClosure, wait: Option<i64>, blocked: bool, now: i64) -> TaskWorkflowState {
    match closure {
        TaskClosure::Done => TaskWorkflowState::Done,
        TaskClosure::Canceled => TaskWorkflowState::Canceled,
        TaskClosure::Conflicted => TaskWorkflowState::Conflicted,
        TaskClosure::Open => if waits_at(wait, now) {
            TaskWorkflowState::Waiting
        } else if blocked {
            TaskWorkflowState::Blocked
        } else {
            TaskWorkflowState::Ready
        },
    }
}

/// The wait reasons of a task at `now`: time first, then dependency; none
/// for a closed task.
pub open spec fn reasons_at(closure: TaskClosure, wait: Option<i64>, blocked: bool, now: i64) -> Seq<TaskWaitReason> {
    match closure {
        TaskClosure::Open => (if waits_at(wait, now) {
            seq![TaskWaitReason::Time]
        } else {
            seq![]
        }) + (if blocked {
            seq![TaskWaitReason::Dependency]
        } else {
            seq![]
        }),
        _ => seq![],
    }
}

/// A task is blocked while it depends on an open task.
pub open spec fn fact_blocked(f: ShortlistFact) -> bool {
    f.open_dependencies@.len() > 0
}

pub open spec fn fact_state(f: ShortlistFact, now: i64) -> TaskWorkflowState {
    state_at(f.closure, f.wait_millis, fact_blocked(f), now)
}

/// The workflow state and wait reasons of a task at `now` (milliseconds
/// since the epoch).
pub fn workflow_state_at(closure: TaskClosure, wait: Option<i64>, blocked: bool, now: i64) -> (result: (
    TaskWorkflowState,
    Vec<TaskWaitReason>,
))
    ensures
        result.0 == state_at(closure, wait, blocked, now),
        result.1@ == reasons_at(closure, wait, blocked, now),
{
    match closure {
        TaskClosure::Done => (TaskWorkflowState::Done, Vec::new()),
        TaskClosure::Canceled => (TaskWorkflowState::Canceled, Vec::new()),
        TaskClosure::Conflicted => (TaskWorkflowState::Conflicted, Vec::new()),
        TaskClosure::Open => {
            let waiting = match wait {
                Some(w) => w > now,
                None => false,
            };
            let mut reasons: Vec<TaskWaitReason> = Vec::new();
            if waiting {
                reasons.push(TaskWaitReason::Time);
            }
            if blocked {
                reasons.push(TaskWaitReason::Dependency);
            }
            let state = if waiting {
                TaskWorkflowState::Waiting
            } else if blocked {
                TaskWorkflowState::Blocked
            } else {
                TaskWorkflowState::Ready
            };
            assert(reasons@ =~= reasons_at(closure, wait, blocked, now));
            (state, reasons)
        },
    }
}

// ---------------------------------------------------------------------------
// Effective priority.

/// Priority flows from a task to its outline parent and to the open tasks
/// it depends on.
pub open spec fn priority_edge(facts: Seq<ShortlistFact>, u: int, v: int) -> bool {
    &&& 0 <= u < facts.len()
    &&& 0 <= v < facts.len()
    &&& (facts[u].parent == Some(v as usize) || facts[u].open_dependencies@.contains(v as usize))
}

pub open spec fn priority_flow(facts: Seq<ShortlistFact>) -> spec_fn(int, int) -> bool {
    |u: int, v: int| priority_edge(facts, u, v)
}

/// A task's own priority (zero when it has none).
pub open spec fn own_priority(f: ShortlistFact) -> i32 {
    match f.priority {
        Some(p) => p,
        None => 0,
    }
}

/// `e` is the effective priority of task `i`: the greatest own priority of
/// a task from which priority flows to `i` (`i` itself included).
pub open spec fn is_effective_priority(facts: Seq<ShortlistFact>, i: int, e: i32) -> bool {
    &&& exists|u: int| 0 <= u < facts.len() && #[trigger] reaches_rel(priority_flow(facts), u, i) && own_priority(facts[u]) == e
    &&& forall|u: int| 0 <= u < facts.len() && #[trigger] reaches_rel(priority_flow(facts), u, i) ==> own_priority(facts[u]) <= e
}

fn priority_graph(facts: &Vec<ShortlistFact>) -> (adj: Vec<Vec<usize>>)
    requires
        facts_well_formed(facts@),
    ensures
        adj.len() == facts.len(),
        well_formed(adjacency(adj@)),
        forall|u: int, v: int| #[trigger] edge(adjacency(adj@), u, v) == priority_edge(facts@, u, v),
{
    let mut adj: Vec<Vec<usize>> = Vec::new();
    let mut u: usize = 0;
    while u < facts.len()
        invariant
            u <= facts.len(),
            facts_well_formed(facts@),
            adj.len() == u,
            forall|a: int, k: int| 0 <= a < u && 0 <= k < adj@[a]@.len() ==> (#[trigger] adj@[a]@[k] as int) < facts.len(),
            forall|a: int, v: int| 0 <= a < u ==> (#[trigger] edge(adjacency(adj@), a, v) == priority_edge(facts@, a, v)),
        decreases facts.len() - u,
    {
        let f = &facts[u];
        let mut succ: Vec<usize> = Vec::new();
        match f.parent {
            Some(p) => succ.push(p),
            None => {},
        }
        let head = succ.len();
        let mut k: usize = 0;
        while k < f.open_dependencies.len()
            invariant
                u < facts.len(),
                f == facts@[u as int],
                facts_well_formed(facts@),
                k <= f.open_dependencies.len(),
                head == (if f.parent is Some { 1usize } else { 0usize }),
                succ.len() == head + k,
                f.parent matches Some(p) ==> succ@[0] == p,
                forall|x: int| 0 <= x < k ==> succ@[head + x] == f.open_dependencies@[x],
            decreases f.open_dependencies.len() - k,
        {
            succ.push(f.open_dependencies[k]);
            k = k + 1;
        }
        let ghost old_adj = adj@;
        adj.push(succ);
        proof {
            let g = adjacency(adj@);
            assert(g[u as int] == succ@);
            assert forall|v: int| #[trigger] edge(g, u as int, v) == priority_edge(facts@, u as int, v) by {
                if edge(g, u as int, v) {
                    let x = choose|x: int| 0 <= x < succ@.len() && #[trigger] succ@[x] as int == v;
                    assert(facts@[u as int] == f);
                    if x >= head {
                        assert((f.open_dependencies@[x - head] as int) < facts.len());
                        assert(f.open_dependencies@[x - head] == succ@[x]);
                        assert(f.open_dependencies@.contains(v as usize));
                    } else {
                        assert(succ@[0] == f.parent->0);
                    }
                }
                if priority_edge(facts@, u as int, v) {
                    if f.parent == Some(v as usize) {
                        assert(succ@[0] as int == v);
                    } else {
                        let m = choose|m: int| 0 <= m < f.open_dependencies@.len() && f.open_dependencies@[m] == v as usize;
                        assert(succ@[head + m] as int == v);
                    }
                }
            }
            assert forall|a: int, v: int| 0 <= a < u + 1 implies (#[trigger] edge(adjacency(adj@), a, v) == priority_edge(facts@, a, v)) by {
                if a < u {
                    assert(adjacency(adj@)[a] == adjacency(old_adj)[a]);
                    assert(edge(adjacency(adj@), a, v) == edge(adjacency(old_adj), a, v));
                }
            }
            assert forall|a: int, k2: int| 0 <= a < u + 1 && 0 <= k2 < adj@[a]@.len() implies (#[trigger] adj@[a]@[k2] as int) < facts.len() by {
                if a == u {
                    if k2 >= head {
                        assert(succ@[k2] == f.open_dependencies@[k2 - head]);
                    }
                } else {
                    assert(adj@[a] == old_adj[a]);
                }
            }
        }
        u = u + 1;
    }
    proof {
        let g = adjacency(adj@);
        assert forall|a: int, k: int| 0 <= a < g.len() && 0 <= k < g[a].len() implies (#[trigger] g[a][k] as int) < g.len() by {
            assert(g[a] == adj@[a]@);
        }
        assert forall|a: int, v: int| #[trigger] edge(g, a, v) == priority_edge(facts@, a, v) by {
            if !(0 <= a < facts.len()) {
            }
        }
    }
    adj
}

/// The effective priority of every task.
pub fn effective_priorities(facts: &Vec<ShortlistFact>) -> (eff: Vec<i32>)
    requires
        facts_well_formed(facts@),
    ensures
        eff.len() == facts.len(),
        forall|i: int| 0 <= i < facts.len() ==> is_effective_priority(facts@, i, #[trigger] eff@[i]),
{
    let adj = priority_graph(facts);
    let mut base: Vec<i32> = Vec::new();
    let mut i: usize = 0;
    while i < facts.len()
        invariant
            i <= facts.len(),
            base.len() == i,
            forall|k: int| 0 <= k < i ==> #[trigger] base@[k] == own_priority(facts@[k]),
        decreases facts.len() - i,
    {
        base.push(
            match facts[i].priority {
                Some(p) => p,
                None => 0,
            },
        );
        i = i + 1;
    }
    let eff = propagate_max(&adj, &base);
    proof {
        let g = adjacency(adj@);
        let flow = priority_flow(facts@);
        assert forall|a: int, b: int| #[trigger] edge(g, a, b) == flow(a, b) by {
            assert(edge(g, a, b) == priority_edge(facts@, a, b));
        }
        assert forall|i: int| 0 <= i < facts.len() implies is_effective_priority(facts@, i, #[trigger] eff@[i]) by {
            assert forall|w: int| #![trigger reaches_rel(flow, w, i)] #![trigger reaches(g, w, i)] true implies reaches(g, w, i) == reaches_rel(flow, w, i) by {
                crate::graph::lemma_reaches_rel(g, flow, w, i);
            }
            assert(is_reach_max(g, base@, i, eff@[i]));
            let u = choose|u: int| 0 <= u < base.len() && #[trigger] reaches(g, u, i) && base@[u] == eff@[i];
            assert(reaches_rel(flow, u, i));
            assert forall|w: int| 0 <= w < facts.len() && #[trigger] reaches_rel(flow, w, i) implies own_priority(facts@[w]) <= eff@[i] by {
                assert(reaches(g, w, i));
                assert(base@[w] == own_priority(facts@[w]));
            }
        }
    }
    eff
}


// ---------------------------------------------------------------------------
// Cursors of the in-flight section.
//
// A cursor reads `v1:<revision>:<signature>:<since>:<path>:<start>`: the
// workspace revision, the hex SHA-256 signature of the root, and the focus
// start, path order key and start offset of the last in-flight task of the
// page.

/// The order key of a path: the hex spelling of its UTF-8 bytes.
pub open spec fn path_order_key(path: Seq<char>) -> Seq<char> {
    hex_spec(utf8_encode(path))
}

/// The order key of a path.
pub fn order_key_of(path: &str) -> (key: String)
    ensures
        key@ == path_order_key(path@),
{
    hex(&utf8_bytes(path))
}

/// What the shortlist's signature hashes: a version tag, then the root
/// path as a framed field.
pub open spec fn next_signature_message(root: Seq<char>) -> Seq<u8> {
    utf8_encode("plumb-next-shortlist-v1"@) + framed(utf8_encode(root))
}

/// The signature of the shortlist of a root.
pub fn next_cursor_signature(root: &str) -> (signature: Vec<u8>)
    ensures
        signature@ == sha256(next_signature_message(root@)),
        signature@.len() == 32,
{
    let mut message = utf8_bytes("plumb-next-shortlist-v1");
    push_framed(&mut message, &utf8_bytes(root));
    sha256_digest(&message)
}

/// The decimal spelling of a signed value.
pub open spec fn signed_decimal(n: i64) -> Seq<char> {
    if n < 0 {
        seq!['-'] + decimal((-(n as int)) as nat)
    } else {
        decimal(n as nat)
    }
}

fn signed_decimal_exec(n: i64) -> (s: Vec<char>)
    ensures
        s@ == signed_decimal(n),
{
    if n < 0 {
        let magnitude = (-(n as i128)) as u64;
        let digits = decimal_u64(magnitude);
        let mut out = vec!['-'];
        extend_chars(&mut out, &digits);
        out
    } else {
        decimal_u64(n as u64)
    }
}

/// The text of a shortlist cursor.
pub open spec fn next_cursor_text(revision: u64, signature: Seq<u8>, since: i64, path_key: Seq<char>, start: usize) -> Seq<char> {
    seq!['v', '1', ':'] + decimal(revision as nat) + seq![':'] + hex_spec(signature) + seq![':'] + signed_decimal(since)
        + seq![':'] + path_key + seq![':'] + decimal(start as nat)
}

/// The cursor that continues the in-flight section after a task: its focus
/// start (zero when it has none), path and start offset.
pub fn encode_next_cursor(revision: u64, root: &str, since: Option<i64>, path: &str, start: usize) -> (cursor: String)
    ensures
        cursor@ == next_cursor_text(
            revision,
            sha256(next_signature_message(root@)),
            match since {
                Some(v) => v,
                None => 0,
            },
            path_order_key(path@),
            start,
        ),
{
    let mut out: Vec<char> = vec!['v', '1', ':'];
    extend_chars(&mut out, &decimal_u64(revision));
    out.push(':');
    extend_chars(&mut out, &chars_of(hex(&next_cursor_signature(root)).as_str()));
    out.push(':');
    let value = match since {
        Some(v) => v,
        None => 0,
    };
    extend_chars(&mut out, &signed_decimal_exec(value));
    out.push(':');
    extend_chars(&mut out, &chars_of(order_key_of(path).as_str()));
    out.push(':');
    extend_chars(&mut out, &decimal_u64(start as u64));
    string_from_chars(&out)
}

/// `i64::from_str`: an optional sign, then one or more decimal digits whose
/// value fits in 64 signed bits.
pub open spec fn parse_i64_spec(s: Seq<char>) -> Option<i64> {
    let negative = s.len() > 0 && s[0] == '-';
    let body = if s.len() > 0 && (s[0] == '-' || s[0] == '+') {
        s.skip(1)
    } else {
        s
    };
    if body.len() > 0 && all_digits(body) && (if negative {
        digits_value(body) <= 0x8000_0000_0000_0000
    } else {
        digits_value(body) <= i64::MAX
    }) {
        Some(
            if negative {
                (-digits_value(body)) as i64
            } else {
                digits_value(body) as i64
            },
        )
    } else {
        None
    }
}

/// Parses a signed 64-bit value as `i64::from_str` does.
pub fn parse_i64(s: &Vec<char>) -> (value: Option<i64>)
    ensures
        value == parse_i64_spec(s@),
{
    let negative = s.len() > 0 && s[0] == '-';
    let signed = s.len() > 0 && (s[0] == '-' || s[0] == '+');
    let mut body: Vec<char> = Vec::new();
    let mut i: usize = if signed {
        1
    } else {
        0
    };
    let start = i;
    while i < s.len()
        invariant
            start <= i <= s.len(),
            body@ == s@.subrange(start as int, i as int),
        decreases s.len() - i,
    {
        body.push(s[i]);
        assert(s@.subrange(start as int, i + 1) == s@.subrange(start as int, i as int).push(s@[i as int]));
        i = i + 1;
    }
    assert(body@ == (if s@.len() > 0 && (s@[0] == '-' || s@[0] == '+') {
        s@.skip(1)
    } else {
        s@
    }));
    if body.len() > 0 && body[0] == '+' {
        assert(!all_digits(body@)) by {
            assert(!('0' <= body@[0] && body@[0] <= '9'));
        }
        return None;
    }
    assert(!(body@.len() > 0 && body@[0] == '+'));
    let ghost spec_body = if s@.len() > 0 && (s@[0] == '-' || s@[0] == '+') {
        s@.skip(1)
    } else {
        s@
    };
    assert(body@ == spec_body);
    assert(!(spec_body.len() > 0 && spec_body[0] == '+'));
    proof {
        if all_digits(spec_body) {
            crate::cursor::lemma_digits_nonneg(spec_body);
        }
    }
    assert(parse_u64_spec(spec_body) == (if spec_body.len() > 0 && all_digits(spec_body) && digits_value(spec_body) <= u64::MAX {
        Some(digits_value(spec_body) as u64)
    } else {
        None
    }));
    match parse_u64(&body) {
        Some(v) => {
            assert(spec_body.len() > 0 && all_digits(spec_body) && v as int == digits_value(spec_body));
            if negative {
                if v <= 0x8000_0000_0000_0000u64 {
                    let r = (-(v as i128)) as i64;
                    assert(r as int == -digits_value(spec_body));
                    Some(r)
                } else {
                    None
                }
            } else if v <= 0x7fff_ffff_ffff_ffffu64 {
                Some(v as i64)
            } else {
                None
            }
        },
        None => {
            assert(!(spec_body.len() > 0 && all_digits(spec_body) && digits_value(spec_body) <= u64::MAX));
            None
        },
    }
}

/// `usize::from_str`.
pub open spec fn parse_usize_spec(s: Seq<char>) -> Option<usize> {
    match parse_u64_spec(s) {
        Some(v) => if v <= usize::MAX {
            Some(v as usize)
        } else {
            None
        },
        None => None,
    }
}

fn parse_usize(s: &Vec<char>) -> (value: Option<usize>)
    ensures
        value == parse_usize_spec(s@),
{
    match parse_u64(s) {
        Some(v) => if v <= usize::MAX as u64 {
            Some(v as usize)
        } else {
            None
        },
        None => None,
    }
}

/// What a cursor names of an in-flight task: its focus start, the order
/// key of its path and its start offset.
pub open spec fn flight_entry(f: ShortlistFact) -> (Option<i64>, Seq<char>, usize) {
    (f.focused_since_millis, path_order_key(f.path@), f.start)
}

pub open spec fn flight_entries(facts: Seq<ShortlistFact>, ordered: Seq<usize>) -> Seq<(Option<i64>, Seq<char>, usize)> {
    ordered.map_values(|i: usize| flight_entry(facts[i as int]))
}

/// The last position before `end` of the entry `(Some(since), path_key,
/// start)`, or -1.
pub open spec fn last_entry(
    entries: Seq<(Option<i64>, Seq<char>, usize)>,
    since: i64,
    path_key: Seq<char>,
    start: usize,
    end: int,
) -> int
    decreases end,
{
    if end <= 0 {
        -1
    } else if entries[end - 1] == (Some(since), path_key, start) {
        end - 1
    } else {
        last_entry(entries, since, path_key, start, end - 1)
    }
}

proof fn lemma_last_entry(entries: Seq<(Option<i64>, Seq<char>, usize)>, since: i64, path_key: Seq<char>, start: usize, end: int)
    requires
        0 <= end <= entries.len(),
    ensures
        -1 <= last_entry(entries, since, path_key, start, end) < end,
        last_entry(entries, since, path_key, start, end) >= 0 ==> entries[last_entry(entries, since, path_key, start, end)]
            == (Some(since), path_key, start),
        forall|k: int| last_entry(entries, since, path_key, start, end) < k < end ==> entries[k] != (Some(since), path_key, start),
    decreases end,
{
    if end > 0 {
        lemma_last_entry(entries, since, path_key, start, end - 1);
    }
}

pub open spec fn malformed_next_cursor() -> Seq<char> {
    "next cursor is malformed"@
}

pub open spec fn stale_next_cursor() -> Seq<char> {
    "next cursor is stale or does not match this query"@
}

pub open spec fn lost_next_cursor() -> Seq<char> {
    "next cursor no longer identifies a result task"@
}

/// What applying a shortlist cursor to the ordered in-flight entries
/// yields: the position of the last entry it names, or the error.  Split at
/// every `:`, the cursor must have six pieces; it must be of version `v1`,
/// this revision and this signature, with a signed focus start and an
/// unsigned start offset; and one entry must match what it names.
pub open spec fn next_cursor_outcome(
    cursor: Seq<char>,
    entries: Seq<(Option<i64>, Seq<char>, usize)>,
    revision: u64,
    signature: Seq<u8>,
) -> Result<int, Seq<char>> {
    let parts = split_parts(cursor, 7);
    if parts.len() != 6 {
        Err(malformed_next_cursor())
    } else if !(parts[0] == seq!['v', '1'] && parse_u64_spec(parts[1]) == Some(revision) && parts[2]
        == hex_spec(signature) && parse_i64_spec(parts[3]) is Some && parse_usize_spec(parts[5]) is Some) {
        Err(stale_next_cursor())
    } else {
        let last = last_entry(
            entries,
            parse_i64_spec(parts[3])->0,
            parts[4],
            parse_usize_spec(parts[5])->0,
            entries.len() as int,
        );
        if last >= 0 {
            Ok(last)
        } else {
            Err(lost_next_cursor())
        }
    }
}

proof fn lemma_outcome_bounds(
    cursor: Seq<char>,
    entries: Seq<(Option<i64>, Seq<char>, usize)>,
    revision: u64,
    signature: Seq<u8>,
)
    ensures
        next_cursor_outcome(cursor, entries, revision, signature) matches Ok(l) ==> 0 <= l < entries.len(),
{
    let parts = split_parts(cursor, 7);
    if parts.len() == 6 && parse_i64_spec(parts[3]) is Some && parse_usize_spec(parts[5]) is Some {
        lemma_last_entry(
            entries,
            parse_i64_spec(parts[3])->0,
            parts[4],
            parse_usize_spec(parts[5])->0,
            entries.len() as int,
        );
    }
}

/// Continues the ordered in-flight tasks after a cursor.
fn apply_next_cursor(
    ordered: Vec<usize>,
    facts: &Vec<ShortlistFact>,
    cursor: &str,
    revision: u64,
    signature: &Vec<u8>,
) -> (result: Result<Vec<usize>, TaskPageQueryError>)
    requires
        forall|q: int| 0 <= q < ordered.len() ==> (#[trigger] ordered@[q] as int) < facts.len(),
    ensures
        match next_cursor_outcome(cursor@, flight_entries(facts@, ordered@), revision, signature@) {
            Ok(last) => result matches Ok(rest) && rest@ == ordered@.skip(last + 1),
            Err(message) => result matches Err(TaskPageQueryError::Cursor(m)) && m@ == message,
        },
{
    let text = chars_of(cursor);
    let parts = split_cursor(&text, 7);
    let ghost pv = parts@.map_values(|p: Vec<char>| p@);
    if parts.len() != 6 {
        return Err(TaskPageQueryError::Cursor("next cursor is malformed".to_string()));
    }
    proof {
        assert(pv[0] == parts@[0]@);
        assert(pv[1] == parts@[1]@);
        assert(pv[2] == parts@[2]@);
        assert(pv[3] == parts@[3]@);
        assert(pv[4] == parts@[4]@);
        assert(pv[5] == parts@[5]@);
    }
    let since = parse_i64(&parts[3]);
    let start = parse_usize(&parts[5]);
    let valid = chars_equal(&parts[0], &vec!['v', '1']) && match parse_u64(&parts[1]) {
        Some(r) => r == revision,
        None => false,
    } && chars_equal(&parts[2], &chars_of(hex(signature).as_str())) && since.is_some() && start.is_some();
    if !valid {
        return Err(TaskPageQueryError::Cursor("next cursor is stale or does not match this query".to_string()));
    }
    let since = since.unwrap();
    let start = start.unwrap();
    let path_key = &parts[4];
    let ghost entries = flight_entries(facts@, ordered@);
    let mut end: usize = ordered.len();
    let mut found: Option<usize> = None;
    while end > 0
        invariant_except_break
            found is None,
        invariant
            end <= ordered.len(),
            entries == flight_entries(facts@, ordered@),
            forall|q: int| 0 <= q < ordered.len() ==> (#[trigger] ordered@[q] as int) < facts.len(),
            last_entry(entries, since, path_key@, start, ordered.len() as int) == last_entry(entries, since, path_key@, start, end as int),
        ensures
            found matches Some(f) ==> f as int == last_entry(entries, since, path_key@, start, ordered.len() as int),
            found is None ==> last_entry(entries, since, path_key@, start, ordered.len() as int) == -1,
        decreases end,
    {
        let f = &facts[ordered[end - 1]];
        let key = order_key_of(f.path.as_str());
        let same_since = match f.focused_since_millis {
            Some(v) => v == since,
            None => false,
        };
        assert(entries[end - 1] == flight_entry(facts@[ordered@[end - 1] as int]));
        if same_since && chars_equal(&chars_of(key.as_str()), path_key) && f.start == start {
            found = Some(end - 1);
            break;
        }
        end = end - 1;
    }
    proof {
        lemma_last_entry(entries, since, path_key@, start, ordered.len() as int);
    }
    match found {
        Some(last) => {
            let mut rest: Vec<usize> = Vec::new();
            let mut k: usize = last + 1;
            while k < ordered.len()
                invariant
                    last < ordered.len(),
                    last + 1 <= k <= ordered.len(),
                    rest@ == ordered@.subrange(last + 1, k as int),
                decreases ordered.len() - k,
            {
                rest.push(ordered[k]);
                assert(ordered@.subrange(last + 1, k + 1) == ordered@.subrange(last + 1, k as int).push(ordered@[k as int]));
                k = k + 1;
            }
            assert(rest@ == ordered@.skip(last + 1));
            Ok(rest)
        },
        None => Err(TaskPageQueryError::Cursor("next cursor no longer identifies a result task".to_string())),
    }
}


// ---------------------------------------------------------------------------
// The two sections.

/// A task is in flight when its focus history is valid and it is focused,
/// whatever its workflow state.
pub open spec fn in_flight(f: ShortlistFact) -> bool {
    f.focus_valid && f.focused
}

/// A task is a candidate when its focus history is valid, it is not
/// focused and it is ready at `now`.
pub open spec fn is_candidate(f: ShortlistFact, now: i64) -> bool {
    f.focus_valid && !f.focused && fact_state(f, now) == TaskWorkflowState::Ready
}

pub open spec fn flight_mask(facts: Seq<ShortlistFact>) -> Seq<bool> {
    facts.map_values(|f: ShortlistFact| in_flight(f))
}

pub open spec fn candidate_mask(facts: Seq<ShortlistFact>, now: i64) -> Seq<bool> {
    facts.map_values(|f: ShortlistFact| is_candidate(f, now))
}

pub open spec fn invalid_mask(facts: Seq<ShortlistFact>) -> Seq<bool> {
    facts.map_values(|f: ShortlistFact| !f.focus_valid)
}

/// The positions that a mask keeps, in order.
pub open spec fn positions(mask: Seq<bool>) -> Seq<usize>
    decreases mask.len(),
{
    if mask.len() == 0 {
        seq![]
    } else {
        positions(mask.drop_last()) + if mask.last() {
            seq![(mask.len() - 1) as usize]
        } else {
            seq![]
        }
    }
}

/// The positions a mask keeps are exactly its set positions.
pub proof fn lemma_positions(mask: Seq<bool>)
    requires
        mask.len() <= usize::MAX,
    ensures
        forall|q: int| 0 <= q < positions(mask).len() ==> (#[trigger] positions(mask)[q] as int) < mask.len() && mask[positions(mask)[q] as int],
        forall|i: int| 0 <= i < mask.len() && mask[i] ==> #[trigger] positions(mask).contains(i as usize),
        forall|q1: int, q2: int| 0 <= q1 < q2 < positions(mask).len() ==> #[trigger] positions(mask)[q1] < #[trigger] positions(mask)[q2],
    decreases mask.len(),
{
    if mask.len() > 0 {
        let init = mask.drop_last();
        lemma_positions(init);
        let p = positions(mask);
        let pi = positions(init);
        assert forall|q: int| 0 <= q < p.len() implies (#[trigger] p[q] as int) < mask.len() && mask[p[q] as int] by {
            if q < pi.len() {
                assert(p[q] == pi[q]);
                assert(init[pi[q] as int] == mask[pi[q] as int]);
            } else {
                assert(p[q] as int == mask.len() - 1);
            }
        }
        assert forall|i: int| 0 <= i < mask.len() && mask[i] implies #[trigger] p.contains(i as usize) by {
            if i < mask.len() - 1 {
                assert(init[i] == mask[i]);
                assert(pi.contains(i as usize));
                let q = choose|q: int| 0 <= q < pi.len() && pi[q] == i as usize;
                assert(p[q] == pi[q]);
            } else {
                assert(p[p.len() - 1] == i as usize);
            }
        }
        assert forall|q1: int, q2: int| 0 <= q1 < q2 < p.len() implies #[trigger] p[q1] < #[trigger] p[q2] by {
            if q2 < pi.len() {
                assert(p[q1] == pi[q1] && p[q2] == pi[q2]);
            } else {
                assert(p[q1] == pi[q1]);
            }
        }
    }
}

fn positions_exec(mask: &Vec<bool>) -> (out: Vec<usize>)
    ensures
        out@ == positions(mask@),
{
    let mut out: Vec<usize> = Vec::new();
    let mut i: usize = 0;
    while i < mask.len()
        invariant
            i <= mask.len(),
            out@ == positions(mask@.take(i as int)),
        decreases mask.len() - i,
    {
        assert(mask@.take(i + 1).drop_last() == mask@.take(i as int));
        if mask[i] {
            out.push(i);
        }
        i = i + 1;
    }
    assert(mask@.take(mask.len() as int) == mask@);
    out
}

/// In-flight tasks come by when their focus began (none first), then by
/// path order key and start offset.
pub open spec fn since_key(since: Option<i64>) -> Seq<i128> {
    match since {
        None => seq![0],
        Some(v) => seq![1, v as i128],
    }
}

pub open spec fn flight_key(f: ShortlistFact) -> Seq<i128> {
    since_key(f.focused_since_millis) + str_key(path_order_key(f.path@)) + seq![f.start as i128]
}

pub open spec fn flight_keys(facts: Seq<ShortlistFact>, pos: Seq<usize>) -> Seq<Seq<i128>> {
    pos.map_values(|i: usize| flight_key(facts[i as int]))
}

/// Candidates come by effective priority (highest first), then by path
/// order key and start offset.
pub open spec fn candidate_key(f: ShortlistFact, priority: i32) -> Seq<i128> {
    seq![(-(priority as int)) as i128] + str_key(path_order_key(f.path@)) + seq![f.start as i128]
}

pub open spec fn candidate_keys(facts: Seq<ShortlistFact>, eff: Seq<i32>, pos: Seq<usize>) -> Seq<Seq<i128>> {
    pos.map_values(|i: usize| candidate_key(facts[i as int], eff[i as int]))
}

fn push_path_order_key(key: &mut Vec<i128>, path: &str)
    ensures
        final(key)@ == old(key)@ + str_key(path_order_key(path@)),
{
    let k = order_key_of(path);
    push_str_key(key, &chars_of(k.as_str()));
}

fn flight_key_vecs(facts: &Vec<ShortlistFact>, pos: &Vec<usize>) -> (keys: Vec<Vec<i128>>)
    requires
        forall|q: int| 0 <= q < pos.len() ==> (#[trigger] pos@[q] as int) < facts.len(),
    ensures
        keys.len() == pos.len(),
        keys@.map_values(|k: Vec<i128>| k@) == flight_keys(facts@, pos@),
{
    let mut keys: Vec<Vec<i128>> = Vec::new();
    let mut q: usize = 0;
    while q < pos.len()
        invariant
            q <= pos.len(),
            keys.len() == q,
            forall|j: int| 0 <= j < pos.len() ==> (#[trigger] pos@[j] as int) < facts.len(),
            forall|j: int| 0 <= j < q ==> #[trigger] keys@[j]@ == flight_key(facts@[pos@[j] as int]),
        decreases pos.len() - q,
    {
        let f = &facts[pos[q]];
        let mut key: Vec<i128> = Vec::new();
        match f.focused_since_millis {
            None => key.push(0),
            Some(v) => {
                key.push(1);
                key.push(v as i128);
            },
        }
        assert(key@ =~= since_key(f.focused_since_millis));
        push_path_order_key(&mut key, f.path.as_str());
        key.push(f.start as i128);
        assert(key@ =~= flight_key(*f));
        keys.push(key);
        q = q + 1;
    }
    assert(keys@.map_values(|k: Vec<i128>| k@) =~= flight_keys(facts@, pos@));
    keys
}

fn candidate_key_vecs(facts: &Vec<ShortlistFact>, eff: &Vec<i32>, pos: &Vec<usize>) -> (keys: Vec<Vec<i128>>)
    requires
        eff.len() == facts.len(),
        forall|q: int| 0 <= q < pos.len() ==> (#[trigger] pos@[q] as int) < facts.len(),
    ensures
        keys.len() == pos.len(),
        keys@.map_values(|k: Vec<i128>| k@) == candidate_keys(facts@, eff@, pos@),
{
    let mut keys: Vec<Vec<i128>> = Vec::new();
    let mut q: usize = 0;
    while q < pos.len()
        invariant
            q <= pos.len(),
            keys.len() == q,
            eff.len() == facts.len(),
            forall|j: int| 0 <= j < pos.len() ==> (#[trigger] pos@[j] as int) < facts.len(),
            forall|j: int| 0 <= j < q ==> #[trigger] keys@[j]@ == candidate_key(facts@[pos@[j] as int], eff@[pos@[j] as int]),
        decreases pos.len() - q,
    {
        let i = pos[q];
        let f = &facts[i];
        let mut key: Vec<i128> = Vec::new();
        key.push(-(eff[i] as i128));
        push_path_order_key(&mut key, f.path.as_str());
        key.push(f.start as i128);
        assert(key@ =~= candidate_key(*f, eff@[i as int]));
        keys.push(key);
        q = q + 1;
    }
    assert(keys@.map_values(|k: Vec<i128>| k@) =~= candidate_keys(facts@, eff@, pos@));
    keys
}

/// The candidate limit: the requested one, kept within 1..=10.
pub open spec fn clamp_limit(limit: usize) -> usize {
    if limit < 1 {
        1
    } else if limit > 10 {
        10
    } else {
        limit
    }
}

/// The shortlist.
#[derive(Debug)]
pub struct NextResult {
    /// The workflow state of every task at the query instant.
    pub states: Vec<TaskWorkflowState>,
    /// The wait reasons of every task.
    pub wait_reasons: Vec<Vec<TaskWaitReason>>,
    /// The effective priority of every task.
    pub effective_priorities: Vec<i32>,
    /// The page of in-flight tasks (positions among the facts).
    pub focused: Vec<usize>,
    /// How many tasks are in flight, whatever the page holds.
    pub focused_total: usize,
    /// Whether the page holds the rest of the in-flight tasks.
    pub focused_complete: bool,
    /// The cursor that continues the in-flight section.
    pub focused_next_cursor: Option<String>,
    /// The candidates (positions among the facts).
    pub candidates: Vec<usize>,
    /// The candidate limit used.
    pub candidate_limit: usize,
    /// Whether no ready candidate was left out.
    pub candidates_complete: bool,
    /// The tasks left out because their focus history is invalid.
    pub skipped_invalid: Vec<usize>,
}

/// Where the in-flight section resumes: after the entry a cursor names
/// (-1 without a cursor), or the cursor's error.
pub open spec fn resume_after(
    cursor: Option<String>,
    entries: Seq<(Option<i64>, Seq<char>, usize)>,
    revision: u64,
    signature: Seq<u8>,
) -> Result<int, Seq<char>> {
    match cursor {
        None => Ok(-1),
        Some(c) => next_cursor_outcome(c@, entries, revision, signature),
    }
}

/// The in-flight page after position `last` of the order `flight`.
pub open spec fn flight_page(flight: Seq<usize>, last: int) -> Seq<usize> {
    let rest = flight.skip(last + 1);
    if rest.len() <= NEXT_FOCUSED_PAGE {
        rest
    } else {
        rest.take(NEXT_FOCUSED_PAGE as int)
    }
}

/// `flight` is the in-flight order: the in-flight tasks by `flight_key`,
/// stable.
pub open spec fn is_flight_order(facts: Seq<ShortlistFact>, flight: Seq<usize>) -> bool {
    exists|perm: Seq<int>|
        sorted_permutation(flight_keys(facts, positions(flight_mask(facts))), perm) && permuted(
            positions(flight_mask(facts)),
            flight,
            perm,
        )
}

/// `ready` is the candidate order: the candidates by `candidate_key`,
/// stable.
pub open spec fn is_candidate_order(facts: Seq<ShortlistFact>, eff: Seq<i32>, now: i64, ready: Seq<usize>) -> bool {
    exists|perm: Seq<int>|
        sorted_permutation(candidate_keys(facts, eff, positions(candidate_mask(facts, now))), perm) && permuted(
            positions(candidate_mask(facts, now)),
            ready,
            perm,
        )
}

/// What a successful shortlist holds, the in-flight section resuming after
/// position `last` of the in-flight order `flight`.
pub open spec fn shortlist_ok(
    facts: Seq<ShortlistFact>,
    root: Seq<char>,
    limit: usize,
    revision: u64,
    now: i64,
    flight: Seq<usize>,
    last: int,
    s: NextResult,
) -> bool {
    let rest = flight.skip(last + 1);
    let page = flight_page(flight, last);
    &&& s.states.len() == facts.len()
    &&& s.wait_reasons.len() == facts.len()
    &&& s.effective_priorities.len() == facts.len()
    &&& forall|i: int| 0 <= i < facts.len() ==> {
        &&& #[trigger] s.states@[i] == fact_state(facts[i], now)
        &&& s.wait_reasons@[i]@ == reasons_at(facts[i].closure, facts[i].wait_millis, fact_blocked(facts[i]), now)
        &&& is_effective_priority(facts, i, s.effective_priorities@[i])
    }
    &&& s.focused@ == page
    &&& s.focused_total == flight.len()
    &&& s.focused_complete == (rest.len() <= NEXT_FOCUSED_PAGE)
    &&& (if rest.len() <= NEXT_FOCUSED_PAGE {
        s.focused_next_cursor is None
    } else {
        s.focused_next_cursor matches Some(c) && c@ == next_cursor_text(
            revision,
            sha256(next_signature_message(root)),
            match facts[page.last() as int].focused_since_millis {
                Some(v) => v,
                None => 0,
            },
            path_order_key(facts[page.last() as int].path@),
            facts[page.last() as int].start,
        )
    })
    &&& s.candidate_limit == clamp_limit(limit)
    &&& exists|ready: Seq<usize>|
        is_candidate_order(facts, s.effective_priorities@, now, ready) && s.candidates_complete == (ready.len()
            <= clamp_limit(limit)) && s.candidates@ == (if ready.len() <= clamp_limit(limit) {
            ready
        } else {
            ready.take(clamp_limit(limit) as int)
        })
    &&& s.skipped_invalid@ == positions(invalid_mask(facts))
}

fn task_states(facts: &Vec<ShortlistFact>, now: i64) -> (result: (Vec<TaskWorkflowState>, Vec<Vec<TaskWaitReason>>))
    ensures
        result.0.len() == facts.len(),
        result.1.len() == facts.len(),
        forall|i: int| 0 <= i < facts.len() ==> #[trigger] result.0@[i] == fact_state(facts@[i], now)
            && result.1@[i]@ == reasons_at(facts@[i].closure, facts@[i].wait_millis, fact_blocked(facts@[i]), now),
{
    let mut states: Vec<TaskWorkflowState> = Vec::new();
    let mut reasons: Vec<Vec<TaskWaitReason>> = Vec::new();
    let mut i: usize = 0;
    while i < facts.len()
        invariant
            i <= facts.len(),
            states.len() == i,
            reasons.len() == i,
            forall|k: int| 0 <= k < i ==> #[trigger] states@[k] == fact_state(facts@[k], now)
                && reasons@[k]@ == reasons_at(facts@[k].closure, facts@[k].wait_millis, fact_blocked(facts@[k]), now),
        decreases facts.len() - i,
    {
        let f = &facts[i];
        let (state, why) = workflow_state_at(f.closure, f.wait_millis, f.open_dependencies.len() > 0, now);
        states.push(state);
        reasons.push(why);
        i = i + 1;
    }
    (states, reasons)
}

/// The shortlist of the tasks `facts` at the instant `now` (milliseconds
/// since the epoch): the in-flight tasks in their order (see `flight_key`),
/// resumed after `cursor` and paged by `NEXT_FOCUSED_PAGE`, and the ready
/// candidates by effective priority, at most `limit` kept within 1..=10.
/// A cursor that does not fit the in-flight order is refused with its
/// message.
pub fn query_next(
    facts: &Vec<ShortlistFact>,
    root: &str,
    limit: usize,
    cursor: &Option<String>,
    revision: u64,
    now: i64,
) -> (result: Result<NextResult, TaskPageQueryError>)
    requires
        facts_well_formed(facts@),
    ensures
        exists|flight: Seq<usize>|
            is_flight_order(facts@, flight) && match resume_after(
                *cursor,
                flight_entries(facts@, flight),
                revision,
                sha256(next_signature_message(root@)),
            ) {
                Ok(last) => result matches Ok(s) && shortlist_ok(facts@, root@, limit, revision, now, flight, last, s),
                Err(message) => result matches Err(TaskPageQueryError::Cursor(m)) && m@ == message,
            },
{
    let (states, wait_reasons) = task_states(facts, now);
    let effective = effective_priorities(facts);
    let mut flight_flags: Vec<bool> = Vec::new();
    let mut ready_flags: Vec<bool> = Vec::new();
    let mut invalid_flags: Vec<bool> = Vec::new();
    let mut i: usize = 0;
    while i < facts.len()
        invariant
            i <= facts.len(),
            states.len() == facts.len(),
            forall|k: int| 0 <= k < facts.len() ==> #[trigger] states@[k] == fact_state(facts@[k], now),
            flight_flags@ == flight_mask(facts@).take(i as int),
            ready_flags@ == candidate_mask(facts@, now).take(i as int),
            invalid_flags@ == invalid_mask(facts@).take(i as int),
        decreases facts.len() - i,
    {
        let f = &facts[i];
        flight_flags.push(f.focus_valid && f.focused);
        ready_flags.push(f.focus_valid && !f.focused && states[i] == TaskWorkflowState::Ready);
        invalid_flags.push(!f.focus_valid);
        assert(flight_flags@ =~= flight_mask(facts@).take(i + 1));
        assert(ready_flags@ =~= candidate_mask(facts@, now).take(i + 1));
        assert(invalid_flags@ =~= invalid_mask(facts@).take(i + 1));
        i = i + 1;
    }
    assert(flight_flags@ =~= flight_mask(facts@));
    assert(ready_flags@ =~= candidate_mask(facts@, now));
    assert(invalid_flags@ =~= invalid_mask(facts@));
    let skipped_invalid = positions_exec(&invalid_flags);
    let in_flight_positions = positions_exec(&flight_flags);
    proof {
        lemma_positions(flight_mask(facts@));
        lemma_positions(candidate_mask(facts@, now));
    }
    let flight_keys_vec = flight_key_vecs(facts, &in_flight_positions);
    let ghost unordered = in_flight_positions@;
    let flight = sort_by_keys(in_flight_positions, &flight_keys_vec);
    let ghost fperm = choose|perm: Seq<int>|
        sorted_permutation(flight_keys(facts@, unordered), perm) && permuted(unordered, flight@, perm);
    assert(is_flight_order(facts@, flight@));
    assert forall|q: int| 0 <= q < flight.len() implies (#[trigger] flight@[q] as int) < facts.len() by {
        assert(flight@[q] == unordered[fperm[q]]);
    }
    let focused_total = flight.len();
    let signature = next_cursor_signature(root);
    let ghost entries = flight_entries(facts@, flight@);
    let ghost flight_seq = flight@;
    let rest = match cursor {
        None => {
            assert(flight@.skip(0) == flight@);
            flight
        },
        Some(c) => match apply_next_cursor(flight, facts, c.as_str(), revision, &signature) {
            Ok(rest) => rest,
            Err(e) => {
                return Err(e);
            },
        },
    };
    let ghost last: int = match resume_after(*cursor, entries, revision, signature@) {
        Ok(l) => l,
        Err(_) => -1,
    };
    proof {
        match cursor {
            Some(c) => lemma_outcome_bounds(c@, entries, revision, signature@),
            None => {},
        }
        assert(entries.len() == flight_seq.len());
        assert(0 <= last + 1 <= flight_seq.len());
    }
    assert(rest@ == flight_seq.skip(last + 1));
    let focused_complete = rest.len() <= NEXT_FOCUSED_PAGE;
    let mut page = rest;
    page.truncate(NEXT_FOCUSED_PAGE);
    assert(page@ == flight_page(flight_seq, last));
    assert forall|q: int| 0 <= q < page.len() implies (#[trigger] page@[q] as int) < facts.len() by {
        assert(page@[q] == flight_seq[last + 1 + q]);
    }
    let focused_next_cursor = if focused_complete {
        None
    } else {
        let f = &facts[page[page.len() - 1]];
        assert(page@[page.len() - 1] == page@.last());
        Some(encode_next_cursor(revision, root, f.focused_since_millis, f.path.as_str(), f.start))
    };
    let ready_positions = positions_exec(&ready_flags);
    let candidate_keys_vec = candidate_key_vecs(facts, &effective, &ready_positions);
    let ghost unready = ready_positions@;
    let mut ordered = sort_by_keys(ready_positions, &candidate_keys_vec);
    assert(is_candidate_order(facts@, effective@, now, ordered@));
    let ghost ready = ordered@;
    let candidate_limit = if limit < 1 {
        1
    } else if limit > 10 {
        10
    } else {
        limit
    };
    let candidates_complete = ordered.len() <= candidate_limit;
    ordered.truncate(candidate_limit);
    let s = NextResult {
        states,
        wait_reasons,
        effective_priorities: effective,
        focused: page,
        focused_total,
        focused_complete,
        focused_next_cursor,
        candidates: ordered,
        candidate_limit,
        candidates_complete,
        skipped_invalid,
    };
    proof {
        let rest_seq = flight_seq.skip(last + 1);
        assert(s.focused@ == flight_page(flight_seq, last));
        assert(s.focused_complete == (rest_seq.len() <= NEXT_FOCUSED_PAGE));
        assert(s.candidate_limit == clamp_limit(limit));
        assert(s.candidates_complete == (ready.len() <= clamp_limit(limit)));
        assert(s.candidates@ == (if ready.len() <= clamp_limit(limit) {
            ready
        } else {
            ready.take(clamp_limit(limit) as int)
        }));
        assert(s.skipped_invalid@ == positions(invalid_mask(facts@)));
        assert(s.focused_total == flight_seq.len());
        assert(is_candidate_order(facts@, s.effective_priorities@, now, ready));
        assert(forall|i: int| 0 <= i < facts.len() ==> {
            &&& #[trigger] s.states@[i] == fact_state(facts@[i], now)
            &&& s.wait_reasons@[i]@ == reasons_at(facts@[i].closure, facts@[i].wait_millis, fact_blocked(facts@[i]), now)
            &&& is_effective_priority(facts@, i, s.effective_priorities@[i])
        });
        let page_seq = flight_page(flight_seq, last);
        if rest_seq.len() > NEXT_FOCUSED_PAGE {
            assert(s.focused_next_cursor matches Some(c) && c@ == next_cursor_text(
                revision,
                sha256(next_signature_message(root@)),
                match facts@[page_seq.last() as int].focused_since_millis {
                    Some(v) => v,
                    None => 0,
                },
                path_order_key(facts@[page_seq.last() as int].path@),
                facts@[page_seq.last() as int].start,
            ));
        }
    }
    assert(shortlist_ok(facts@, root@, limit, revision, now, flight_seq, last, s));
    Ok(s)
}


// ---------------------------------------------------------------------------
// Laws.

/// A task's effective priority is at least its own, and priority flows
/// along every edge: a task that depends on another, or sits below it in
/// the outline, never has a higher effective priority than it.  Focus plays
/// no part, so a focused task lends its priority like any other.
pub proof fn lemma_priority_flows(facts: Seq<ShortlistFact>, u: int, v: int, eu: i32, ev: i32)
    requires
        0 <= u < facts.len(),
        is_effective_priority(facts, u, eu),
        is_effective_priority(facts, v, ev),
        priority_edge(facts, u, v),
    ensures
        own_priority(facts[u]) <= eu,
        eu <= ev,
{
    let flow = priority_flow(facts);
    crate::graph::lemma_rel_self(flow, u);
    let w = choose|w: int| 0 <= w < facts.len() && #[trigger] reaches_rel(flow, w, u) && own_priority(facts[w]) == eu;
    assert(flow(u, v));
    crate::graph::lemma_rel_step(flow, w, u, v);
}

/// The in-flight order holds exactly the tasks in flight, whatever their
/// workflow state; the candidate order holds exactly the ready tasks that
/// are not focused and whose focus history is valid; no task is in both.
pub proof fn lemma_sections(facts: Seq<ShortlistFact>, eff: Seq<i32>, now: i64, flight: Seq<usize>, ready: Seq<usize>, i: int)
    requires
        facts.len() <= usize::MAX,
        is_flight_order(facts, flight),
        is_candidate_order(facts, eff, now, ready),
        0 <= i < facts.len(),
    ensures
        flight.contains(i as usize) <==> in_flight(facts[i]),
        ready.contains(i as usize) <==> is_candidate(facts[i], now),
        !(flight.contains(i as usize) && ready.contains(i as usize)),
{
    let fm = flight_mask(facts);
    let cm = candidate_mask(facts, now);
    lemma_positions(fm);
    lemma_positions(cm);
    let fp = positions(fm);
    let cp = positions(cm);
    let fperm = choose|perm: Seq<int>| sorted_permutation(flight_keys(facts, fp), perm) && permuted(fp, flight, perm);
    let cperm = choose|perm: Seq<int>| sorted_permutation(candidate_keys(facts, eff, cp), perm) && permuted(cp, ready, perm);
    lemma_permuted_contains(fp, flight, fperm, i as usize);
    lemma_permuted_contains(cp, ready, cperm, i as usize);
    if fp.contains(i as usize) {
        let q = choose|q: int| 0 <= q < fp.len() && fp[q] == i as usize;
        assert(fm[fp[q] as int]);
    }
    if in_flight(facts[i]) {
        assert(fm[i]);
    }
    if cp.contains(i as usize) {
        let q = choose|q: int| 0 <= q < cp.len() && cp[q] == i as usize;
        assert(cm[cp[q] as int]);
    }
    if is_candidate(facts[i], now) {
        assert(cm[i]);
    }
}

/// A sorted permutation of a list holds the same elements.
proof fn lemma_permuted_contains(items: Seq<usize>, out: Seq<usize>, perm: Seq<int>, x: usize)
    requires
        perm.len() == items.len(),
        forall|q: int| 0 <= q < perm.len() ==> 0 <= #[trigger] perm[q] < items.len(),
        perm.no_duplicates(),
        permuted(items, out, perm),
    ensures
        out.contains(x) <==> items.contains(x),
{
    if out.contains(x) {
        let q = choose|q: int| 0 <= q < out.len() && out[q] == x;
        assert(items[perm[q]] == x);
    }
    if items.contains(x) {
        let k = choose|k: int| 0 <= k < items.len() && items[k] == x;
        crate::order::lemma_permutation_onto(perm, items.len() as int);
        assert(perm.contains(k));
        let q = choose|q: int| 0 <= q < perm.len() && perm[q] == k;
        assert(out[q] == x);
    }
}


proof fn lemma_split_without_colon(s: Seq<char>, n: nat)
    requires
        forall|m: int| 0 <= m < s.len() ==> s[m] != ':',
    ensures
        split_parts(s, n) == seq![s],
{
    crate::cursor::lemma_first_colon(s, 0);
    if n > 1 {
        assert(crate::cursor::first_colon_from(s, 0) is None);
    }
}

proof fn lemma_digits_no_colon(s: Seq<char>)
    requires
        all_digits(s),
    ensures
        forall|m: int| 0 <= m < s.len() ==> s[m] != ':',
{
    assert forall|m: int| 0 <= m < s.len() implies s[m] != ':' by {
        assert('0' <= s[m] && s[m] <= '9');
    }
}

/// Reading back a signed decimal spelling gives the value.
proof fn lemma_parse_signed_decimal(n: i64)
    ensures
        parse_i64_spec(signed_decimal(n)) == Some(n),
        forall|m: int| 0 <= m < signed_decimal(n).len() ==> signed_decimal(n)[m] != ':',
{
    if n < 0 {
        let k = (-(n as int)) as nat;
        crate::cursor::lemma_decimal_digits(k);
        let s = signed_decimal(n);
        assert(s[0] == '-');
        assert(s.skip(1) =~= decimal(k));
        lemma_digits_no_colon(decimal(k));
        assert forall|m: int| 0 <= m < s.len() implies s[m] != ':' by {
            if m > 0 {
                assert(s[m] == decimal(k)[m - 1]);
            }
        }
    } else {
        crate::cursor::lemma_decimal_digits(n as nat);
        let d = decimal(n as nat);
        assert('0' <= d[0] && d[0] <= '9');
        lemma_digits_no_colon(d);
    }
}

pub open spec fn colon_free(s: Seq<char>) -> bool {
    forall|m: int| 0 <= m < s.len() ==> s[m] != ':'
}

proof fn lemma_split_step(x: Seq<char>, y: Seq<char>, n: nat)
    requires
        colon_free(x),
        n >= 2,
    ensures
        split_parts(x + seq![':'] + y, n) == seq![x] + split_parts(y, (n - 1) as nat),
{
    let t = x + seq![':'] + y;
    crate::cursor::lemma_first_colon_after(x, y);
    assert(t.take(x.len() as int) =~= x);
    assert(t.skip(x.len() as int + 1) =~= y);
}

/// Six colon-free pieces joined by colons split back into themselves.
proof fn lemma_six_pieces(a: Seq<char>, b: Seq<char>, c: Seq<char>, d: Seq<char>, e: Seq<char>, f: Seq<char>)
    requires
        colon_free(a),
        colon_free(b),
        colon_free(c),
        colon_free(d),
        colon_free(e),
        colon_free(f),
    ensures
        split_parts(a + seq![':'] + b + seq![':'] + c + seq![':'] + d + seq![':'] + e + seq![':'] + f, 7) == seq![a, b, c, d, e, f],
{
    let t4 = e + seq![':'] + f;
    let t3 = d + seq![':'] + t4;
    let t2 = c + seq![':'] + t3;
    let t1 = b + seq![':'] + t2;
    let t0 = a + seq![':'] + t1;
    assert(a + seq![':'] + b + seq![':'] + c + seq![':'] + d + seq![':'] + e + seq![':'] + f =~= t0);
    lemma_split_without_colon(f, 2);
    lemma_split_step(e, f, 3);
    lemma_split_step(d, t4, 4);
    lemma_split_step(c, t3, 5);
    lemma_split_step(b, t2, 6);
    lemma_split_step(a, t1, 7);
    assert(split_parts(t0, 7) =~= seq![a, b, c, d, e, f]);
}

/// The pieces of a cursor text.
proof fn lemma_next_cursor_parts(revision: u64, signature: Seq<u8>, since: i64, path: Seq<char>, start: usize)
    ensures
        split_parts(next_cursor_text(revision, signature, since, path_order_key(path), start), 7) == seq![
            seq!['v', '1'],
            decimal(revision as nat),
            hex_spec(signature),
            signed_decimal(since),
            path_order_key(path),
            decimal(start as nat),
        ],
{
    let a = seq!['v', '1'];
    let b = decimal(revision as nat);
    let c = hex_spec(signature);
    let d = signed_decimal(since);
    let e = path_order_key(path);
    let f = decimal(start as nat);
    assert(colon_free(a));
    assert(colon_free(b)) by {
        crate::cursor::lemma_decimal_digits(revision as nat);
        lemma_digits_no_colon(b);
    }
    assert(colon_free(c)) by {
        crate::cursor::lemma_hex_no_colon(signature);
    }
    assert(colon_free(d)) by {
        lemma_parse_signed_decimal(since);
    }
    assert(colon_free(e)) by {
        crate::cursor::lemma_hex_no_colon(utf8_encode(path));
    }
    assert(colon_free(f)) by {
        crate::cursor::lemma_decimal_digits(start as nat);
        lemma_digits_no_colon(f);
    }
    assert(next_cursor_text(revision, signature, since, e, start) =~= a + seq![':'] + b + seq![':'] + c + seq![':'] + d
        + seq![':'] + e + seq![':'] + f);
    lemma_six_pieces(a, b, c, d, e, f);
}

/// A cursor issued for an in-flight task, applied to the same in-flight
/// order at the same revision and root, resumes right after the last task
/// it names (when the tasks are told apart by path and start, after that
/// very task); when no task fits it any more it is refused.
pub proof fn lemma_next_cursor_round_trip(
    entries: Seq<(Option<i64>, Seq<char>, usize)>,
    revision: u64,
    signature: Seq<u8>,
    since: i64,
    path: Seq<char>,
    start: usize,
)
    ensures
        next_cursor_outcome(
            next_cursor_text(revision, signature, since, path_order_key(path), start),
            entries,
            revision,
            signature,
        ) == (if exists|j: int| 0 <= j < entries.len() && #[trigger] entries[j] == (Some(since), path_order_key(path), start) {
            Ok::<int, Seq<char>>(last_entry(entries, since, path_order_key(path), start, entries.len() as int))
        } else {
            Err::<int, Seq<char>>(lost_next_cursor())
        }),
        forall|j: int| 0 <= j < entries.len() && #[trigger] entries[j] == (Some(since), path_order_key(path), start) ==> j
            <= last_entry(entries, since, path_order_key(path), start, entries.len() as int),
{
    let e = path_order_key(path);
    lemma_next_cursor_parts(revision, signature, since, path, start);
    lemma_parse_signed_decimal(since);
    crate::cursor::lemma_parse_decimal(revision);
    crate::cursor::lemma_parse_decimal(start as u64);
    assert(parse_usize_spec(decimal(start as nat)) == Some(start));
    lemma_last_entry(entries, since, e, start, entries.len() as int);
}

/// The sections of a shortlist keep to their sizes whatever the limit: the
/// candidate limit is the limit clamped to 1..=10; at most that many
/// candidates, each a valid, unfocused, ready task, by effective priority
/// (highest first); the candidates are complete exactly when every
/// candidate fits; and at most one page of in-flight tasks.
pub proof fn lemma_next_sections_bounded(
    facts: Seq<ShortlistFact>,
    root: Seq<char>,
    limit: usize,
    revision: u64,
    now: i64,
    flight: Seq<usize>,
    last: int,
    s: NextResult,
)
    requires
        facts.len() <= usize::MAX,
        shortlist_ok(facts, root, limit, revision, now, flight, last, s),
    ensures
        1 <= s.candidate_limit <= 10,
        s.candidate_limit == clamp_limit(limit),
        s.candidates.len() <= s.candidate_limit,
        s.candidates_complete == (positions(candidate_mask(facts, now)).len() <= s.candidate_limit),
        forall|q: int|
            0 <= q < s.candidates.len() ==> (#[trigger] s.candidates@[q] as int) < facts.len() && is_candidate(
                facts[s.candidates@[q] as int],
                now,
            ),
        forall|q1: int, q2: int|
            0 <= q1 < q2 < s.candidates.len() ==> s.effective_priorities@[#[trigger] s.candidates@[q1] as int]
                >= s.effective_priorities@[#[trigger] s.candidates@[q2] as int],
        s.focused.len() <= NEXT_FOCUSED_PAGE,
{
    let eff = s.effective_priorities@;
    let ready = choose|ready: Seq<usize>|
        is_candidate_order(facts, eff, now, ready) && s.candidates_complete == (ready.len() <= clamp_limit(limit))
            && s.candidates@ == (if ready.len() <= clamp_limit(limit) {
            ready
        } else {
            ready.take(clamp_limit(limit) as int)
        });
    let cm = candidate_mask(facts, now);
    let cp = positions(cm);
    lemma_positions(cm);
    let perm = choose|perm: Seq<int>| sorted_permutation(candidate_keys(facts, eff, cp), perm) && permuted(cp, ready, perm);
    assert(ready.len() == cp.len());
    assert forall|q: int| 0 <= q < s.candidates.len() implies (#[trigger] s.candidates@[q] as int) < facts.len() && is_candidate(
        facts[s.candidates@[q] as int],
        now,
    ) by {
        assert(s.candidates@[q] == ready[q]);
        assert(ready[q] == cp[perm[q]]);
    }
    assert forall|q1: int, q2: int| 0 <= q1 < q2 < s.candidates.len() implies s.effective_priorities@[#[trigger] s.candidates@[q1] as int]
        >= s.effective_priorities@[#[trigger] s.candidates@[q2] as int] by {
        let keys = candidate_keys(facts, eff, cp);
        assert(index_before(keys, perm[q1], perm[q2]));
        let i1 = cp[perm[q1]];
        let i2 = cp[perm[q2]];
        assert(s.candidates@[q1] == i1);
        assert(s.candidates@[q2] == i2);
        let k1 = keys[perm[q1]];
        let k2 = keys[perm[q2]];
        assert(k1 == candidate_key(facts[i1 as int], eff[i1 as int]));
        assert(k2 == candidate_key(facts[i2 as int], eff[i2 as int]));
        assert(k1[0] == (-(eff[i1 as int] as int)) as i128);
        assert(k2[0] == (-(eff[i2 as int] as int)) as i128);
        assert(k1.len() > 0 && k2.len() > 0);
        assert(k1[0] <= k2[0]);
    }
}

} // verus!
