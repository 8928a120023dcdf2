//! Fuzzy matching and the scoring and ranking of search results.
use vstd::prelude::*;
use crate::graph::{adjacency, edge, is_reach_max, lemma_reaches_rel, propagate_max, reaches, reaches_rel, well_formed};
use crate::order::{lex_lt, push_str_key, sort_by_keys, sorted_permutation, permuted, str_key, str_lt};
use crate::query::WorkspaceQueryError;
use crate::refs::TaskRef;
use crate::text::{
    chars_of, is_white_space, is_whitespace, lowercase_all, lowercase_each, lowercase_str,
    str_eq, str_lowercase,
};
use crate::workflow::{SearchRecordKind, TaskWaitReason, TaskWorkflowState};

verus! {

// ---------------------------------------------------------------------------
// Subsequence matching.

/// Whether `q` occurs in `c` as a subsequence, matching greedily from the
/// front.
pub open spec fn subsequence(q: Seq<char>, c: Seq<char>) -> bool
    decreases c.len(),
{
    if q.len() == 0 {
        true
    } else if c.len() == 0 {
        false
    } else if q[0] == c[0] {
        subsequence(q.skip(1), c.skip(1))
    } else {
        subsequence(q, c.skip(1))
    }
}

/// What `fuzzy_match` decides: an empty query matches everything, otherwise
/// the lowercased query must be a nonempty subsequence of the lowercased
/// candidate.
pub open spec fn fuzzy_match_spec(candidate: Seq<char>, query: Seq<char>) -> bool {
    if query.len() == 0 {
        true
    } else {
        lowercase_all(query).len() > 0 && subsequence(lowercase_all(query), lowercase_all(candidate))
    }
}

/// Whether the characters of `query` appear in `candidate` in order,
/// ignoring case.
pub fn fuzzy_match(candidate: &str, query: &str) -> (matched: bool)
    ensures
        matched == fuzzy_match_spec(candidate@, query@),
{
    let q0 = chars_of(query);
    if q0.len() == 0 {
        return true;
    }
    let q = lowercase_each(&q0);
    let c0 = chars_of(candidate);
    let c = lowercase_each(&c0);
    if q.len() == 0 {
        return false;
    }
    let mut j: usize = 0;
    let mut i: usize = 0;
    assert(q@.skip(0) == q@);
    assert(c@.skip(0) == c@);
    while i < c.len()
        invariant
            j < q.len(),
            i <= c.len(),
            q@ == lowercase_all(query@),
            c@ == lowercase_all(candidate@),
            query@.len() > 0,
            subsequence(q@, c@) == subsequence(q@.skip(j as int), c@.skip(i as int)),
        decreases c.len() - i,
    {
        let ghost qs = q@.skip(j as int);
        let ghost cs = c@.skip(i as int);
        assert(qs[0] == q@[j as int]);
        assert(cs[0] == c@[i as int]);
        assert(cs.skip(1) == c@.skip(i + 1));
        if q[j] == c[i] {
            assert(qs.skip(1) == q@.skip(j + 1));
            j = j + 1;
            if j == q.len() {
                assert(q@.skip(j as int).len() == 0);
                assert(subsequence(q@.skip(j as int), c@.skip(i + 1)));
                return true;
            }
        }
        i = i + 1;
    }
    assert(c@.skip(i as int).len() == 0);
    assert(q@.skip(j as int).len() > 0);
    false
}

// ---------------------------------------------------------------------------
// Fuzzy scores.

/// The first position at or after `pos` where `c` holds `w`.
pub open spec fn first_from(c: Seq<char>, w: char, pos: int) -> Option<int>
    decreases c.len() - pos,
{
    if pos < 0 || pos >= c.len() {
        None
    } else if c[pos] == w {
        Some(pos)
    } else {
        first_from(c, w, pos + 1)
    }
}

/// Ten points for a match at the start or right after whitespace, `/`, `-`
/// or `_`.
pub open spec fn boundary_bonus(c: Seq<char>, found: int) -> int {
    if found == 0 || is_white_space(c[found - 1]) || c[found - 1] == '/' || c[found - 1] == '-'
        || c[found - 1] == '_' {
        10
    } else {
        0
    }
}

/// After matching the characters of `q` in `c` one by one: the position to
/// search from next, where the last one was found, and the score so far.
/// Each character scores 20 less the distance skipped (at least 0), 15 more
/// when it directly follows the previous match, and the boundary bonus.
pub open spec fn fuzzy_steps(c: Seq<char>, q: Seq<char>) -> Option<(int, Option<int>, int)>
    decreases q.len(),
{
    if q.len() == 0 {
        Some((0, None, 0))
    } else {
        match fuzzy_steps(c, q.drop_last()) {
            None => None,
            Some((pos, prev, score)) => match first_from(c, q.last(), pos) {
                None => None,
                Some(found) => {
                    let skipped = found - pos;
                    let capped: int = if skipped < 20 {
                        skipped
                    } else {
                        20
                    };
                    let adjacent: int = if prev == Some(found - 1) {
                        15
                    } else {
                        0
                    };
                    let step = 20 - capped + adjacent + boundary_bonus(c, found);
                    Some((found + 1, Some(found), score + step))
                },
            },
        }
    }
}

/// The fuzzy score of an already lowercased candidate and query: `None`
/// when the query is not a subsequence, 0 for an empty query, otherwise the
/// step scores plus 1000 for an exact match or 500 for a prefix.
pub open spec fn fuzzy_total(c: Seq<char>, q: Seq<char>) -> Option<int> {
    if q.len() == 0 {
        Some(0)
    } else {
        match fuzzy_steps(c, q) {
            None => None,
            Some((_, _, score)) => Some(
                score + if c == q {
                    1000int
                } else if q.len() <= c.len() && c.take(q.len() as int) == q {
                    500int
                } else {
                    0int
                },
            ),
        }
    }
}

/// The score as the 64-bit integer that is returned.
pub open spec fn fuzzy_score_spec(candidate: Seq<char>, query: Seq<char>) -> Option<i64> {
    match fuzzy_total(str_lowercase(candidate), str_lowercase(query)) {
        Some(t) => Some(t as i64),
        None => None,
    }
}

proof fn lemma_steps_bounds(c: Seq<char>, q: Seq<char>)
    ensures
        fuzzy_steps(c, q) matches Some((pos, prev, score)) ==> 0 <= pos <= c.len() && 0 <= score <= 45
            * q.len() && (prev matches Some(p) ==> p == pos - 1),
    decreases q.len(),
{
    if q.len() > 0 {
        lemma_steps_bounds(c, q.drop_last());
        if let Some((pos, prev, score)) = fuzzy_steps(c, q.drop_last()) {
            lemma_first_from(c, q.last(), pos);
        }
    }
}

proof fn lemma_first_from(c: Seq<char>, w: char, pos: int)
    ensures
        first_from(c, w, pos) matches Some(f) ==> pos <= f < c.len() && 0 <= pos && c[f] == w,
        first_from(c, w, pos) is None ==> forall|k: int| 0 <= pos <= k < c.len() ==> c[k] != w,
        first_from(c, w, pos) matches Some(f) ==> forall|k: int| pos <= k < f ==> c[k] != w,
    decreases c.len() - pos,
{
    if 0 <= pos < c.len() && c[pos] != w {
        lemma_first_from(c, w, pos + 1);
    }
}

/// The first position at or after `pos` holding `w`.
fn find_from(c: &Vec<char>, w: char, pos: usize) -> (found: Option<usize>)
    requires
        pos <= c.len(),
    ensures
        match first_from(c@, w, pos as int) {
            Some(f) => found == Some(f as usize),
            None => found is None,
        },
{
    let mut k: usize = pos;
    while k < c.len()
        invariant
            pos <= k <= c.len(),
            first_from(c@, w, pos as int) == first_from(c@, w, k as int),
        decreases c.len() - k,
    {
        if c[k] == w {
            return Some(k);
        }
        k = k + 1;
    }
    None
}

fn is_prefix(q: &Vec<char>, c: &Vec<char>) -> (b: bool)
    ensures
        b == (q.len() <= c.len() && c@.take(q.len() as int) == q@),
{
    if q.len() > c.len() {
        return false;
    }
    let mut i: usize = 0;
    while i < q.len()
        invariant
            i <= q.len() <= c.len(),
            forall|k: int| 0 <= k < i ==> c@[k] == q@[k],
        decreases q.len() - i,
    {
        if q[i] != c[i] {
            assert(c@.take(q.len() as int)[i as int] != q@[i as int]);
            return false;
        }
        i = i + 1;
    }
    assert(c@.take(q.len() as int) =~= q@);
    true
}

/// Scores how well `query` matches `candidate` (both lowercased with
/// `str::to_lowercase`), see `fuzzy_total`.  The sum is kept in 128 bits
/// and returned as `i64`; it fits whenever the query is shorter than about
/// 2·10^17 characters.
pub fn fuzzy_score(candidate: &str, query: &str) -> (score: Option<i64>)
    ensures
        score == fuzzy_score_spec(candidate@, query@),
        fuzzy_total(str_lowercase(candidate@), str_lowercase(query@)) matches Some(t) ==> (t <= i64::MAX
            ==> score == Some(t as i64) && score->0 == t),
{
    let lc = lowercase_str(candidate);
    let lq = lowercase_str(query);
    let c = chars_of(lc.as_str());
    let q = chars_of(lq.as_str());
    if q.len() == 0 {
        return Some(0);
    }
    let mut position: usize = 0;
    let mut previous: Option<usize> = None;
    let mut score: i128 = 0;
    let mut j: usize = 0;
    assert(q@.take(0) == Seq::<char>::empty());
    while j < q.len()
        invariant
            j <= q.len(),
            position <= c.len(),
            c@ == str_lowercase(candidate@),
            q@ == str_lowercase(query@),
            q.len() > 0,
            0 <= score <= 45 * j,
            q.len() <= usize::MAX,
            fuzzy_steps(c@, q@.take(j as int)) == Some(
                (
                    position as int,
                    match previous {
                        Some(p) => Some(p as int),
                        None => None,
                    },
                    score as int,
                ),
            ),
        decreases q.len() - j,
    {
        let wanted = q[j];
        proof {
            assert(q@.take(j + 1).drop_last() == q@.take(j as int));
            assert(q@.take(j + 1).last() == wanted);
        }
        let found = match find_from(&c, wanted, position) {
            Some(found) => found,
            None => {
                proof {
                    assert(fuzzy_steps(c@, q@.take(j + 1)) is None);
                    lemma_steps_prefix_none(c@, q@, j + 1);
                    assert(q@.take(q.len() as int) == q@);
                }
                return None;
            },
        };
        proof {
            lemma_first_from(c@, wanted, position as int);
        }
        let skipped = found - position;
        let capped: i128 = if skipped < 20 {
            skipped as i128
        } else {
            20
        };
        let adjacent: i128 = match previous {
            Some(p) => {
                if p + 1 == found {
                    15
                } else {
                    0
                }
            },
            None => 0,
        };
        let boundary: i128 = if found == 0 {
            10
        } else {
            let before = c[found - 1];
            if is_whitespace(before) || before == '/' || before == '-' || before == '_' {
                10
            } else {
                0
            }
        };
        proof {
            let prev_spec = match previous {
                Some(p) => Some(p as int),
                None => None::<int>,
            };
            assert(adjacent == (if prev_spec == Some(found - 1) {
                15int
            } else {
                0int
            }));
            assert(boundary == boundary_bonus(c@, found as int));
        }
        score = score + 20 - capped + adjacent + boundary;
        previous = Some(found);
        position = found + 1;
        j = j + 1;
    }
    proof {
        assert(q@.take(q.len() as int) == q@);
    }
    if crate::text::chars_equal(&c, &q) {
        score = score + 1000;
    } else if is_prefix(&q, &c) {
        score = score + 500;
    }
    proof {
        lemma_steps_bounds(c@, q@);
        if score <= i64::MAX {
            assert((score as i64) == score) by (bit_vector)
                requires
                    0 <= score <= i64::MAX,
            ;
        }
    }
    Some(score as i64)
}

proof fn lemma_steps_prefix_none(c: Seq<char>, q: Seq<char>, k: int)
    requires
        0 <= k <= q.len(),
        fuzzy_steps(c, q.take(k)) is None,
    ensures
        fuzzy_steps(c, q) is None,
    decreases q.len() - k,
{
    if k < q.len() {
        assert(q.take(k + 1).drop_last() == q.take(k));
        lemma_steps_prefix_none(c, q, k + 1);
    } else {
        assert(q.take(k) == q);
    }
}

/// The better of two optional scores.
pub open spec fn max_score(a: Option<i64>, b: Option<i64>) -> Option<i64> {
    match (a, b) {
        (Some(x), Some(y)) => Some(if x >= y {
            x
        } else {
            y
        }),
        (Some(x), None) => Some(x),
        (None, y) => y,
    }
}

/// The best fuzzy score of `query` over the fields, `None` when it matches
/// none of them.
pub open spec fn best_field_score(query: Seq<char>, fields: Seq<Seq<char>>) -> Option<i64>
    decreases fields.len(),
{
    if fields.len() == 0 {
        None
    } else {
        max_score(best_field_score(query, fields.drop_last()), fuzzy_score_spec(fields.last(), query))
    }
}

/// An empty query scores 0; otherwise the best score over the fields.
pub open spec fn search_score_spec(query: Seq<char>, fields: Seq<Seq<char>>) -> Option<i64> {
    if query.len() == 0 {
        Some(0)
    } else {
        best_field_score(query, fields)
    }
}

pub open spec fn field_views(fields: Seq<String>) -> Seq<Seq<char>> {
    fields.map_values(|s: String| s@)
}

/// The score of a record whose searchable fields are `fields`.
pub fn search_score(query: &str, fields: &Vec<String>) -> (score: Option<i64>)
    ensures
        score == search_score_spec(query@, field_views(fields@)),
{
    let query_chars = chars_of(query);
    if query_chars.len() == 0 {
        return Some(0);
    }
    let mut best: Option<i64> = None;
    let mut i: usize = 0;
    while i < fields.len()
        invariant
            i <= fields.len(),
            query@.len() > 0,
            best == best_field_score(query@, field_views(fields@).take(i as int)),
        decreases fields.len() - i,
    {
        let s = fuzzy_score(fields[i].as_str(), query);
        proof {
            assert(field_views(fields@).take(i + 1).drop_last() == field_views(fields@).take(i as int));
            assert(field_views(fields@).take(i + 1).last() == fields@[i as int]@);
        }
        best = match (best, s) {
            (Some(x), Some(y)) => Some(if x >= y {
                x
            } else {
                y
            }),
            (Some(x), None) => Some(x),
            (None, y) => y,
        };
        i = i + 1;
    }
    assert(field_views(fields@).take(fields.len() as int) == field_views(fields@));
    best
}

// ---------------------------------------------------------------------------
// Search records and their ranking.

/// One note, task or event that a search found.
#[derive(Debug, PartialEq, Eq)]
pub struct SearchRecord {
    pub kind: SearchRecordKind,
    pub title: String,
    pub path: String,
    pub relative_path: String,
    pub range: std::ops::Range<usize>,
    pub revision: i64,
    pub id: Option<String>,
    pub task_state: Option<TaskWorkflowState>,
    pub wait_reasons: Option<Vec<TaskWaitReason>>,
    pub due: Option<String>,
    pub priority: Option<i32>,
    pub effective_priority: Option<i32>,
    pub blocked: Option<bool>,
    pub actionable: Option<bool>,
    pub depth: Option<usize>,
    pub at: Option<String>,
    pub start: Option<String>,
    pub end: Option<String>,
    pub tasks: Option<Vec<String>>,
}

/// The records a search returns, and whether none was cut off by the limit.
#[derive(Debug, PartialEq, Eq)]
pub struct SearchResults {
    pub items: Vec<SearchRecord>,
    pub complete: bool,
}

/// Why a search failed: its filter was refused, or the query failed.
#[derive(Debug, PartialEq, Eq)]
pub enum WorkspaceSearchError {
    Filter(String),
    Query(WorkspaceQueryError),
}

impl WorkspaceSearchError {
    /// The error as text: the filter's message, or the query error's text.
    pub fn message(&self) -> (text: String)
        ensures
            text@ == match *self {
                WorkspaceSearchError::Filter(m) => m@,
                WorkspaceSearchError::Query(e) => crate::query::query_error_text(e),
            },
    {
        match self {
            WorkspaceSearchError::Filter(m) => m.clone(),
            WorkspaceSearchError::Query(e) => e.message(),
        }
    }
}

/// Notes rank before tasks, tasks before events.
pub open spec fn kind_rank(kind: SearchRecordKind) -> u8 {
    match kind {
        SearchRecordKind::Note => 0,
        SearchRecordKind::Task => 1,
        SearchRecordKind::Event => 2,
    }
}

/// The rank of a record kind among results with equal score and position.
pub fn search_kind_order(kind: SearchRecordKind) -> (rank: u8)
    ensures
        rank == kind_rank(kind),
{
    match kind {
        SearchRecordKind::Note => 0,
        SearchRecordKind::Task => 1,
        SearchRecordKind::Event => 2,
    }
}

pub open spec fn is_task(r: SearchRecord) -> bool {
    r.kind == SearchRecordKind::Task
}

/// The depth of a record in its document's outline (0 when unknown).
pub open spec fn depth_of(r: SearchRecord) -> int {
    match r.depth {
        Some(d) => d as int,
        None => 0,
    }
}

/// A task's own priority (0 when it has none).
pub open spec fn base_priority(r: SearchRecord) -> i32 {
    match r.priority {
        Some(p) => p,
        None => 0,
    }
}

/// Record `j` comes before record `i` in the same document: by start
/// offset, then by position in the results.
pub open spec fn doc_before(rs: Seq<SearchRecord>, j: int, i: int) -> bool {
    rs[j].path@ == rs[i].path@ && (rs[j].range.start < rs[i].range.start || (rs[j].range.start
        == rs[i].range.start && j < i))
}

/// Task `j` is the outline parent of task `i`: the last task before it in
/// the same document that is less deep.
pub open spec fn parent_task(rs: Seq<SearchRecord>, i: int, j: int) -> bool {
    &&& 0 <= j < rs.len()
    &&& is_task(rs[j])
    &&& doc_before(rs, j, i)
    &&& depth_of(rs[j]) < depth_of(rs[i])
    &&& forall|k: int|
        0 <= k < rs.len() && is_task(#[trigger] rs[k]) && doc_before(rs, j, k) && doc_before(rs, k, i)
            ==> depth_of(rs[k]) >= depth_of(rs[i])
}

/// Task `t` carries the id and path that `r` names.
pub open spec fn names_task(rs: Seq<SearchRecord>, r: TaskRef, t: int) -> bool {
    &&& 0 <= t < rs.len()
    &&& is_task(rs[t])
    &&& rs[t].path@ == r.path@
    &&& r.id matches Some(id) && rs[t].id matches Some(tid) && tid@ == id@
}

/// Task `t` is the one that `r` resolves to: the last named task in
/// document order.
pub open spec fn ref_target(rs: Seq<SearchRecord>, r: TaskRef, t: int) -> bool {
    names_task(rs, r, t) && forall|k: int| #[trigger] names_task(rs, r, k) ==> !doc_before(rs, t, k)
}

/// Priority flows from task `u` to task `v`: `v` is `u`'s outline parent or
/// an open dependency of `u` (as listed in `deps[u]`).
pub open spec fn priority_edge(rs: Seq<SearchRecord>, deps: Seq<Vec<TaskRef>>, u: int, v: int) -> bool {
    &&& 0 <= u < rs.len()
    &&& is_task(rs[u])
    &&& (parent_task(rs, u, v) || exists|k: int| 0 <= k < deps[u].len() && ref_target(rs, #[trigger] deps[u]@[k], v))
}

/// Everything the graph of `adj` joins is a priority edge, and back.
pub open spec fn is_priority_graph(rs: Seq<SearchRecord>, deps: Seq<Vec<TaskRef>>, g: Seq<Seq<usize>>) -> bool {
    g.len() == rs.len() && well_formed(g) && forall|u: int, v: int| #[trigger] edge(g, u, v) == priority_edge(rs, deps, u, v)
}

fn same_path(a: &SearchRecord, b: &SearchRecord) -> (same: bool)
    ensures
        same == (a.path@ == b.path@),
{
    str_eq(a.path.as_str(), b.path.as_str())
}

fn doc_before_exec(rs: &Vec<SearchRecord>, j: usize, i: usize) -> (before: bool)
    requires
        j < rs.len(),
        i < rs.len(),
    ensures
        before == doc_before(rs@, j as int, i as int),
{
    same_path(&rs[j], &rs[i]) && (rs[j].range.start < rs[i].range.start || (rs[j].range.start
        == rs[i].range.start && j < i))
}

fn record_depth(r: &SearchRecord) -> (d: usize)
    ensures
        d as int == depth_of(*r),
{
    match r.depth {
        Some(d) => d,
        None => 0,
    }
}

fn is_task_exec(r: &SearchRecord) -> (b: bool)
    ensures
        b == is_task(*r),
{
    match r.kind {
        SearchRecordKind::Task => true,
        _ => false,
    }
}

/// The outline parent of task `i`, if it has one.
fn find_parent(rs: &Vec<SearchRecord>, i: usize) -> (parent: Option<usize>)
    requires
        i < rs.len(),
    ensures
        parent matches Some(j) ==> parent_task(rs@, i as int, j as int),
        parent is None ==> forall|j: int| !parent_task(rs@, i as int, j),
{
    let di = record_depth(&rs[i]);
    let mut best: Option<usize> = None;
    let mut j: usize = 0;
    while j < rs.len()
        invariant
            i < rs.len(),
            j <= rs.len(),
            di == depth_of(rs@[i as int]),
            best matches Some(b) ==> b < j && is_task(rs@[b as int]) && doc_before(rs@, b as int, i as int)
                && depth_of(rs@[b as int]) < di,
            forall|k: int|
                0 <= k < j && is_task(#[trigger] rs@[k]) && doc_before(rs@, k, i as int) && depth_of(rs@[k]) < di
                    ==> (best matches Some(b) && (k == b || doc_before(rs@, k, b as int))),
        decreases rs.len() - j,
    {
        if is_task_exec(&rs[j]) && doc_before_exec(rs, j, i) && record_depth(&rs[j]) < di {
            let replace = match best {
                None => true,
                Some(b) => doc_before_exec(rs, b, j),
            };
            if replace {
                best = Some(j);
            }
        }
        j = j + 1;
    }
    best
}

/// The task that a dependency reference resolves to among the records.
fn find_ref_target(rs: &Vec<SearchRecord>, r: &TaskRef) -> (target: Option<usize>)
    ensures
        target matches Some(t) ==> ref_target(rs@, *r, t as int),
        target is None ==> forall|t: int| !ref_target(rs@, *r, t),
{
    let id = match &r.id {
        Some(id) => id,
        None => {
            return None;
        },
    };
    let mut best: Option<usize> = None;
    let mut j: usize = 0;
    while j < rs.len()
        invariant
            j <= rs.len(),
            r.id == Some(*id),
            best matches Some(b) ==> b < j && names_task(rs@, *r, b as int),
            forall|k: int| 0 <= k < j && #[trigger] names_task(rs@, *r, k) ==> (best matches Some(b) && (k == b || doc_before(rs@, k, b as int))),
        decreases rs.len() - j,
    {
        let named = is_task_exec(&rs[j]) && str_eq(rs[j].path.as_str(), r.path.as_str()) && match &rs[j].id {
            Some(tid) => str_eq(tid.as_str(), id.as_str()),
            None => false,
        };
        assert(named == names_task(rs@, *r, j as int));
        if named {
            let replace = match best {
                None => true,
                Some(b) => doc_before_exec(rs, b, j),
            };
            if replace {
                best = Some(j);
            }
        }
        j = j + 1;
    }
    best
}

proof fn lemma_parent_unique(rs: Seq<SearchRecord>, i: int, a: int, b: int)
    requires
        parent_task(rs, i, a),
        parent_task(rs, i, b),
    ensures
        a == b,
{
    if a != b {
        if doc_before(rs, a, b) {
            assert(is_task(rs[b]));
        } else {
            assert(doc_before(rs, b, a));
            assert(is_task(rs[a]));
        }
    }
}

proof fn lemma_ref_target_unique(rs: Seq<SearchRecord>, r: TaskRef, a: int, b: int)
    requires
        ref_target(rs, r, a),
        ref_target(rs, r, b),
    ensures
        a == b,
{
    assert(names_task(rs, r, a) && names_task(rs, r, b));
}

/// The priority graph of the records: for each task, its outline parent and
/// the tasks its open dependencies resolve to.
fn priority_graph(rs: &Vec<SearchRecord>, deps: &Vec<Vec<TaskRef>>) -> (adj: Vec<Vec<usize>>)
    requires
        deps.len() == rs.len(),
    ensures
        is_priority_graph(rs@, deps@, adjacency(adj@)),
{
    let mut adj: Vec<Vec<usize>> = Vec::new();
    let mut u: usize = 0;
    while u < rs.len()
        invariant
            u <= rs.len(),
            deps.len() == rs.len(),
            adj.len() == u,
            forall|a: int, k: int| 0 <= a < u && 0 <= k < adj@[a]@.len() ==> (#[trigger] adj@[a]@[k] as int) < rs.len(),
            forall|a: int, v: int| 0 <= a < u ==> (#[trigger] edge(adjacency(adj@), a, v) == priority_edge(rs@, deps@, a, v)),
        decreases rs.len() - u,
    {
        let mut succ: Vec<usize> = Vec::new();
        if is_task_exec(&rs[u]) {
            match find_parent(rs, u) {
                Some(p) => succ.push(p),
                None => {},
            }
            let ghost head = succ@;
            let mut k: usize = 0;
            while k < deps[u].len()
                invariant
                    u < rs.len(),
                    deps.len() == rs.len(),
                    k <= deps@[u as int].len(),
                    head.len() <= 1,
                    forall|x: int| 0 <= x < head.len() ==> parent_task(rs@, u as int, #[trigger] head[x] as int),
                    succ@.len() >= head.len(),
                    succ@.take(head.len() as int) == head,
                    forall|x: int| #![trigger succ@[x]] head.len() <= x < succ@.len() ==> exists|m: int| 0 <= m < k && ref_target(rs@, #[trigger] deps@[u as int]@[m], succ@[x] as int),
                    forall|m: int, t: int| 0 <= m < k && #[trigger] ref_target(rs@, deps@[u as int]@[m], t) ==> succ@.contains(t as usize),
                    forall|x: int| 0 <= x < succ@.len() ==> (#[trigger] succ@[x] as int) < rs.len(),
                decreases deps@[u as int].len() - k,
            {
                match find_ref_target(rs, &deps[u][k]) {
                    Some(t) => {
                        let ghost before = succ@;
                        succ.push(t);
                        proof {
                            assert(succ@.take(head.len() as int) == before.take(head.len() as int));
                            assert(succ@[succ@.len() - 1] == t);
                            assert forall|x: int| #![trigger succ@[x]] head.len() <= x < succ@.len() implies exists|m: int| 0 <= m < k + 1 && ref_target(rs@, #[trigger] deps@[u as int]@[m], succ@[x] as int) by {
                                if x < before.len() {
                                    assert(succ@[x] == before[x]);
                                    let m = choose|m: int| 0 <= m < k && ref_target(rs@, #[trigger] deps@[u as int]@[m], before[x] as int);
                                } else {
                                    assert(ref_target(rs@, deps@[u as int]@[k as int], t as int));
                                }
                            }
                            assert forall|m: int, t2: int| 0 <= m < k + 1 && #[trigger] ref_target(rs@, deps@[u as int]@[m], t2) implies succ@.contains(t2 as usize) by {
                                if m < k {
                                    assert(before.contains(t2 as usize));
                                    let x = choose|x: int| 0 <= x < before.len() && before[x] == t2 as usize;
                                    assert(succ@[x] == t2 as usize);
                                } else {
                                    lemma_ref_target_unique(rs@, deps@[u as int]@[m], t2, t as int);
                                    assert(succ@[succ@.len() - 1] == t);
                                }
                            }
                        }
                    },
                    None => {},
                }
                k = k + 1;
            }
            proof {
                assert forall|v: int| #[trigger] edge(adjacency(adj@.push(succ)), u as int, v) == priority_edge(rs@, deps@, u as int, v) by {
                    let g = adjacency(adj@.push(succ));
                    assert(g[u as int] == succ@);
                    if edge(g, u as int, v) {
                        let x = choose|x: int| 0 <= x < succ@.len() && #[trigger] succ@[x] as int == v;
                        if x < head.len() {
                            assert(succ@[x] == head[x]);
                        } else {
                            let m = choose|m: int| 0 <= m < deps@[u as int].len() && ref_target(rs@, #[trigger] deps@[u as int]@[m], succ@[x] as int);
                        }
                    }
                    if priority_edge(rs@, deps@, u as int, v) {
                        if parent_task(rs@, u as int, v) {
                            assert(head.len() == 1) by {
                                if head.len() == 0 {
                                }
                            }
                            lemma_parent_unique(rs@, u as int, v, head[0] as int);
                            assert(succ@[0] == head[0]);
                        } else {
                            let m = choose|m: int| 0 <= m < deps@[u as int].len() && ref_target(rs@, #[trigger] deps@[u as int]@[m], v);
                            assert(succ@.contains(v as usize));
                            let x = choose|x: int| 0 <= x < succ@.len() && succ@[x] == v as usize;
                            assert(succ@[x] as int == v);
                        }
                    }
                }
            }
        } else {
            proof {
                assert forall|v: int| #[trigger] edge(adjacency(adj@.push(succ)), u as int, v) == priority_edge(rs@, deps@, u as int, v) by {
                    assert(adjacency(adj@.push(succ))[u as int] == succ@);
                }
            }
        }
        let ghost old_adj = adj@;
        adj.push(succ);
        proof {
            assert forall|a: int, v: int| 0 <= a < u + 1 implies (#[trigger] edge(adjacency(adj@), a, v) == priority_edge(rs@, deps@, a, v)) by {
                if a < u {
                    assert(adjacency(adj@)[a] == adjacency(old_adj)[a]);
                    assert(edge(adjacency(adj@), a, v) == edge(adjacency(old_adj), a, v));
                }
            }
        }
        u = u + 1;
    }
    proof {
        let g = adjacency(adj@);
        assert forall|a: int, k: int| 0 <= a < g.len() && 0 <= k < g[a].len() implies (#[trigger] g[a][k] as int) < g.len() by {
            assert(g[a] == adj@[a]@);
        }
        assert forall|a: int, v: int| #[trigger] edge(g, a, v) == priority_edge(rs@, deps@, a, v) by {
            if !(0 <= a < rs.len()) {
            }
        }
    }
    adj
}

/// Priority flows along outline-parent and open-dependency edges.
pub open spec fn priority_flow(rs: Seq<SearchRecord>, deps: Seq<Vec<TaskRef>>) -> spec_fn(int, int) -> bool {
    |u: int, v: int| priority_edge(rs, deps, u, v)
}

/// `e` is the effective priority of task `i`: the greatest own priority of
/// any task from which priority flows to `i` (`i` itself included).
pub open spec fn is_effective_priority(rs: Seq<SearchRecord>, deps: Seq<Vec<TaskRef>>, i: int, e: i32) -> bool {
    &&& exists|u: int| 0 <= u < rs.len() && #[trigger] reaches_rel(priority_flow(rs, deps), u, i) && base_priority(rs[u]) == e
    &&& forall|u: int| 0 <= u < rs.len() && #[trigger] reaches_rel(priority_flow(rs, deps), u, i) ==> base_priority(rs[u]) <= e
}

/// The effective priority of task `i` (see `is_effective_priority`).
pub open spec fn effective_priority_of(rs: Seq<SearchRecord>, deps: Seq<Vec<TaskRef>>, i: int) -> i32 {
    choose|e: i32| is_effective_priority(rs, deps, i, e)
}

fn base_priority_exec(r: &SearchRecord) -> (p: i32)
    ensures
        p == base_priority(*r),
{
    match r.priority {
        Some(p) => p,
        None => 0,
    }
}

/// The effective priority of every record (meaningful for tasks).
fn effective_priorities(rs: &Vec<SearchRecord>, deps: &Vec<Vec<TaskRef>>) -> (eff: Vec<i32>)
    requires
        deps.len() == rs.len(),
    ensures
        eff.len() == rs.len(),
        forall|i: int| 0 <= i < rs.len() ==> is_effective_priority(rs@, deps@, i, #[trigger] eff@[i]),
{
    let adj = priority_graph(rs, deps);
    let mut base: Vec<i32> = Vec::new();
    let mut i: usize = 0;
    while i < rs.len()
        invariant
            i <= rs.len(),
            base.len() == i,
            forall|k: int| 0 <= k < i ==> #[trigger] base@[k] == base_priority(rs@[k]),
        decreases rs.len() - i,
    {
        base.push(base_priority_exec(&rs[i]));
        i = i + 1;
    }
    let eff = propagate_max(&adj, &base);
    proof {
        let g = adjacency(adj@);
        let flow = priority_flow(rs@, deps@);
        assert forall|a: int, b: int| #[trigger] edge(g, a, b) == flow(a, b) by {
            assert(edge(g, a, b) == priority_edge(rs@, deps@, a, b));
        }
        assert forall|i: int| 0 <= i < rs.len() implies is_effective_priority(rs@, deps@, i, #[trigger] eff@[i]) by {
            assert forall|w: int| #![trigger reaches_rel(flow, w, i)] #![trigger reaches(g, w, i)] true implies reaches(g, w, i) == reaches_rel(flow, w, i) by {
                lemma_reaches_rel(g, flow, w, i);
            }
            assert(is_reach_max(g, base@, i, eff@[i]));
            let u = choose|u: int| 0 <= u < base.len() && #[trigger] reaches(g, u, i) && base@[u] == eff@[i];
            assert(reaches_rel(flow, u, i));
            assert forall|w: int| 0 <= w < rs.len() && #[trigger] reaches_rel(flow, w, i) implies base_priority(rs@[w]) <= eff@[i] by {
                assert(reaches(g, w, i));
                assert(base@[w] == base_priority(rs@[w]));
            }
        }
    }
    eff
}

/// The sort key of a scored record: score descending, then relative path,
/// start offset and kind.
pub open spec fn search_key(score: i64, r: SearchRecord) -> Seq<i128> {
    seq![(-(score as int)) as i128] + str_key(r.relative_path@) + seq![r.range.start as i128, kind_rank(r.kind) as i128]
}

/// Scored result `a` ranks before `b`: higher score, then smaller relative
/// path, smaller start offset, then notes, tasks, events.
pub open spec fn ranks_before(a_score: i64, a: SearchRecord, b_score: i64, b: SearchRecord) -> bool {
    ||| a_score > b_score
    ||| a_score == b_score && str_lt(a.relative_path@, b.relative_path@)
    ||| a_score == b_score && a.relative_path@ == b.relative_path@ && a.range.start < b.range.start
    ||| a_score == b_score && a.relative_path@ == b.relative_path@ && a.range.start == b.range.start
        && kind_rank(a.kind) < kind_rank(b.kind)
}

/// Comparing sort keys is comparing results by rank.
pub proof fn lemma_search_key_order(a_score: i64, a: SearchRecord, b_score: i64, b: SearchRecord)
    ensures
        lex_lt(search_key(a_score, a), search_key(b_score, b)) == ranks_before(a_score, a, b_score, b),
{
    let ka = search_key(a_score, a);
    let kb = search_key(b_score, b);
    let ta = seq![a.range.start as i128, kind_rank(a.kind) as i128];
    let tb = seq![b.range.start as i128, kind_rank(b.kind) as i128];
    assert(ka.skip(1) == str_key(a.relative_path@) + ta);
    assert(kb.skip(1) == str_key(b.relative_path@) + tb);
    assert(ka[0] as int == -(a_score as int));
    assert(kb[0] as int == -(b_score as int));
    crate::order::lemma_str_key_order(a.relative_path@, b.relative_path@, ta, tb);
    assert(ta[0] as int == a.range.start as int);
    assert(tb[0] as int == b.range.start as int);
    assert(ta.skip(1) == seq![kind_rank(a.kind) as i128]);
    assert(tb.skip(1) == seq![kind_rank(b.kind) as i128]);
    assert(ta.skip(1)[0] as int == kind_rank(a.kind) as int);
    assert(tb.skip(1)[0] as int == kind_rank(b.kind) as int);
    assert(ta.skip(1).skip(1).len() == 0);
    assert(tb.skip(1).skip(1).len() == 0);
    assert(!lex_lt(ta.skip(1).skip(1), tb.skip(1).skip(1)));
    assert(lex_lt(ta.skip(1), tb.skip(1)) == (kind_rank(a.kind) < kind_rank(b.kind)));
    assert(lex_lt(ta, tb) == (a.range.start < b.range.start || (a.range.start == b.range.start
        && kind_rank(a.kind) < kind_rank(b.kind))));
}

/// The record with its effective priority filled in (tasks only).
pub open spec fn with_effective(r: SearchRecord, rs: Seq<SearchRecord>, deps: Seq<Vec<TaskRef>>, i: int) -> SearchRecord {
    if is_task(r) {
        SearchRecord { effective_priority: Some(effective_priority_of(rs, deps, i)), ..r }
    } else {
        r
    }
}

pub open spec fn scored_records(matches: Seq<(i64, SearchRecord)>) -> Seq<SearchRecord> {
    matches.map_values(|m: (i64, SearchRecord)| m.1)
}

pub open spec fn search_keys(matches: Seq<(i64, SearchRecord)>) -> Seq<Seq<i128>> {
    matches.map_values(|m: (i64, SearchRecord)| search_key(m.0, m.1))
}

fn search_key_exec(score: i64, r: &SearchRecord) -> (key: Vec<i128>)
    ensures
        key@ == search_key(score, *r),
{
    let mut key: Vec<i128> = Vec::new();
    key.push(-(score as i128));
    let rel = chars_of(r.relative_path.as_str());
    push_str_key(&mut key, &rel);
    key.push(r.range.start as i128);
    key.push(search_kind_order(r.kind) as i128);
    proof {
        assert(key@ =~= search_key(score, *r));
    }
    key
}

/// Finishes a search: fills in the effective priority of each task (the
/// greatest priority that flows to it along outline parents and open
/// dependencies; `dependencies[i]` lists the open dependencies of record
/// `i`), ranks the results (see `ranks_before`, stable), and keeps the
/// first `limit`; `complete` says whether none was dropped.
pub fn finish_search(matches: Vec<(i64, SearchRecord)>, dependencies: &Vec<Vec<TaskRef>>, limit: usize) -> (results: SearchResults)
    requires
        dependencies.len() == matches.len(),
    ensures
        results.complete == (matches.len() <= limit),
        results.items.len() == (if matches.len() <= limit {
            matches.len()
        } else {
            limit
        }),
        exists|perm: Seq<int>|
            sorted_permutation(search_keys(matches@), perm) && forall|q: int|
                0 <= q < results.items.len() ==> #[trigger] results.items@[q] == with_effective(
                    scored_records(matches@)[perm[q]],
                    scored_records(matches@),
                    dependencies@,
                    perm[q],
                ),
{
    let ghost ms = matches@;
    let ghost rs0 = scored_records(ms);
    let n = matches.len();
    let mut matches = matches;
    let mut reversed: Vec<(i64, SearchRecord)> = Vec::new();
    while matches.len() > 0
        invariant
            matches.len() + reversed.len() == n,
            forall|k: int| 0 <= k < matches.len() ==> matches@[k] == ms[k],
            forall|k: int| 0 <= k < reversed.len() ==> reversed@[k] == ms[n - 1 - k],
        decreases matches.len(),
    {
        let m = matches.pop().unwrap();
        reversed.push(m);
    }
    let mut scores: Vec<i64> = Vec::new();
    let mut records: Vec<SearchRecord> = Vec::new();
    while reversed.len() > 0
        invariant
            reversed.len() + records.len() == n,
            scores.len() == records.len(),
            forall|k: int| 0 <= k < reversed.len() ==> reversed@[k] == ms[n - 1 - k],
            forall|k: int| 0 <= k < records.len() ==> records@[k] == ms[k].1 && scores@[k] == ms[k].0,
        decreases reversed.len(),
    {
        let (score, record) = reversed.pop().unwrap();
        scores.push(score);
        records.push(record);
    }
    proof {
        assert(records@ =~= rs0);
    }
    let eff = effective_priorities(&records, dependencies);
    let mut keys: Vec<Vec<i128>> = Vec::new();
    let mut k: usize = 0;
    while k < n
        invariant
            k <= n,
            records.len() == n,
            scores.len() == n,
            keys.len() == k,
            forall|j: int| 0 <= j < n ==> records@[j] == ms[j].1 && scores@[j] == ms[j].0,
            forall|j: int| 0 <= j < k ==> #[trigger] keys@[j]@ == search_key(ms[j].0, ms[j].1),
        decreases n - k,
    {
        let key = search_key_exec(scores[k], &records[k]);
        keys.push(key);
        k = k + 1;
    }
    let mut updated: Vec<SearchRecord> = Vec::new();
    let mut records = records;
    let mut back: Vec<SearchRecord> = Vec::new();
    while records.len() > 0
        invariant
            records.len() + back.len() == n,
            forall|j: int| 0 <= j < records.len() ==> records@[j] == rs0[j],
            forall|j: int| 0 <= j < back.len() ==> back@[j] == rs0[n - 1 - j],
        decreases records.len(),
    {
        let r = records.pop().unwrap();
        back.push(r);
    }
    let mut i: usize = 0;
    while back.len() > 0
        invariant
            i + back.len() == n,
            updated.len() == i,
            eff.len() == n,
            rs0.len() == n,
            forall|j: int| 0 <= j < back.len() ==> back@[j] == rs0[n - 1 - j],
            forall|j: int| 0 <= j < n ==> is_effective_priority(rs0, dependencies@, j, #[trigger] eff@[j]),
            forall|j: int| 0 <= j < i ==> #[trigger] updated@[j] == with_effective(rs0[j], rs0, dependencies@, j),
        decreases back.len(),
    {
        let mut r = back.pop().unwrap();
        if is_task_exec(&r) {
            proof {
                let e = eff@[i as int];
                assert(is_effective_priority(rs0, dependencies@, i as int, e));
                let c = effective_priority_of(rs0, dependencies@, i as int);
                assert(is_effective_priority(rs0, dependencies@, i as int, c));
                let u1 = choose|u: int| 0 <= u < rs0.len() && #[trigger] reaches_rel(priority_flow(rs0, dependencies@), u, i as int) && base_priority(rs0[u]) == e;
                let u2 = choose|u: int| 0 <= u < rs0.len() && #[trigger] reaches_rel(priority_flow(rs0, dependencies@), u, i as int) && base_priority(rs0[u]) == c;
                assert(e == c);
            }
            r.effective_priority = Some(eff[i]);
        }
        updated.push(r);
        i = i + 1;
    }
    proof {
        let ks = keys@.map_values(|k: Vec<i128>| k@);
        assert forall|j: int| 0 <= j < n implies #[trigger] ks[j] == search_keys(ms)[j] by {
            assert(keys@[j]@ == search_key(ms[j].0, ms[j].1));
        }
        assert(ks =~= search_keys(ms));
    }
    let ghost upd = updated@;
    let mut sorted = sort_by_keys(updated, &keys);
    let ghost full = sorted@;
    let complete = n <= limit;
    sorted.truncate(limit);
    proof {
        let ks = keys@.map_values(|k: Vec<i128>| k@);
        assert(ks == search_keys(ms));
        let perm = choose|perm: Seq<int>| sorted_permutation(ks, perm) && permuted(upd, full, perm);
        assert(sorted_permutation(search_keys(ms), perm));
        assert forall|q: int| 0 <= q < sorted.len() implies #[trigger] sorted@[q] == with_effective(rs0[perm[q]], rs0, dependencies@, perm[q]) by {
            assert(sorted@[q] == full[q]);
            assert(full[q] == upd[perm[q]]);
        }
    }
    SearchResults { items: sorted, complete }
}

proof fn lemma_subsequence_extend(q: Seq<char>, a: Seq<char>, b: Seq<char>)
    requires
        subsequence(q, a),
    ensures
        subsequence(q, a + b),
    decreases a.len(),
{
    if q.len() > 0 && a.len() > 0 {
        assert((a + b)[0] == a[0]);
        assert((a + b).skip(1) == a.skip(1) + b);
        if q[0] == a[0] {
            lemma_subsequence_extend(q.skip(1), a.skip(1), b);
        } else {
            lemma_subsequence_extend(q, a.skip(1), b);
        }
    }
}

proof fn lemma_subsequence_prefix(q: Seq<char>, c: Seq<char>, k: int, m: int)
    requires
        0 <= k <= m <= c.len(),
        subsequence(q, c.take(k)),
    ensures
        subsequence(q, c.take(m)),
{
    lemma_subsequence_extend(q, c.take(k), c.subrange(k, m));
    assert(c.take(k) + c.subrange(k, m) == c.take(m));
}

proof fn lemma_subsequence_push_intro(q: Seq<char>, w: char, c: Seq<char>, k: int)
    requires
        0 <= k < c.len(),
        c[k] == w,
        subsequence(q, c.take(k)),
    ensures
        subsequence(q.push(w), c),
    decreases c.len(),
{
    let qw = q.push(w);
    if q.len() == 0 {
        assert(qw[0] == w);
        if c[0] != w {
            assert(k > 0);
            assert(c.skip(1)[k - 1] == w);
            lemma_subsequence_push_intro(q, w, c.skip(1), k - 1);
        } else {
            assert(qw.skip(1).len() == 0);
            assert(subsequence(qw.skip(1), c.skip(1)));
        }
    } else {
        assert(c.take(k).len() > 0);
        assert(c.take(k)[0] == c[0]);
        assert(c.take(k).skip(1) == c.skip(1).take(k - 1));
        assert(qw[0] == q[0]);
        if q[0] == c[0] {
            assert(qw.skip(1) == q.skip(1).push(w));
            lemma_subsequence_push_intro(q.skip(1), w, c.skip(1), k - 1);
        } else {
            lemma_subsequence_push_intro(q, w, c.skip(1), k - 1);
        }
    }
}

proof fn lemma_subsequence_push_elim(q: Seq<char>, w: char, c: Seq<char>)
    requires
        subsequence(q.push(w), c),
    ensures
        exists|k: int| 0 <= k < c.len() && c[k] == w && subsequence(q, c.take(k)),
    decreases c.len(),
{
    let qw = q.push(w);
    assert(c.len() > 0);
    if qw[0] == c[0] {
        if q.len() == 0 {
            assert(c[0] == w && subsequence(q, c.take(0)));
        } else {
            assert(qw.skip(1) == q.skip(1).push(w));
            lemma_subsequence_push_elim(q.skip(1), w, c.skip(1));
            let k1 = choose|k: int| 0 <= k < c.skip(1).len() && c.skip(1)[k] == w && subsequence(q.skip(1), c.skip(1).take(k));
            assert(c.take(k1 + 1)[0] == c[0]);
            assert(c.take(k1 + 1).skip(1) == c.skip(1).take(k1));
            assert(c[k1 + 1] == w && subsequence(q, c.take(k1 + 1)));
        }
    } else {
        lemma_subsequence_push_elim(q, w, c.skip(1));
        let k1 = choose|k: int| 0 <= k < c.skip(1).len() && c.skip(1)[k] == w && subsequence(q, c.skip(1).take(k));
        if q.len() > 0 {
            assert(c.take(k1 + 1)[0] == c[0]);
            assert(c.take(k1 + 1).skip(1) == c.skip(1).take(k1));
        }
        assert(c[k1 + 1] == w && subsequence(q, c.take(k1 + 1)));
    }
}

/// Greedy matching reaches exactly the prefixes that hold the query in
/// order: it stops at a position `p` whose prefix holds the query, and
/// every prefix that holds the query is at least as long.
proof fn lemma_steps_subsequence(c: Seq<char>, q: Seq<char>)
    ensures
        fuzzy_steps(c, q) matches Some((p, _prev, _score)) ==> p <= c.len() && subsequence(q, c.take(p)),
        forall|m: int|
            0 <= m <= c.len() && #[trigger] subsequence(q, c.take(m)) ==> (fuzzy_steps(c, q) matches Some((p, _prev, _score))
                && p <= m),
    decreases q.len(),
{
    lemma_steps_bounds(c, q);
    if q.len() > 0 {
        let q0 = q.drop_last();
        let w = q.last();
        assert(q0.push(w) == q);
        lemma_steps_subsequence(c, q0);
        if let Some((pos, prev, score)) = fuzzy_steps(c, q0) {
            lemma_first_from(c, w, pos);
            if let Some(found) = first_from(c, w, pos) {
                lemma_subsequence_prefix(q0, c, pos, found);
                assert(c.take(found + 1).take(found) == c.take(found));
                lemma_subsequence_push_intro(q0, w, c.take(found + 1), found);
            }
        }
        assert forall|m: int| 0 <= m <= c.len() && #[trigger] subsequence(q, c.take(m)) implies (fuzzy_steps(c, q) matches Some(
            (p, _prev, _score),
        ) && p <= m) by {
            lemma_subsequence_push_elim(q0, w, c.take(m));
            let k = choose|k: int| 0 <= k < c.take(m).len() && c.take(m)[k] == w && subsequence(q0, c.take(m).take(k));
            assert(c.take(m).take(k) == c.take(k));
            assert(subsequence(q0, c.take(k)));
            assert(c.take(m)[k] == c[k]);
            assert(c[k] == w);
            assert(fuzzy_steps(c, q0) is Some);
            if let Some((pos, prev, score)) = fuzzy_steps(c, q0) {
                assert(pos <= k);
                lemma_steps_bounds(c, q0);
                lemma_first_from(c, w, pos);
                assert(first_from(c, w, pos) is Some);
                assert(q.drop_last() == q0);
                assert(q.last() == w);
                assert(fuzzy_steps(c, q) is Some);
            }
        }
    } else {
        assert forall|m: int| 0 <= m <= c.len() && #[trigger] subsequence(q, c.take(m)) implies (fuzzy_steps(c, q) matches Some(
            (p, _prev, _score),
        ) && p <= m) by {}
    }
}

/// A candidate scores exactly when its lowercased form holds the lowercased
/// query in order.
pub proof fn lemma_fuzzy_score_exists_iff_subsequence(candidate: Seq<char>, query: Seq<char>)
    ensures
        fuzzy_score_spec(candidate, query) is Some <==> subsequence(str_lowercase(query), str_lowercase(candidate)),
{
    let c = str_lowercase(candidate);
    let q = str_lowercase(query);
    lemma_steps_subsequence(c, q);
    lemma_steps_bounds(c, q);
    assert(c.take(c.len() as int) == c);
    if let Some((p, prev, score)) = fuzzy_steps(c, q) {
        lemma_subsequence_prefix(q, c, p, c.len() as int);
    }
}

/// With a nonempty query, a record scores exactly when one of its fields,
/// lowercased, holds the lowercased query in order (so a record without
/// fields never does); its score is then the best field score.
pub proof fn lemma_search_score_exists_iff_subsequence(query: Seq<char>, fields: Seq<Seq<char>>)
    requires
        query.len() > 0,
    ensures
        search_score_spec(query, fields) is Some <==> exists|i: int|
            0 <= i < fields.len() && subsequence(str_lowercase(query), str_lowercase(#[trigger] fields[i])),
        search_score_spec(query, fields) == best_field_score(query, fields),
    decreases fields.len(),
{
    if fields.len() > 0 {
        let rest = fields.drop_last();
        lemma_search_score_exists_iff_subsequence(query, rest);
        lemma_fuzzy_score_exists_iff_subsequence(fields.last(), query);
        if exists|i: int| 0 <= i < rest.len() && subsequence(str_lowercase(query), str_lowercase(#[trigger] rest[i])) {
            let i = choose|i: int| 0 <= i < rest.len() && subsequence(str_lowercase(query), str_lowercase(#[trigger] rest[i]));
            assert(fields[i] == rest[i]);
        }
        if exists|i: int| 0 <= i < fields.len() && subsequence(str_lowercase(query), str_lowercase(#[trigger] fields[i])) {
            let i = choose|i: int| 0 <= i < fields.len() && subsequence(str_lowercase(query), str_lowercase(#[trigger] fields[i]));
            if i < rest.len() {
                assert(rest[i] == fields[i]);
            }
        }
    }
}

} // verus!
