//! Pages of the event timeline.  Events are ordered by their timeline
//! position (see `event_key`): the open documents' events on the far side
//! of a cursor, merged with the events the store returns, sorted, and cut
//! to the page size.
use vstd::prelude::*;
use crate::order::{lex_less, lex_lt, permuted, sort_by_keys, sorted_permutation};
use crate::paths::{path_key, push_path_key};
use crate::query::WorkspaceEventCursor;

verus! {

/// The timeline key of an event: events with a sort instant first, by
/// instant; then by path, component by component; then by start offset.
pub open spec fn event_key(e: WorkspaceEventCursor) -> Seq<i128> {
    (match e.sort_millis {
        Some(m) => seq![0i128, m as i128],
        None => seq![1i128],
    }) + path_key(e.path@) + seq![e.start as i128]
}

pub open spec fn event_keys(es: Seq<WorkspaceEventCursor>) -> Seq<Seq<i128>> {
    es.map_values(|e: WorkspaceEventCursor| event_key(e))
}

/// The timeline key of an event.
pub fn event_key_exec(e: &WorkspaceEventCursor) -> (key: Vec<i128>)
    ensures
        key@ == event_key(*e),
{
    let mut key: Vec<i128> = Vec::new();
    match e.sort_millis {
        Some(m) => {
            key.push(0);
            key.push(m as i128);
        },
        None => key.push(1),
    }
    push_path_key(&mut key, e.path.as_str());
    key.push(e.start as i128);
    assert(key@ =~= event_key(*e));
    key
}

fn event_key_vecs(es: &Vec<WorkspaceEventCursor>) -> (keys: Vec<Vec<i128>>)
    ensures
        keys.len() == es.len(),
        keys@.map_values(|k: Vec<i128>| k@) == event_keys(es@),
{
    let mut keys: Vec<Vec<i128>> = Vec::new();
    let mut i: usize = 0;
    while i < es.len()
        invariant
            i <= es.len(),
            keys.len() == i,
            forall|j: int| 0 <= j < i ==> #[trigger] keys@[j]@ == event_key(es@[j]),
        decreases es.len() - i,
    {
        keys.push(event_key_exec(&es[i]));
        i = i + 1;
    }
    assert(keys@.map_values(|k: Vec<i128>| k@) =~= event_keys(es@));
    keys
}

/// Which events lie on the wanted side of a cursor: after it (`after`) or
/// before it; without a cursor, every event.
pub open spec fn beyond_cursor(e: WorkspaceEventCursor, cursor: Option<WorkspaceEventCursor>, after: bool) -> bool {
    match cursor {
        None => true,
        Some(c) => if after {
            lex_lt(event_key(c), event_key(e))
        } else {
            lex_lt(event_key(e), event_key(c))
        },
    }
}

/// The events of `open` beyond the cursor, in order, then all of `stored`.
pub open spec fn page_candidates(
    open: Seq<WorkspaceEventCursor>,
    stored: Seq<WorkspaceEventCursor>,
    cursor: Option<WorkspaceEventCursor>,
    after: bool,
) -> Seq<WorkspaceEventCursor>
    decreases open.len(),
{
    if open.len() == 0 {
        stored
    } else {
        let rest = page_candidates(open.drop_last(), seq![], cursor, after);
        (if beyond_cursor(open.last(), cursor, after) {
            rest.push(open.last())
        } else {
            rest
        }) + stored
    }
}

/// How many events to ask the store for: the page size plus the open
/// events already in hand, saturating.
pub open spec fn stored_limit_spec(limit: usize, open_count: usize) -> usize {
    if limit + open_count > usize::MAX {
        usize::MAX
    } else {
        (limit + open_count) as usize
    }
}

/// How many events to ask the store for (see `stored_limit_spec`).
pub fn stored_event_limit(limit: usize, open_count: usize) -> (n: usize)
    ensures
        n == stored_limit_spec(limit, open_count),
{
    if limit > usize::MAX - open_count {
        usize::MAX
    } else {
        limit + open_count
    }
}

fn copy_event(e: &WorkspaceEventCursor) -> (c: WorkspaceEventCursor)
    ensures
        c == *e,
{
    WorkspaceEventCursor { sort_millis: e.sort_millis, path: e.path.clone(), start: e.start }
}

fn candidates_exec(
    open: &Vec<WorkspaceEventCursor>,
    stored: &Vec<WorkspaceEventCursor>,
    cursor: &Option<WorkspaceEventCursor>,
    after: bool,
) -> (out: Vec<WorkspaceEventCursor>)
    ensures
        out@ == page_candidates(open@, stored@, *cursor, after),
{
    let mut out: Vec<WorkspaceEventCursor> = Vec::new();
    let mut i: usize = 0;
    while i < open.len()
        invariant
            i <= open.len(),
            out@ == page_candidates(open@.take(i as int), seq![], *cursor, after),
        decreases open.len() - i,
    {
        let ghost before = out@;
        let e = &open[i];
        let keep = match cursor {
            None => true,
            Some(c) => {
                let ck = event_key_exec(c);
                let ek = event_key_exec(e);
                if after {
                    lex_less(&ck, &ek)
                } else {
                    lex_less(&ek, &ck)
                }
            },
        };
        if keep {
            out.push(copy_event(e));
        }
        proof {
            let t = open@.take(i + 1);
            assert(t.drop_last() == open@.take(i as int));
            assert(t.last() == open@[i as int]);
            assert(page_candidates(t.drop_last(), seq![], *cursor, after) + Seq::<WorkspaceEventCursor>::empty()
                == page_candidates(t.drop_last(), seq![], *cursor, after));
            if keep {
                assert(out@ == before.push(open@[i as int]));
            }
            assert(out@ =~= page_candidates(t, seq![], *cursor, after));
        }
        i = i + 1;
    }
    assert(open@.take(open.len() as int) == open@);
    let ghost head = out@;
    let mut j: usize = 0;
    while j < stored.len()
        invariant
            j <= stored.len(),
            out@ == head + stored@.take(j as int),
        decreases stored.len() - j,
    {
        out.push(copy_event(&stored[j]));
        assert(stored@.take(j + 1) == stored@.take(j as int).push(stored@[j as int]));
        j = j + 1;
    }
    assert(stored@.take(stored.len() as int) == stored@);
    proof {
        lemma_candidates_split(open@, stored@, *cursor, after);
    }
    out
}

proof fn lemma_candidates_split(
    open: Seq<WorkspaceEventCursor>,
    stored: Seq<WorkspaceEventCursor>,
    cursor: Option<WorkspaceEventCursor>,
    after: bool,
)
    ensures
        page_candidates(open, stored, cursor, after) == page_candidates(open, seq![], cursor, after) + stored,
{
    if open.len() > 0 {
        let rest = page_candidates(open.drop_last(), seq![], cursor, after);
        let kept = if beyond_cursor(open.last(), cursor, after) {
            rest.push(open.last())
        } else {
            rest
        };
        assert(kept + Seq::<WorkspaceEventCursor>::empty() == kept);
    } else {
        assert(Seq::<WorkspaceEventCursor>::empty() + stored == stored);
    }
}

/// A page of the event timeline: the open documents' events (`open`) on
/// the wanted side of the cursor (after it, or before it when `after` is
/// false) together with the events the store returned (`stored`), sorted
/// by `event_key` (stable), then the first `limit` of them after a cursor
/// or the last `limit` before one.
pub fn events_page(
    open: &Vec<WorkspaceEventCursor>,
    stored: &Vec<WorkspaceEventCursor>,
    cursor: &Option<WorkspaceEventCursor>,
    after: bool,
    limit: usize,
) -> (page: Vec<WorkspaceEventCursor>)
    ensures
        exists|sorted: Seq<WorkspaceEventCursor>, perm: Seq<int>|
            sorted_permutation(event_keys(page_candidates(open@, stored@, *cursor, after)), perm) && permuted(
                page_candidates(open@, stored@, *cursor, after),
                sorted,
                perm,
            ) && page@ == (if sorted.len() <= limit {
                sorted
            } else if after {
                sorted.take(limit as int)
            } else {
                sorted.skip(sorted.len() - limit)
            }),
{
    let candidates = candidates_exec(open, stored, cursor, after);
    let keys = event_key_vecs(&candidates);
    let mut sorted = sort_by_keys(candidates, &keys);
    let ghost all = sorted@;
    if sorted.len() <= limit {
        return sorted;
    }
    if after {
        sorted.truncate(limit);
        sorted
    } else {
        let cut = sorted.len() - limit;
        let rest = sorted.split_off(cut);
        assert(rest@ == all.skip(cut as int));
        rest
    }
}

} // verus!
