//! Ordering task lists as trees: tasks are grouped by document, nested by
//! outline depth, and sibling subtrees (and documents) are ordered by what
//! their whole subtree holds: focus first, then the user's sort keys.
use std::cmp::Ordering;
use vstd::prelude::*;

use crate::text::str_eq;
use crate::time::{instant_before, Timestamp};

verus! {

/// A key by which tasks are ordered.
#[derive(Debug, Clone, Copy, PartialEq, Eq, Structural)]
pub enum TaskSortOrder {
    Source,
    Priority,
    Due,
    Relevance,
}

/// What task ordering needs to know of a task.  `focused` is the task's own
/// focus; only the subtree aggregate promotes ancestors.
#[derive(Debug, Clone, PartialEq, Eq)]
pub struct TaskSortFacts {
    pub document: String,
    pub source_start: usize,
    pub depth: usize,
    pub focused: bool,
    pub priority: Option<i32>,
    pub due: Option<Timestamp>,
    pub relevance: Option<i64>,
}

// ---------------------------------------------------------------------------
// The comparator on subtree aggregates.

pub open spec fn i32_order(a: i32, b: i32) -> Ordering {
    if a < b {
        Ordering::Less
    } else if a > b {
        Ordering::Greater
    } else {
        Ordering::Equal
    }
}

pub open spec fn i64_order(a: i64, b: i64) -> Ordering {
    if a < b {
        Ordering::Less
    } else if a > b {
        Ordering::Greater
    } else {
        Ordering::Equal
    }
}

pub open spec fn instant_order(a: Timestamp, b: Timestamp) -> Ordering {
    if instant_before(a, b) {
        Ordering::Less
    } else if instant_before(b, a) {
        Ordering::Greater
    } else {
        Ordering::Equal
    }
}

/// Present values before absent ones, present values by instant.
pub open spec fn optional_order_spec(left: Option<Timestamp>, right: Option<Timestamp>) -> Ordering {
    match (left, right) {
        (Some(l), Some(r)) => instant_order(l, r),
        (Some(_), None) => Ordering::Less,
        (None, Some(_)) => Ordering::Greater,
        (None, None) => Ordering::Equal,
    }
}

/// Orders two optional instants: earlier first, absent last.
pub fn optional_order(left: Option<&Timestamp>, right: Option<&Timestamp>) -> (ordering: Ordering)
    ensures
        ordering == optional_order_spec(
            match left {
                Some(l) => Some(*l),
                None => None,
            },
            match right {
                Some(r) => Some(*r),
                None => None,
            },
        ),
{
    match (left, right) {
        (Some(l), Some(r)) => {
            if l.seconds < r.seconds || (l.seconds == r.seconds && l.nanos < r.nanos) {
                Ordering::Less
            } else if r.seconds < l.seconds || (r.seconds == l.seconds && r.nanos < l.nanos) {
                Ordering::Greater
            } else {
                Ordering::Equal
            }
        },
        (Some(_), None) => Ordering::Less,
        (None, Some(_)) => Ordering::Greater,
        (None, None) => Ordering::Equal,
    }
}

/// What one sort key says of two subtrees.
pub open spec fn order_step(
    order: TaskSortOrder,
    lp: i32,
    rp: i32,
    ld: Option<Timestamp>,
    rd: Option<Timestamp>,
    lr: Option<i64>,
    rr: Option<i64>,
) -> Ordering {
    match order {
        TaskSortOrder::Priority => i32_order(rp, lp),
        TaskSortOrder::Due => optional_order_spec(ld, rd),
        TaskSortOrder::Relevance => match (lr, rr) {
            (Some(l), Some(r)) => i64_order(r, l),
            _ => Ordering::Equal,
        },
        TaskSortOrder::Source => Ordering::Equal,
    }
}

/// The first sort key, from `i` on, that tells two subtrees apart.
pub open spec fn orders_from(
    orders: Seq<TaskSortOrder>,
    i: int,
    lp: i32,
    rp: i32,
    ld: Option<Timestamp>,
    rd: Option<Timestamp>,
    lr: Option<i64>,
    rr: Option<i64>,
) -> Ordering
    decreases orders.len() - i,
{
    if i < 0 || i >= orders.len() {
        Ordering::Equal
    } else {
        let o = order_step(orders[i], lp, rp, ld, rd, lr, rr);
        if o != Ordering::Equal {
            o
        } else {
            orders_from(orders, i + 1, lp, rp, ld, rd, lr, rr)
        }
    }
}

/// A focused subtree comes first; otherwise the sort keys decide in turn:
/// higher priority first, earlier due first (absent last), higher relevance
/// first (only when both have one); `Source` leaves the decision to the
/// source order.
pub open spec fn aggregate_order_spec(
    lf: bool,
    rf: bool,
    lp: i32,
    rp: i32,
    ld: Option<Timestamp>,
    rd: Option<Timestamp>,
    lr: Option<i64>,
    rr: Option<i64>,
    orders: Seq<TaskSortOrder>,
) -> Ordering {
    if lf && !rf {
        Ordering::Less
    } else if !lf && rf {
        Ordering::Greater
    } else {
        orders_from(orders, 0, lp, rp, ld, rd, lr, rr)
    }
}

/// Compares two subtrees (or document groups) by their aggregates.
pub fn aggregate_order(
    left_focused: bool,
    right_focused: bool,
    left_priority: i32,
    right_priority: i32,
    left_due: Option<&Timestamp>,
    right_due: Option<&Timestamp>,
    left_relevance: Option<i64>,
    right_relevance: Option<i64>,
    orders: &Vec<TaskSortOrder>,
) -> (ordering: Ordering)
    ensures
        ordering == aggregate_order_spec(
            left_focused,
            right_focused,
            left_priority,
            right_priority,
            match left_due {
                Some(l) => Some(*l),
                None => None,
            },
            match right_due {
                Some(r) => Some(*r),
                None => None,
            },
            left_relevance,
            right_relevance,
            orders@,
        ),
{
    if left_focused && !right_focused {
        return Ordering::Less;
    }
    if !left_focused && right_focused {
        return Ordering::Greater;
    }
    let ghost ld = match left_due {
        Some(l) => Some(*l),
        None => None,
    };
    let ghost rd = match right_due {
        Some(r) => Some(*r),
        None => None,
    };
    let mut i: usize = 0;
    let ghost mut gi: int = 0;
    while i < orders.len()
        invariant
            i <= orders.len(),
            gi == i,
            !(left_focused && !right_focused),
            !(!left_focused && right_focused),
            ld == (match left_due {
                Some(l) => Some(*l),
                None => None::<Timestamp>,
            }),
            rd == (match right_due {
                Some(r) => Some(*r),
                None => None::<Timestamp>,
            }),
            orders_from(orders@, 0, left_priority, right_priority, ld, rd, left_relevance, right_relevance)
                == orders_from(orders@, gi, left_priority, right_priority, ld, rd, left_relevance, right_relevance),
        decreases orders.len() - i,
    {
        let ordering = match orders[i] {
            TaskSortOrder::Priority => {
                if right_priority < left_priority {
                    Ordering::Less
                } else if right_priority > left_priority {
                    Ordering::Greater
                } else {
                    Ordering::Equal
                }
            },
            TaskSortOrder::Due => optional_order(left_due, right_due),
            TaskSortOrder::Relevance => match (left_relevance, right_relevance) {
                (Some(l), Some(r)) => {
                    if r < l {
                        Ordering::Less
                    } else if r > l {
                        Ordering::Greater
                    } else {
                        Ordering::Equal
                    }
                },
                _ => Ordering::Equal,
            },
            TaskSortOrder::Source => Ordering::Equal,
        };
        proof {
            assert(ordering == order_step(orders@[gi], left_priority, right_priority, ld, rd, left_relevance, right_relevance));
        }
        match ordering {
            Ordering::Equal => {},
            _ => {
                return ordering;
            },
        }
        i = i + 1;
        proof {
            gi = gi + 1;
        }
    }
    Ordering::Equal
}

// ---------------------------------------------------------------------------
// Truncation at document boundaries.

pub open spec fn doc_texts(documents: Seq<String>) -> Seq<Seq<char>> {
    documents.map_values(|s: String| s@)
}

/// Where a list limited to `limit` entries is cut so that the document of
/// the last kept entry is kept whole: after `limit` entries, every
/// following entry of that document stays.
pub open spec fn complete_document_end(documents: Seq<Seq<char>>, limit: int) -> int {
    if documents.len() <= limit {
        documents.len() as int
    } else if limit == 0 {
        0
    } else {
        document_run_end(documents, documents[limit - 1], limit)
    }
}

/// The first position from `i` on whose document is not `d`.
pub open spec fn document_run_end(documents: Seq<Seq<char>>, d: Seq<char>, i: int) -> int
    decreases documents.len() - i,
{
    if i < documents.len() && documents[i] == d {
        document_run_end(documents, d, i + 1)
    } else {
        i
    }
}

proof fn lemma_document_run_end(documents: Seq<Seq<char>>, d: Seq<char>, i: int)
    requires
        0 <= i <= documents.len(),
    ensures
        i <= document_run_end(documents, d, i) <= documents.len(),
    decreases documents.len() - i,
{
    if i < documents.len() && documents[i] == d {
        lemma_document_run_end(documents, d, i + 1);
    }
}

/// The cut keeps at most all the records, and at least `limit` of them
/// when there are that many.
pub proof fn lemma_complete_document_end(documents: Seq<Seq<char>>, limit: int)
    requires
        limit >= 0,
    ensures
        0 <= complete_document_end(documents, limit) <= documents.len(),
        documents.len() <= limit ==> complete_document_end(documents, limit) == documents.len(),
        documents.len() > limit ==> complete_document_end(documents, limit) >= limit,
{
    if documents.len() > limit && limit > 0 {
        lemma_document_run_end(documents, documents[limit - 1], limit);
    }
}

/// Keeps the first `limit` records and the rest of the last kept record's
/// document (`documents[i]` is the document of `records[i]`), so that no
/// document is cut in two; with `limit` 0 nothing is kept.
pub fn truncate_complete_task_documents<T>(records: &mut Vec<T>, limit: usize, documents: &Vec<String>)
    requires
        old(records).len() == documents.len(),
    ensures
        final(records)@ == old(records)@.take(complete_document_end(doc_texts(documents@), limit as int)),
{
    let ghost ds = doc_texts(documents@);
    if records.len() <= limit {
        assert(records@.take(records.len() as int) == records@);
        return;
    }
    if limit == 0 {
        records.clear();
        assert(old(records)@.take(0) == Seq::<T>::empty());
        return;
    }
    let boundary = &documents[limit - 1];
    let mut end: usize = limit;
    while end < documents.len() && str_eq(documents[end].as_str(), boundary.as_str())
        invariant
            limit <= end <= documents.len(),
            ds == doc_texts(documents@),
            boundary@ == ds[limit - 1],
            document_run_end(ds, ds[limit - 1], limit as int) == document_run_end(ds, ds[limit - 1], end as int),
        decreases documents.len() - end,
    {
        assert(ds[end as int] == documents@[end as int]@);
        end = end + 1;
    }
    proof {
        if end < documents.len() {
            assert(ds[end as int] == documents@[end as int]@);
        }
    }
    records.truncate(end);
}

} // verus!
