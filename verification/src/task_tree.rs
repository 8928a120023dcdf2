//! The task-tree sort.  Tasks are first put in document order (document,
//! then source offset, stably).  In that order a task's subtree is itself
//! and the run of deeper tasks of its document that follows it, and its
//! parent is the nearest earlier task of its document that is less deep.
//! Every subtree and every document is summarised (focus anywhere in it,
//! greatest priority, earliest due, greatest relevance); siblings are
//! ordered by those summaries, then by source offset, and documents by
//! theirs, then by path.  The result lists documents in order and each
//! subtree right after its root, which is the order of the composite keys
//! built here: a task's key is its parent's key (or its document's) followed
//! by its own sibling key.
use vstd::prelude::*;
use crate::order::{
    apply_permutation, decided, index_before, is_permutation, lemma_decided_after, lemma_decided_extend, lemma_lex_asymmetric,
    lemma_lex_common_prefix, lemma_lex_irreflexive, lemma_str_key_decided, lex_lt, push_str_key, sort_by_keys, sorted_permutation, permuted, str_key, usize_seq,
};
use crate::task_sort::{TaskSortFacts, TaskSortOrder};
use crate::text::{chars_of, str_eq};
use crate::time::{instant_before, Timestamp};

verus! {

pub open spec fn prio_or_zero(f: TaskSortFacts) -> i32 {
    match f.priority {
        Some(p) => p,
        None => 0,
    }
}

pub open spec fn same_doc(sf: Seq<TaskSortFacts>, a: int, b: int) -> bool {
    sf[a].document@ == sf[b].document@
}

/// In document order, `j` is the parent of `k`.
pub open spec fn parent_pos(sf: Seq<TaskSortFacts>, k: int, j: int) -> bool {
    &&& 0 <= j < k < sf.len()
    &&& same_doc(sf, j, k)
    &&& sf[j].depth < sf[k].depth
    &&& forall|m: int| j < m < k ==> #[trigger] same_doc(sf, m, k)
    &&& forall|m: int| j < m < k ==> #[trigger] sf[m].depth >= sf[k].depth
}

/// The end of the run of deeper tasks of `k`'s document from `m` on.
pub open spec fn run_end(sf: Seq<TaskSortFacts>, k: int, m: int) -> int
    decreases sf.len() - m,
{
    if 0 <= m < sf.len() && same_doc(sf, m, k) && sf[m].depth > sf[k].depth {
        run_end(sf, k, m + 1)
    } else {
        m
    }
}

/// `k`'s subtree is the positions `k .. subtree_end(k)`.
pub open spec fn subtree_end(sf: Seq<TaskSortFacts>, k: int) -> int {
    run_end(sf, k, k + 1)
}

/// The summaries of a run of tasks (or of the tasks of one document):
/// whether any is focused, the greatest priority (absent counts as 0), the
/// earliest due instant, the greatest relevance.
pub struct Summary {
    pub focused: bool,
    pub priority: i32,
    pub due: Option<Timestamp>,
    pub relevance: Option<i64>,
}

pub open spec fn empty_summary() -> Summary {
    Summary { focused: false, priority: i32::MIN, due: None, relevance: None }
}

/// `s` with task `f` added.
pub open spec fn summary_add(s: Summary, f: TaskSortFacts) -> Summary {
    Summary {
        focused: s.focused || f.focused,
        priority: if prio_or_zero(f) > s.priority {
            prio_or_zero(f)
        } else {
            s.priority
        },
        due: match (s.due, f.due) {
            (None, d) => d,
            (Some(x), None) => Some(x),
            (Some(x), Some(y)) => if instant_before(y, x) {
                Some(y)
            } else {
                Some(x)
            },
        },
        relevance: match (s.relevance, f.relevance) {
            (None, r) => r,
            (Some(x), None) => Some(x),
            (Some(x), Some(y)) => if y > x {
                Some(y)
            } else {
                Some(x)
            },
        },
    }
}

/// The summary of positions `a .. b`.
pub open spec fn range_summary(sf: Seq<TaskSortFacts>, a: int, b: int) -> Summary
    decreases b - a,
{
    if b <= a {
        empty_summary()
    } else {
        summary_add(range_summary(sf, a, b - 1), sf[b - 1])
    }
}

/// The summary of the tasks among the first `b` that belong to document `d`.
pub open spec fn document_summary(sf: Seq<TaskSortFacts>, d: Seq<char>, b: int) -> Summary
    decreases b,
{
    if b <= 0 {
        empty_summary()
    } else if sf[b - 1].document@ == d {
        summary_add(document_summary(sf, d, b - 1), sf[b - 1])
    } else {
        document_summary(sf, d, b - 1)
    }
}

/// How one sort key ranks a summary.
pub open spec fn order_key(o: TaskSortOrder, s: Summary) -> Seq<i128> {
    match o {
        TaskSortOrder::Priority => seq![(-(s.priority as int)) as i128],
        TaskSortOrder::Due => match s.due {
            Some(t) => seq![0i128, t.seconds as i128, t.nanos as i128],
            None => seq![1i128],
        },
        TaskSortOrder::Relevance => match s.relevance {
            Some(r) => seq![0i128, (-(r as int)) as i128],
            None => seq![1i128],
        },
        TaskSortOrder::Source => seq![],
    }
}

pub open spec fn orders_key(orders: Seq<TaskSortOrder>, s: Summary) -> Seq<i128>
    decreases orders.len(),
{
    if orders.len() == 0 {
        seq![]
    } else {
        orders_key(orders.drop_last(), s) + order_key(orders.last(), s)
    }
}

/// The key of a summary: focused first, then each sort key in turn.
pub open spec fn summary_key(orders: Seq<TaskSortOrder>, s: Summary) -> Seq<i128> {
    seq![if s.focused {
        0i128
    } else {
        1i128
    }] + orders_key(orders, s)
}

/// The key of `k` among its siblings: its subtree's summary, then its
/// source offset and position.
pub open spec fn sibling_key(sf: Seq<TaskSortFacts>, orders: Seq<TaskSortOrder>, k: int) -> Seq<i128> {
    summary_key(orders, range_summary(sf, k, subtree_end(sf, k))) + seq![
        sf[k].source_start as i128,
        k as i128,
    ]
}

/// The summary of a whole document: like a subtree's, but its priority is
/// never below 0.
pub open spec fn document_group_summary(sf: Seq<TaskSortFacts>, d: Seq<char>) -> Summary {
    let s = document_summary(sf, d, sf.len() as int);
    Summary {
        priority: if s.priority > 0 {
            s.priority
        } else {
            0
        },
        ..s
    }
}

/// The key of `k`'s document among documents: its summary, then its path.
pub open spec fn document_key(sf: Seq<TaskSortFacts>, orders: Seq<TaskSortOrder>, k: int) -> Seq<i128> {
    summary_key(orders, document_group_summary(sf, sf[k].document@)) + str_key(sf[k].document@)
}

/// The composite key of `k`: its parent's (or its document's) key followed
/// by its own sibling key.
pub open spec fn composite_key(sf: Seq<TaskSortFacts>, orders: Seq<TaskSortOrder>, k: int) -> Seq<i128>
    decreases k,
{
    if exists|j: int| parent_pos(sf, k, j) {
        let j = choose|j: int| parent_pos(sf, k, j);
        composite_key(sf, orders, j) + sibling_key(sf, orders, k)
    } else {
        document_key(sf, orders, k) + sibling_key(sf, orders, k)
    }
}

/// The key that puts tasks in document order.
pub open spec fn document_order_key(f: TaskSortFacts) -> Seq<i128> {
    str_key(f.document@) + seq![f.source_start as i128]
}

pub open spec fn document_order_keys(facts: Seq<TaskSortFacts>) -> Seq<Seq<i128>> {
    facts.map_values(|f: TaskSortFacts| document_order_key(f))
}

/// The facts rearranged into an order.
pub open spec fn reordered(facts: Seq<TaskSortFacts>, p: Seq<int>) -> Seq<TaskSortFacts> {
    Seq::new(p.len(), |k: int| facts[p[k]])
}

pub open spec fn composite_keys(sf: Seq<TaskSortFacts>, orders: Seq<TaskSortOrder>) -> Seq<Seq<i128>> {
    Seq::new(sf.len(), |k: int| composite_key(sf, orders, k))
}

// ---------------------------------------------------------------------------
// Computing the keys.

proof fn lemma_parent_unique(sf: Seq<TaskSortFacts>, k: int, a: int, b: int)
    requires
        parent_pos(sf, k, a),
        parent_pos(sf, k, b),
    ensures
        a == b,
{
    if a < b {
        assert(sf[b].depth >= sf[k].depth);
    } else if b < a {
        assert(sf[a].depth >= sf[k].depth);
    }
}

fn copy_facts(f: &TaskSortFacts) -> (c: TaskSortFacts)
    ensures
        c == *f,
{
    TaskSortFacts {
        document: f.document.clone(),
        source_start: f.source_start,
        depth: f.depth,
        focused: f.focused,
        priority: f.priority,
        due: f.due,
        relevance: f.relevance,
    }
}

fn same_document(a: &TaskSortFacts, b: &TaskSortFacts) -> (same: bool)
    ensures
        same == (a.document@ == b.document@),
{
    str_eq(a.document.as_str(), b.document.as_str())
}

/// The parent of position `k` in document order.
fn find_parent(sf: &Vec<TaskSortFacts>, k: usize) -> (parent: Option<usize>)
    requires
        k < sf.len(),
    ensures
        parent matches Some(j) ==> parent_pos(sf@, k as int, j as int),
        parent is None ==> forall|j: int| !parent_pos(sf@, k as int, j),
{
    let mut m: usize = k;
    while m > 0
        invariant
            m <= k < sf.len(),
            forall|x: int| m <= x < k ==> #[trigger] same_doc(sf@, x, k as int),
            forall|x: int| m <= x < k ==> #[trigger] sf@[x].depth >= sf@[k as int].depth,
        decreases m,
    {
        let j = m - 1;
        if !same_document(&sf[j], &sf[k]) {
            proof {
                assert forall|x: int| !parent_pos(sf@, k as int, x) by {
                    if parent_pos(sf@, k as int, x) {
                        if x < j {
                            assert(sf@[j as int].depth >= sf@[k as int].depth);
                            assert(same_doc(sf@, j as int, k as int));
                        }
                    }
                }
            }
            return None;
        }
        if sf[j].depth < sf[k].depth {
            proof {
                assert forall|x: int| j < x < k implies #[trigger] same_doc(sf@, x, k as int) by {
                    assert(m <= x);
                }
                assert forall|x: int| j < x < k implies #[trigger] sf@[x].depth >= sf@[k as int].depth by {
                    assert(m <= x);
                }
            }
            return Some(j);
        }
        proof {
            assert(sf@[j as int].depth >= sf@[k as int].depth);
            assert(same_doc(sf@, j as int, k as int));
        }
        m = j;
    }
    proof {
        assert forall|x: int| !parent_pos(sf@, k as int, x) by {}
    }
    None
}

/// The end of position `k`'s subtree.
fn find_subtree_end(sf: &Vec<TaskSortFacts>, k: usize) -> (end: usize)
    requires
        k < sf.len(),
    ensures
        end == subtree_end(sf@, k as int),
        k < end <= sf.len(),
{
    let mut m: usize = k + 1;
    while m < sf.len() && same_document(&sf[m], &sf[k]) && sf[m].depth > sf[k].depth
        invariant
            k < m <= sf.len(),
            run_end(sf@, k as int, k + 1) == run_end(sf@, k as int, m as int),
        decreases sf.len() - m,
    {
        m = m + 1;
    }
    m
}

fn summary_add_exec(s: &Summary, f: &TaskSortFacts) -> (t: Summary)
    ensures
        t == summary_add(*s, *f),
{
    let p = match f.priority {
        Some(p) => p,
        None => 0,
    };
    let due = match (s.due, f.due) {
        (None, d) => d,
        (Some(x), None) => Some(x),
        (Some(x), Some(y)) => if y.seconds < x.seconds || (y.seconds == x.seconds && y.nanos < x.nanos) {
            Some(y)
        } else {
            Some(x)
        },
    };
    let relevance = match (s.relevance, f.relevance) {
        (None, r) => r,
        (Some(x), None) => Some(x),
        (Some(x), Some(y)) => if y > x {
            Some(y)
        } else {
            Some(x)
        },
    };
    Summary {
        focused: s.focused || f.focused,
        priority: if p > s.priority {
            p
        } else {
            s.priority
        },
        due,
        relevance,
    }
}

fn subtree_summary(sf: &Vec<TaskSortFacts>, a: usize, b: usize) -> (s: Summary)
    requires
        a <= b <= sf.len(),
    ensures
        s == range_summary(sf@, a as int, b as int),
{
    let mut s = Summary { focused: false, priority: i32::MIN, due: None, relevance: None };
    let mut m: usize = a;
    while m < b
        invariant
            a <= m <= b <= sf.len(),
            s == range_summary(sf@, a as int, m as int),
        decreases b - m,
    {
        s = summary_add_exec(&s, &sf[m]);
        m = m + 1;
    }
    s
}

fn group_summary(sf: &Vec<TaskSortFacts>, k: usize) -> (s: Summary)
    requires
        k < sf.len(),
    ensures
        s == document_group_summary(sf@, sf@[k as int].document@),
{
    let ghost d = sf@[k as int].document@;
    let mut s = Summary { focused: false, priority: i32::MIN, due: None, relevance: None };
    let mut m: usize = 0;
    while m < sf.len()
        invariant
            m <= sf.len(),
            k < sf.len(),
            d == sf@[k as int].document@,
            s == document_summary(sf@, d, m as int),
        decreases sf.len() - m,
    {
        if same_document(&sf[m], &sf[k]) {
            s = summary_add_exec(&s, &sf[m]);
        }
        m = m + 1;
    }
    Summary {
        focused: s.focused,
        priority: if s.priority > 0 {
            s.priority
        } else {
            0
        },
        due: s.due,
        relevance: s.relevance,
    }
}

fn push_summary_key(key: &mut Vec<i128>, orders: &Vec<TaskSortOrder>, s: &Summary)
    ensures
        final(key)@ == old(key)@ + summary_key(orders@, *s),
{
    let ghost start = key@;
    key.push(if s.focused {
        0
    } else {
        1
    });
    let mut i: usize = 0;
    while i < orders.len()
        invariant
            i <= orders.len(),
            key@ == start + summary_key(orders@.take(i as int), *s),
        decreases orders.len() - i,
    {
        let ghost before = key@;
        match orders[i] {
            TaskSortOrder::Priority => {
                key.push(-(s.priority as i128));
            },
            TaskSortOrder::Due => match s.due {
                Some(t) => {
                    key.push(0);
                    key.push(t.seconds as i128);
                    key.push(t.nanos as i128);
                },
                None => {
                    key.push(1);
                },
            },
            TaskSortOrder::Relevance => match s.relevance {
                Some(r) => {
                    key.push(0);
                    key.push(-(r as i128));
                },
                None => {
                    key.push(1);
                },
            },
            TaskSortOrder::Source => {},
        }
        proof {
            assert(key@ =~= before + order_key(orders@[i as int], *s));
            assert(orders@.take(i + 1).drop_last() == orders@.take(i as int));
            assert(orders@.take(i + 1).last() == orders@[i as int]);
        }
        i = i + 1;
    }
    assert(orders@.take(orders.len() as int) == orders@);
}

/// The composite key of every position, in document order.
fn composite_keys_exec(sf: &Vec<TaskSortFacts>, orders: &Vec<TaskSortOrder>) -> (keys: Vec<Vec<i128>>)
    ensures
        keys.len() == sf.len(),
        forall|k: int| 0 <= k < sf.len() ==> #[trigger] keys@[k]@ == composite_key(sf@, orders@, k),
{
    let mut keys: Vec<Vec<i128>> = Vec::new();
    let mut k: usize = 0;
    while k < sf.len()
        invariant
            k <= sf.len(),
            keys.len() == k,
            forall|x: int| 0 <= x < k ==> #[trigger] keys@[x]@ == composite_key(sf@, orders@, x),
        decreases sf.len() - k,
    {
        let end = find_subtree_end(sf, k);
        let summary = subtree_summary(sf, k, end);
        let mut key: Vec<i128> = match find_parent(sf, k) {
            Some(j) => {
                proof {
                    let c = choose|c: int| parent_pos(sf@, k as int, c);
                    lemma_parent_unique(sf@, k as int, c, j as int);
                }
                keys[j].clone()
            },
            None => {
                let mut key: Vec<i128> = Vec::new();
                let group = group_summary(sf, k);
                push_summary_key(&mut key, orders, &group);
                let document = chars_of(sf[k].document.as_str());
                push_str_key(&mut key, &document);
                key
            },
        };
        push_summary_key(&mut key, orders, &summary);
        key.push(sf[k].source_start as i128);
        key.push(k as i128);
        proof {
            assert(key@ =~= composite_key(sf@, orders@, k as int));
        }
        keys.push(key);
        k = k + 1;
    }
    keys
}

// ---------------------------------------------------------------------------
// The sort.

/// Orders task records as trees (see the module documentation); `facts[i]`
/// describes `records[i]`.  The records are first put in document order
/// (`order`), then ordered by the composite keys of that order (`tree`); the
/// record at position `q` is the one at `order[tree[q]]`.
pub fn sort_task_records_by<T>(records: &mut Vec<T>, orders: &Vec<TaskSortOrder>, facts: &Vec<TaskSortFacts>)
    requires
        old(records).len() == facts.len(),
    ensures
        final(records).len() == old(records).len(),
        exists|order: Seq<int>, tree: Seq<int>|
            sorted_permutation(document_order_keys(facts@), order) && sorted_permutation(
                composite_keys(reordered(facts@, order), orders@),
                tree,
            ) && forall|q: int| 0 <= q < final(records).len() ==> #[trigger] final(records)@[q]
                == old(records)@[order[tree[q]]],
{
    let n = facts.len();
    let mut positions: Vec<usize> = Vec::new();
    let mut doc_keys: Vec<Vec<i128>> = Vec::new();
    let mut i: usize = 0;
    while i < n
        invariant
            i <= n,
            n == facts.len(),
            positions.len() == i,
            doc_keys.len() == i,
            forall|j: int| 0 <= j < i ==> #[trigger] positions@[j] == j,
            forall|j: int| 0 <= j < i ==> #[trigger] doc_keys@[j]@ == document_order_key(facts@[j]),
        decreases n - i,
    {
        let mut key: Vec<i128> = Vec::new();
        let document = chars_of(facts[i].document.as_str());
        push_str_key(&mut key, &document);
        key.push(facts[i].source_start as i128);
        proof {
            assert(key@ =~= document_order_key(facts@[i as int]));
        }
        doc_keys.push(key);
        positions.push(i);
        i = i + 1;
    }
    let ghost pos0 = positions@;
    let order = sort_by_keys(positions, &doc_keys);
    let ghost gorder = usize_seq(order@);
    proof {
        let ks = doc_keys@.map_values(|k: Vec<i128>| k@);
        assert(ks =~= document_order_keys(facts@));
        let perm = choose|perm: Seq<int>| sorted_permutation(ks, perm) && permuted(pos0, order@, perm);
        assert(gorder =~= perm);
    }
    let mut sf: Vec<TaskSortFacts> = Vec::new();
    let mut k: usize = 0;
    while k < n
        invariant
            k <= n,
            n == facts.len(),
            order.len() == n,
            gorder == usize_seq(order@),
            sorted_permutation(document_order_keys(facts@), gorder),
            sf.len() == k,
            forall|x: int| 0 <= x < k ==> #[trigger] sf@[x] == facts@[gorder[x]],
        decreases n - k,
    {
        assert(gorder[k as int] == order@[k as int] as int);
        sf.push(copy_facts(&facts[order[k]]));
        k = k + 1;
    }
    proof {
        assert(sf@ =~= reordered(facts@, gorder));
    }
    let keys = composite_keys_exec(&sf, orders);
    let mut tree_positions: Vec<usize> = Vec::new();
    let mut k2: usize = 0;
    while k2 < n
        invariant
            k2 <= n,
            tree_positions.len() == k2,
            forall|j: int| 0 <= j < k2 ==> #[trigger] tree_positions@[j] == j,
        decreases n - k2,
    {
        tree_positions.push(k2);
        k2 = k2 + 1;
    }
    let ghost tpos0 = tree_positions@;
    let tree = sort_by_keys(tree_positions, &keys);
    let ghost gtree = usize_seq(tree@);
    proof {
        let ks = keys@.map_values(|k: Vec<i128>| k@);
        assert(ks =~= composite_keys(reordered(facts@, gorder), orders@));
        let perm = choose|perm: Seq<int>| sorted_permutation(ks, perm) && permuted(tpos0, tree@, perm);
        assert(gtree =~= perm);
    }
    let mut final_order: Vec<usize> = Vec::new();
    let mut q: usize = 0;
    while q < n
        invariant
            q <= n,
            order.len() == n,
            tree.len() == n,
            gorder == usize_seq(order@),
            gtree == usize_seq(tree@),
            is_permutation(gorder, n as int),
            is_permutation(gtree, n as int),
            final_order.len() == q,
            forall|x: int| 0 <= x < q ==> #[trigger] final_order@[x] as int == gorder[gtree[x]],
        decreases n - q,
    {
        assert(gtree[q as int] == tree@[q as int] as int);
        assert(gorder[gtree[q as int]] == order@[tree@[q as int] as int] as int);
        final_order.push(order[tree[q]]);
        q = q + 1;
    }
    proof {
        let f = usize_seq(final_order@);
        assert forall|x: int| 0 <= x < n implies 0 <= #[trigger] f[x] < n by {
            assert(f[x] == gorder[gtree[x]]);
        }
        assert forall|a: int, b: int| 0 <= a < n && 0 <= b < n && a != b implies f[a] != f[b] by {
            assert(f[a] == gorder[gtree[a]]);
            assert(f[b] == gorder[gtree[b]]);
            assert(gtree[a] != gtree[b]);
        }
    }
    let ghost old_records = records@;
    let mut taken: Vec<T> = Vec::new();
    std::mem::swap(&mut taken, records);
    let sorted = apply_permutation(taken, &final_order);
    *records = sorted;
    proof {
        assert forall|x: int| 0 <= x < records.len() implies #[trigger] records@[x] == old_records[gorder[gtree[x]]] by {
            assert(final_order@[x] as int == gorder[gtree[x]]);
        }
    }
}

/// Orders task records by one sort key; `Priority` falls back to `Due`.
pub fn sort_task_records<T>(records: &mut Vec<T>, order: TaskSortOrder, facts: &Vec<TaskSortFacts>)
    requires
        old(records).len() == facts.len(),
    ensures
        final(records).len() == old(records).len(),
        exists|o: Seq<int>, tree: Seq<int>|
            sorted_permutation(document_order_keys(facts@), o) && sorted_permutation(
                composite_keys(reordered(facts@, o), expanded_orders(order)),
                tree,
            ) && forall|q: int| 0 <= q < final(records).len() ==> #[trigger] final(records)@[q]
                == old(records)@[o[tree[q]]],
{
    let orders: Vec<TaskSortOrder> = match order {
        TaskSortOrder::Priority => vec![TaskSortOrder::Priority, TaskSortOrder::Due],
        other => vec![other],
    };
    assert(orders@ =~= expanded_orders(order));
    sort_task_records_by(records, &orders, facts);
}

/// The sort keys one order stands for.
pub open spec fn expanded_orders(order: TaskSortOrder) -> Seq<TaskSortOrder> {
    match order {
        TaskSortOrder::Priority => seq![TaskSortOrder::Priority, TaskSortOrder::Due],
        other => seq![other],
    }
}

/// A task comes before every task of its subtree: its composite key is a
/// proper prefix of theirs.
pub proof fn lemma_parent_before_child(sf: Seq<TaskSortFacts>, orders: Seq<TaskSortOrder>, k: int, j: int)
    requires
        parent_pos(sf, k, j),
    ensures
        lex_lt(composite_key(sf, orders, j), composite_key(sf, orders, k)),
{
    let c = choose|c: int| parent_pos(sf, k, c);
    lemma_parent_unique(sf, k, c, j);
    let p = composite_key(sf, orders, j);
    let s = sibling_key(sf, orders, k);
    assert(p + Seq::<i128>::empty() == p);
    crate::order::lemma_lex_common_prefix(p, Seq::<i128>::empty(), s);
}

/// Of two subtrees (or documents), one that holds a focused task comes
/// before one that does not, whatever the sort keys and whatever follows.
pub proof fn lemma_focused_first(
    orders: Seq<TaskSortOrder>,
    focused: Summary,
    other: Summary,
    x: Seq<i128>,
    y: Seq<i128>,
)
    requires
        focused.focused,
        !other.focused,
    ensures
        lex_lt(summary_key(orders, focused) + x, summary_key(orders, other) + y),
{
    let a = summary_key(orders, focused) + x;
    let b = summary_key(orders, other) + y;
    assert(a[0] == 0i128);
    assert(b[0] == 1i128);
}

// ---------------------------------------------------------------------------
// Documents stay together.

proof fn lemma_order_key_decided(o: TaskSortOrder, s: Summary, t: Summary)
    ensures
        order_key(o, s) == order_key(o, t) || decided(order_key(o, s), order_key(o, t)),
{
    let u = order_key(o, s);
    let v = order_key(o, t);
    if u != v {
        match o {
            TaskSortOrder::Priority => {
                assert(u[0] != v[0]);
            },
            TaskSortOrder::Due => {
                if u[0] == v[0] {
                    if u[1] == v[1] {
                        assert(u[2] != v[2]);
                        assert(forall|k: int| 0 <= k < 2 ==> #[trigger] u[k] == v[k]);
                    } else {
                        assert(forall|k: int| 0 <= k < 1 ==> #[trigger] u[k] == v[k]);
                    }
                }
            },
            TaskSortOrder::Relevance => {
                if u[0] == v[0] {
                    assert(u[1] != v[1]);
                    assert(forall|k: int| 0 <= k < 1 ==> #[trigger] u[k] == v[k]);
                }
            },
            TaskSortOrder::Source => {
                assert(u =~= v);
            },
        }
        assert(forall|k: int| 0 <= k < 0 ==> #[trigger] u[k] == v[k]);
    }
}

proof fn lemma_summary_key_decided(orders: Seq<TaskSortOrder>, s: Summary, t: Summary)
    ensures
        summary_key(orders, s) == summary_key(orders, t) || decided(summary_key(orders, s), summary_key(orders, t)),
    decreases orders.len(),
{
    if orders.len() > 0 {
        lemma_summary_key_decided(orders.drop_last(), s, t);
        lemma_order_key_decided(orders.last(), s, t);
        let ps = summary_key(orders.drop_last(), s);
        let pt = summary_key(orders.drop_last(), t);
        let os = order_key(orders.last(), s);
        let ot = order_key(orders.last(), t);
        let hs: Seq<i128> = seq![if s.focused { 0i128 } else { 1i128 }];
        let ht: Seq<i128> = seq![if t.focused { 0i128 } else { 1i128 }];
        assert(summary_key(orders, s) == ps + os);
        assert(summary_key(orders, t) == pt + ot);
        if ps != pt {
            lemma_decided_extend(ps, pt, os, ot);
        } else if os != ot {
            lemma_decided_after(ps, os, ot);
        }
    } else {
        let u = summary_key(orders, s);
        let v = summary_key(orders, t);
        if u != v {
            assert(u[0] != v[0]) by {
                if u[0] == v[0] {
                    assert(u =~= v);
                }
            }
            assert(forall|k: int| 0 <= k < 0 ==> #[trigger] u[k] == v[k]);
        }
    }
}

proof fn lemma_document_keys_decided(sf: Seq<TaskSortFacts>, orders: Seq<TaskSortOrder>, a: int, b: int)
    requires
        0 <= a < sf.len(),
        0 <= b < sf.len(),
        sf[a].document@ != sf[b].document@,
    ensures
        decided(document_key(sf, orders, a), document_key(sf, orders, b)),
{
    let sa = summary_key(orders, document_group_summary(sf, sf[a].document@));
    let sb = summary_key(orders, document_group_summary(sf, sf[b].document@));
    lemma_summary_key_decided(orders, document_group_summary(sf, sf[a].document@), document_group_summary(sf, sf[b].document@));
    if sa != sb {
        lemma_decided_extend(sa, sb, str_key(sf[a].document@), str_key(sf[b].document@));
    } else {
        lemma_str_key_decided(sf[a].document@, sf[b].document@);
        lemma_decided_after(sa, str_key(sf[a].document@), str_key(sf[b].document@));
    }
}

proof fn lemma_composite_starts_with_document(sf: Seq<TaskSortFacts>, orders: Seq<TaskSortOrder>, k: int)
    requires
        0 <= k < sf.len(),
    ensures
        exists|r: Seq<i128>| composite_key(sf, orders, k) == document_key(sf, orders, k) + r,
    decreases k,
{
    if exists|j: int| parent_pos(sf, k, j) {
        let j = choose|j: int| parent_pos(sf, k, j);
        lemma_composite_starts_with_document(sf, orders, j);
        let r = choose|r: Seq<i128>| composite_key(sf, orders, j) == document_key(sf, orders, j) + r;
        assert(document_key(sf, orders, j) == document_key(sf, orders, k));
        let sib = sibling_key(sf, orders, k);
        assert(composite_key(sf, orders, k) == document_key(sf, orders, k) + (r + sib));
    } else {
        assert(composite_key(sf, orders, k) == document_key(sf, orders, k) + sibling_key(sf, orders, k));
    }
}

/// After the tree sort (document order `order`, then the composite keys'
/// order `tree`, as `sort_task_records_by` promises), the records of one
/// document stand together: a record between two records of a document
/// belongs to that document.
pub proof fn lemma_documents_contiguous(
    facts: Seq<TaskSortFacts>,
    orders: Seq<TaskSortOrder>,
    order: Seq<int>,
    tree: Seq<int>,
    q1: int,
    q2: int,
    q3: int,
)
    requires
        sorted_permutation(document_order_keys(facts), order),
        sorted_permutation(composite_keys(reordered(facts, order), orders), tree),
        0 <= q1 < q2 < q3 < tree.len(),
        facts[order[tree[q1]]].document@ == facts[order[tree[q3]]].document@,
    ensures
        facts[order[tree[q2]]].document@ == facts[order[tree[q1]]].document@,
{
    let sf = reordered(facts, order);
    let keys = composite_keys(sf, orders);
    let (a, b, c) = (tree[q1], tree[q2], tree[q3]);
    assert(sf[a] == facts[order[a]] && sf[b] == facts[order[b]] && sf[c] == facts[order[c]]);
    if sf[b].document@ != sf[a].document@ {
        assert(index_before(keys, a, b));
        assert(index_before(keys, b, c));
        lemma_composite_starts_with_document(sf, orders, a);
        lemma_composite_starts_with_document(sf, orders, b);
        lemma_composite_starts_with_document(sf, orders, c);
        let ra = choose|r: Seq<i128>| composite_key(sf, orders, a) == document_key(sf, orders, a) + r;
        let rb = choose|r: Seq<i128>| composite_key(sf, orders, b) == document_key(sf, orders, b) + r;
        let rc = choose|r: Seq<i128>| composite_key(sf, orders, c) == document_key(sf, orders, c) + r;
        let da = document_key(sf, orders, a);
        let db = document_key(sf, orders, b);
        assert(document_key(sf, orders, c) == da);
        lemma_document_keys_decided(sf, orders, a, b);
        lemma_decided_extend(da, db, ra, rb);
        lemma_decided_extend(db, da, rb, rc);
        lemma_lex_asymmetric(da, db);
    }
}

// ---------------------------------------------------------------------------
// Subtrees stay together.

/// In document order, `m` is `k` or lies in `k`'s subtree: following parents
/// from `m` reaches `k`.
pub open spec fn in_subtree(sf: Seq<TaskSortFacts>, k: int, m: int) -> bool
    decreases m,
{
    if m == k {
        0 <= k < sf.len()
    } else if exists|j: int| parent_pos(sf, m, j) {
        in_subtree(sf, k, choose|j: int| parent_pos(sf, m, j))
    } else {
        false
    }
}

proof fn lemma_composite_parent(sf: Seq<TaskSortFacts>, orders: Seq<TaskSortOrder>, m: int, j: int)
    requires
        parent_pos(sf, m, j),
    ensures
        composite_key(sf, orders, m) == composite_key(sf, orders, j) + sibling_key(sf, orders, m),
{
    let c = choose|c: int| parent_pos(sf, m, c);
    lemma_parent_unique(sf, m, c, j);
}

proof fn lemma_sibling_keys_decided(sf: Seq<TaskSortFacts>, orders: Seq<TaskSortOrder>, x: int, y: int)
    requires
        sf.len() <= usize::MAX,
        0 <= x < sf.len(),
        0 <= y < sf.len(),
        x != y,
    ensures
        decided(sibling_key(sf, orders, x), sibling_key(sf, orders, y)),
{
    let sx = summary_key(orders, range_summary(sf, x, subtree_end(sf, x)));
    let sy = summary_key(orders, range_summary(sf, y, subtree_end(sf, y)));
    let tx: Seq<i128> = seq![sf[x].source_start as i128, x as i128];
    let ty: Seq<i128> = seq![sf[y].source_start as i128, y as i128];
    lemma_summary_key_decided(orders, range_summary(sf, x, subtree_end(sf, x)), range_summary(sf, y, subtree_end(sf, y)));
    if sx != sy {
        lemma_decided_extend(sx, sy, tx, ty);
    } else {
        if tx[0] != ty[0] {
            assert(forall|k: int| 0 <= k < 0 ==> #[trigger] tx[k] == ty[k]);
        } else {
            assert(tx[1] != ty[1]);
            assert(forall|k: int| 0 <= k < 1 ==> #[trigger] tx[k] == ty[k]);
        }
        lemma_decided_after(sx, tx, ty);
    }
}

proof fn lemma_subtree_prefix(sf: Seq<TaskSortFacts>, orders: Seq<TaskSortOrder>, k: int, m: int)
    requires
        in_subtree(sf, k, m),
    ensures
        0 <= k <= m < sf.len(),
        exists|r: Seq<i128>| composite_key(sf, orders, m) == composite_key(sf, orders, k) + r && (m != k ==> r.len() > 0),
    decreases m,
{
    if m == k {
        assert(composite_key(sf, orders, m) == composite_key(sf, orders, k) + Seq::<i128>::empty());
    } else {
        let j = choose|j: int| parent_pos(sf, m, j);
        lemma_subtree_prefix(sf, orders, k, j);
        lemma_composite_parent(sf, orders, m, j);
        let r = choose|r: Seq<i128>| composite_key(sf, orders, j) == composite_key(sf, orders, k) + r && (j != k ==> r.len() > 0);
        let sib = sibling_key(sf, orders, m);
        assert(composite_key(sf, orders, m) == composite_key(sf, orders, k) + (r + sib));
    }
}

proof fn lemma_child_on_path(sf: Seq<TaskSortFacts>, orders: Seq<TaskSortOrder>, p: int, a: int)
    requires
        in_subtree(sf, p, a),
        p != a,
    ensures
        exists|c: int, r: Seq<i128>|
            parent_pos(sf, c, p) && c <= a && composite_key(sf, orders, a) == composite_key(sf, orders, p) + sibling_key(sf, orders, c) + r,
    decreases a,
{
    let j = choose|j: int| parent_pos(sf, a, j);
    lemma_composite_parent(sf, orders, a, j);
    lemma_subtree_prefix(sf, orders, p, j);
    if j == p {
        assert(composite_key(sf, orders, a) == composite_key(sf, orders, p) + sibling_key(sf, orders, a) + Seq::<i128>::empty());
    } else {
        lemma_child_on_path(sf, orders, p, j);
        let (c, r) = choose|c: int, r: Seq<i128>|
            parent_pos(sf, c, p) && c <= j && composite_key(sf, orders, j) == composite_key(sf, orders, p) + sibling_key(sf, orders, c) + r;
        let sib = sibling_key(sf, orders, a);
        assert(composite_key(sf, orders, a) == composite_key(sf, orders, p) + sibling_key(sf, orders, c) + (r + sib));
    }
}

proof fn lemma_root_on_path(sf: Seq<TaskSortFacts>, orders: Seq<TaskSortOrder>, a: int)
    requires
        0 <= a < sf.len(),
    ensures
        exists|ra: int, r: Seq<i128>|
            0 <= ra <= a && !(exists|j: int| parent_pos(sf, ra, j)) && in_subtree(sf, ra, a) && composite_key(sf, orders, a)
                == document_key(sf, orders, a) + sibling_key(sf, orders, ra) + r,
    decreases a,
{
    if exists|j: int| parent_pos(sf, a, j) {
        let j = choose|j: int| parent_pos(sf, a, j);
        lemma_composite_parent(sf, orders, a, j);
        lemma_root_on_path(sf, orders, j);
        let (ra, r) = choose|ra: int, r: Seq<i128>|
            0 <= ra <= j && !(exists|i: int| parent_pos(sf, ra, i)) && in_subtree(sf, ra, j) && composite_key(sf, orders, j)
                == document_key(sf, orders, j) + sibling_key(sf, orders, ra) + r;
        assert(document_key(sf, orders, j) == document_key(sf, orders, a));
        let sib = sibling_key(sf, orders, a);
        assert(composite_key(sf, orders, a) == document_key(sf, orders, a) + sibling_key(sf, orders, ra) + (r + sib));
        assert(in_subtree(sf, ra, a));
    } else {
        assert(composite_key(sf, orders, a) == document_key(sf, orders, a) + sibling_key(sf, orders, a) + Seq::<i128>::empty());
    }
}

proof fn lemma_keys_related_ordered(sf: Seq<TaskSortFacts>, orders: Seq<TaskSortOrder>, a: int, b: int)
    requires
        sf.len() <= usize::MAX,
        0 <= a < b < sf.len(),
    ensures
        in_subtree(sf, a, b) || in_subtree(sf, b, a) || decided(composite_key(sf, orders, a), composite_key(sf, orders, b)),
    decreases b,
{
    let ca = composite_key(sf, orders, a);
    let cb = composite_key(sf, orders, b);
    let e: Seq<i128> = Seq::empty();
    if exists|j: int| parent_pos(sf, b, j) {
        let pb = choose|j: int| parent_pos(sf, b, j);
        lemma_composite_parent(sf, orders, b, pb);
        let cp = composite_key(sf, orders, pb);
        let sb = sibling_key(sf, orders, b);
        if a == pb {
            assert(in_subtree(sf, a, pb));
        } else {
            if a < pb {
                lemma_keys_related_ordered(sf, orders, a, pb);
            } else {
                lemma_keys_related_ordered(sf, orders, pb, a);
            }
            if in_subtree(sf, a, pb) {
                assert(in_subtree(sf, a, b));
            } else if in_subtree(sf, pb, a) {
                lemma_child_on_path(sf, orders, pb, a);
                let (c, r) = choose|c: int, r: Seq<i128>|
                    parent_pos(sf, c, pb) && c <= a && ca == cp + sibling_key(sf, orders, c) + r;
                lemma_sibling_keys_decided(sf, orders, c, b);
                lemma_decided_extend(sibling_key(sf, orders, c), sb, r, e);
                lemma_decided_after(cp, sibling_key(sf, orders, c) + r, sb + e);
                assert(ca == cp + (sibling_key(sf, orders, c) + r));
                assert(cb == cp + (sb + e));
            } else {
                if a > pb {
                    lemma_decided_extend(cp, ca, e, e);
                    assert(decided(ca, cp));
                }
                lemma_decided_extend(ca, cp, e, sb);
                assert(ca + e == ca);
            }
        }
    } else {
        lemma_root_on_path(sf, orders, a);
        let (ra, r) = choose|ra: int, r: Seq<i128>|
            0 <= ra <= a && !(exists|j: int| parent_pos(sf, ra, j)) && in_subtree(sf, ra, a) && ca == document_key(sf, orders, a)
                + sibling_key(sf, orders, ra) + r;
        let da = document_key(sf, orders, a);
        let db = document_key(sf, orders, b);
        assert(cb == db + sibling_key(sf, orders, b));
        if sf[a].document@ != sf[b].document@ {
            lemma_document_keys_decided(sf, orders, a, b);
            lemma_decided_extend(da, db, sibling_key(sf, orders, ra) + r, sibling_key(sf, orders, b));
            assert(ca == da + (sibling_key(sf, orders, ra) + r));
        } else {
            assert(da == db);
            assert(ra != b);
            lemma_sibling_keys_decided(sf, orders, ra, b);
            lemma_decided_extend(sibling_key(sf, orders, ra), sibling_key(sf, orders, b), r, e);
            lemma_decided_after(da, sibling_key(sf, orders, ra) + r, sibling_key(sf, orders, b) + e);
            assert(ca == da + (sibling_key(sf, orders, ra) + r));
            assert(cb == da + (sibling_key(sf, orders, b) + e));
        }
    }
}

proof fn lemma_keys_related(sf: Seq<TaskSortFacts>, orders: Seq<TaskSortOrder>, a: int, b: int)
    requires
        sf.len() <= usize::MAX,
        0 <= a < sf.len(),
        0 <= b < sf.len(),
    ensures
        in_subtree(sf, a, b) || in_subtree(sf, b, a) || decided(composite_key(sf, orders, a), composite_key(sf, orders, b)),
{
    let e: Seq<i128> = Seq::empty();
    if a < b {
        lemma_keys_related_ordered(sf, orders, a, b);
    } else if b < a {
        lemma_keys_related_ordered(sf, orders, b, a);
        if decided(composite_key(sf, orders, b), composite_key(sf, orders, a)) {
            lemma_decided_extend(composite_key(sf, orders, b), composite_key(sf, orders, a), e, e);
        }
    }
}

/// After the tree sort (document order `order`, then the composite keys'
/// order `tree`, as `sort_task_records_by` promises), a task's subtree
/// stands together: a record between two records of the subtree of the
/// task at `k` (in document order) is in that subtree.
pub proof fn lemma_subtrees_contiguous(
    facts: Seq<TaskSortFacts>,
    orders: Seq<TaskSortOrder>,
    order: Seq<int>,
    tree: Seq<int>,
    k: int,
    q1: int,
    q2: int,
    q3: int,
)
    requires
        facts.len() <= usize::MAX,
        sorted_permutation(document_order_keys(facts), order),
        sorted_permutation(composite_keys(reordered(facts, order), orders), tree),
        0 <= q1 < q2 < q3 < tree.len(),
        in_subtree(reordered(facts, order), k, tree[q1]),
        in_subtree(reordered(facts, order), k, tree[q3]),
    ensures
        in_subtree(reordered(facts, order), k, tree[q2]),
{
    let sf = reordered(facts, order);
    let keys = composite_keys(sf, orders);
    let (a, b, c) = (tree[q1], tree[q2], tree[q3]);
    lemma_subtree_prefix(sf, orders, k, a);
    lemma_subtree_prefix(sf, orders, k, c);
    if !in_subtree(sf, k, b) {
        assert(index_before(keys, a, b));
        assert(index_before(keys, b, c));
        let ck = composite_key(sf, orders, k);
        let cb = composite_key(sf, orders, b);
        let ra = choose|r: Seq<i128>| composite_key(sf, orders, a) == ck + r && (a != k ==> r.len() > 0);
        let rc = choose|r: Seq<i128>| composite_key(sf, orders, c) == ck + r && (c != k ==> r.len() > 0);
        lemma_keys_related(sf, orders, k, b);
        if in_subtree(sf, b, k) {
            lemma_subtree_prefix(sf, orders, b, k);
            let rk = choose|r: Seq<i128>| ck == cb + r && (k != b ==> r.len() > 0);
            lemma_lex_common_prefix(cb, Seq::<i128>::empty(), rk + ra);
            assert(cb + Seq::<i128>::empty() == cb);
            assert(composite_key(sf, orders, a) == cb + (rk + ra));
            lemma_lex_asymmetric(cb, composite_key(sf, orders, a));
            lemma_lex_irreflexive(cb);
        } else {
            let e: Seq<i128> = Seq::empty();
            lemma_decided_extend(ck, cb, ra, e);
            lemma_decided_extend(cb, ck, e, rc);
            assert(cb + e == cb);
            lemma_lex_asymmetric(ck, cb);
        }
    }
}

/// After the tree sort, a task comes before every other record of its
/// subtree.
pub proof fn lemma_subtree_root_first(
    facts: Seq<TaskSortFacts>,
    orders: Seq<TaskSortOrder>,
    order: Seq<int>,
    tree: Seq<int>,
    q0: int,
    q: int,
)
    requires
        sorted_permutation(document_order_keys(facts), order),
        sorted_permutation(composite_keys(reordered(facts, order), orders), tree),
        0 <= q0 < tree.len(),
        0 <= q < tree.len(),
        in_subtree(reordered(facts, order), tree[q0], tree[q]),
        tree[q] != tree[q0],
    ensures
        q0 < q,
{
    let sf = reordered(facts, order);
    let keys = composite_keys(sf, orders);
    let (k, m) = (tree[q0], tree[q]);
    lemma_subtree_prefix(sf, orders, k, m);
    let ck = composite_key(sf, orders, k);
    let r = choose|r: Seq<i128>| composite_key(sf, orders, m) == ck + r && (m != k ==> r.len() > 0);
    lemma_lex_common_prefix(ck, Seq::<i128>::empty(), r);
    assert(ck + Seq::<i128>::empty() == ck);
    if q < q0 {
        assert(index_before(keys, m, k));
        lemma_lex_asymmetric(ck, composite_key(sf, orders, m));
    }
}

} // verus!
