//! One page of tasks: the tasks that passed a query's filters (with their
//! outline ancestors for a tree page), their effective priorities among
//! themselves, the page order, the cursor the page resumes after, the limit
//! that keeps documents whole, and the cursor that continues the page.
use vstd::prelude::*;
use crate::cursor::{
    apply_cursor, cursor_outcome, cursor_text, encode_cursor, path_identity_spec, path_texts, sha256,
    signature_message, TaskPageQuery, TaskPageQueryError, TaskQueryFilter, TaskQueryFilterGroup,
};
use crate::filters::{
    cel_may_give, compile_filter_groups, evaluate_cel, FilterValueView, filters_compile, first_compile_error, instants_held, task_filter_variables, task_variables,
    variables_view, FilterValue, TaskFilterFacts,
};
use crate::paths::{display_relative, display_workspace_path};
use crate::search::{field_views, search_score, search_score_spec};
use crate::graph::{adjacency, edge, is_reach_max, propagate_max, reaches, reaches_rel, unmarked, well_formed};
use crate::order::sorted_permutation;
use crate::task_sort::{complete_document_end, doc_texts, truncate_complete_task_documents, TaskSortFacts};
use crate::task_tree::{composite_keys, document_order_keys, reordered, sort_task_records_by};
use crate::text::{chars_of, extend_chars, string_from_chars};
use crate::time::Timestamp;

verus! {

/// What a page reads of one task.
#[derive(Debug)]
pub struct PageFact {
    /// The path of its document.
    pub path: String,
    /// The order key of its document.
    pub document_order: String,
    /// Whether it is the task of the document itself.
    pub document_task: bool,
    /// Where it starts in its document.
    pub start: usize,
    /// Its depth in the outline.
    pub depth: usize,
    /// Whether it is focused.
    pub focused: bool,
    /// Its own priority.
    pub priority: Option<i32>,
    /// The position of its outline parent among the facts.
    pub parent: Option<usize>,
    /// The positions of the open tasks it depends on.
    pub open_dependencies: Vec<usize>,
    /// When it is due.
    pub due: Option<Timestamp>,
    /// How well it matched the query's text.
    pub relevance: i64,
}

/// Every position a fact names is one of the facts.
pub open spec fn page_facts_well_formed(facts: Seq<PageFact>) -> bool {
    forall|i: int| 0 <= i < facts.len() ==> {
        &&& (#[trigger] facts[i]).parent matches Some(p) ==> (p as int) < facts.len()
        &&& forall|k: int| 0 <= k < facts[i].open_dependencies@.len() ==> (#[trigger] facts[i].open_dependencies@[k] as int) < facts.len()
    }
}

/// `matched` lists distinct positions of facts.
pub open spec fn matched_well_formed(facts: Seq<PageFact>, matched: Seq<usize>) -> bool {
    &&& matched.no_duplicates()
    &&& forall|k: int| 0 <= k < matched.len() ==> (#[trigger] matched[k] as int) < facts.len()
}

// ---------------------------------------------------------------------------
// The members of a page.

/// `r` lists the members of a page: the matched tasks first, each task
/// once; for a tree page, also every outline ancestor of a member, each
/// added as the parent of a member before it.
pub open spec fn is_page_members(facts: Seq<PageFact>, matched: Seq<usize>, include_ancestors: bool, r: Seq<usize>) -> bool {
    &&& r.len() >= matched.len()
    &&& r.take(matched.len() as int) == matched
    &&& r.no_duplicates()
    &&& forall|k: int| 0 <= k < r.len() ==> (#[trigger] r[k] as int) < facts.len()
    &&& if !include_ancestors {
        r == matched
    } else {
        &&& forall|k: int| 0 <= k < r.len() && (#[trigger] facts[r[k] as int]).parent is Some ==> r.contains(
            facts[r[k] as int].parent->0,
        )
        &&& exists|w: Seq<int>| #[trigger] added_as_parents(facts, matched.len() as int, r, w)
    }
}

/// `w` shows that every member after the first `m` is the parent of an
/// earlier member: member `w[k]` has parent `r[k]`.
pub open spec fn added_as_parents(facts: Seq<PageFact>, m: int, r: Seq<usize>, w: Seq<int>) -> bool {
    &&& w.len() == r.len()
    &&& forall|k: int| #![trigger w[k]] m <= k < r.len() ==> 0 <= w[k] < k && facts[r[w[k]] as int].parent == Some(r[k])
}

proof fn lemma_unmarked_all_false(v: Seq<bool>)
    requires
        forall|i: int| 0 <= i < v.len() ==> !v[i],
    ensures
        unmarked(v) == v.len(),
    decreases v.len(),
{
    if v.len() > 0 {
        lemma_unmarked_all_false(v.drop_last());
    }
}

proof fn lemma_unmarked_bound(v: Seq<bool>)
    ensures
        unmarked(v) <= v.len(),
    decreases v.len(),
{
    if v.len() > 0 {
        lemma_unmarked_bound(v.drop_last());
    }
}

fn matched_members(facts: &Vec<PageFact>, matched: &Vec<usize>) -> (result: (Vec<usize>, Vec<bool>))
    requires
        matched_well_formed(facts@, matched@),
    ensures
        result.0@ == matched@,
        result.1.len() == facts.len(),
        forall|x: int| 0 <= x < facts.len() ==> (result.1@[x] <==> result.0@.contains(x as usize)),
        result.0.len() + unmarked(result.1@) == facts.len(),
{
    let n = facts.len();
    let mut r: Vec<usize> = Vec::new();
    let mut included: Vec<bool> = Vec::new();
    let mut i: usize = 0;
    while i < n
        invariant
            i <= n,
            included.len() == i,
            forall|x: int| 0 <= x < i ==> !included@[x],
        decreases n - i,
    {
        included.push(false);
        i = i + 1;
    }
    proof {
        lemma_unmarked_all_false(included@);
    }
    let mut k: usize = 0;
    while k < matched.len()
        invariant
            n == facts.len(),
            matched_well_formed(facts@, matched@),
            k <= matched.len(),
            r@ == matched@.take(k as int),
            included.len() == n,
            forall|x: int| 0 <= x < n ==> (included@[x] <==> r@.contains(x as usize)),
            r.len() + unmarked(included@) == n,
        decreases matched.len() - k,
    {
        let m = matched[k];
        assert(!r@.contains(m)) by {
            if r@.contains(m) {
                let j = choose|j: int| 0 <= j < r@.len() && r@[j] == m;
                assert(matched@[j] == matched@[k as int]);
            }
        }
        proof {
            crate::graph::lemma_unmarked_update(included@, m as int);
        }
        let ghost before = r@;
        included.set(m, true);
        r.push(m);
        assert(r@ == matched@.take(k + 1));
        proof {
            assert forall|x: int| 0 <= x < n implies (included@[x] <==> r@.contains(x as usize)) by {
                if before.contains(x as usize) {
                    let j = choose|j: int| 0 <= j < before.len() && before[j] == x as usize;
                    assert(r@[j] == x as usize);
                }
                if r@.contains(x as usize) && x != m {
                    let j = choose|j: int| 0 <= j < r@.len() && r@[j] == x as usize;
                    assert(before[j] == x as usize);
                }
                if x == m {
                    assert(r@[r@.len() - 1] == m);
                }
            }
        }
        k = k + 1;
    }
    assert(matched@.take(matched.len() as int) == matched@);
    (r, included)
}

proof fn lemma_push_member(before: Seq<usize>, p: usize, inc: Seq<bool>, n: int)
    requires
        n <= usize::MAX,
        inc.len() == n,
        0 <= p < n,
        !inc[p as int],
        before.no_duplicates(),
        forall|x: int| 0 <= x < n ==> (inc[x] <==> before.contains(x as usize)),
    ensures
        before.push(p).no_duplicates(),
        forall|x: int| 0 <= x < n ==> (inc.update(p as int, true)[x] <==> before.push(p).contains(x as usize)),
{
    let r = before.push(p);
    assert forall|a: int, b: int| 0 <= a < b < r.len() implies r[a] != r[b] by {
        if b == r.len() - 1 {
            assert(before.contains(r[a]));
        }
    }
    assert forall|x: int| 0 <= x < n implies (inc.update(p as int, true)[x] <==> r.contains(x as usize)) by {
        if before.contains(x as usize) {
            let j = choose|j: int| 0 <= j < before.len() && before[j] == x as usize;
            assert(r[j] == x as usize);
        }
        if r.contains(x as usize) && x != p {
            let j = choose|j: int| 0 <= j < r.len() && r[j] == x as usize;
            assert(before[j] == x as usize);
        }
        if x == p {
            assert(r[r.len() - 1] == p);
        }
    }
}

fn add_ancestors(facts: &Vec<PageFact>, matched: &Vec<usize>, r: Vec<usize>, included: Vec<bool>) -> (out: Vec<usize>)
    requires
        page_facts_well_formed(facts@),
        matched_well_formed(facts@, matched@),
        r@ == matched@,
        included.len() == facts.len(),
        forall|x: int| 0 <= x < facts.len() ==> (included@[x] <==> r@.contains(x as usize)),
        r.len() + unmarked(included@) == facts.len(),
    ensures
        is_page_members(facts@, matched@, true, out@),
{
    let n = facts.len();
    let mut r = r;
    let mut included = included;
    assert(r@.take(matched.len() as int) == matched@);
    let mut idx: usize = 0;
    let ghost mut w: Seq<int> = Seq::new(r@.len(), |k: int| 0);
    while idx < r.len()
        invariant
            n == facts.len(),
            page_facts_well_formed(facts@),
            matched_well_formed(facts@, matched@),
            idx <= r.len(),
            r.len() >= matched.len(),
            r@.take(matched.len() as int) == matched@,
            r@.no_duplicates(),
            forall|q: int| 0 <= q < r.len() ==> (#[trigger] r@[q] as int) < n,
            included.len() == n,
            forall|x: int| 0 <= x < n ==> (included@[x] <==> r@.contains(x as usize)),
            r.len() + unmarked(included@) == n,
            forall|q: int| 0 <= q < idx && (#[trigger] facts@[r@[q] as int]).parent is Some ==> r@.contains(
                facts@[r@[q] as int].parent->0,
            ),
            added_as_parents(facts@, matched.len() as int, r@, w),
        decreases n - idx,
    {
        proof {
            lemma_unmarked_bound(included@);
        }
        let ghost before = r@;
        match facts[r[idx]].parent {
            Some(p) => {
                if !included[p] {
                    proof {
                        crate::graph::lemma_unmarked_update(included@, p as int);
                    }
                    proof {
                        lemma_push_member(before, p, included@, n as int);
                    }
                    included.set(p, true);
                    r.push(p);
                    proof {
                        assert(r@ == before.push(p));
                        assert(r@.take(matched.len() as int) == before.take(matched.len() as int));
                        let ghost old_w = w;
                        w = w.push(idx as int);
                        assert forall|k: int| #![trigger w[k]] matched.len() <= k < r@.len() implies 0 <= w[k] < k && facts@[r@[w[k]] as int].parent == Some(r@[k]) by {
                            if k < before.len() {
                                assert(w[k] == old_w[k]);
                                assert(r@[w[k]] == before[w[k]]);
                            } else {
                                assert(r@[idx as int] == before[idx as int]);
                            }
                        }
                    }
                }
            },
            None => {},
        }
        proof {
            assert forall|q: int| 0 <= q < idx + 1 && (#[trigger] facts@[r@[q] as int]).parent is Some implies r@.contains(
                facts@[r@[q] as int].parent->0,
            ) by {
                assert(r@[q] == before[q]);
                let p = facts@[r@[q] as int].parent->0;
                if q < idx {
                    assert(before.contains(p));
                    let j = choose|j: int| 0 <= j < before.len() && before[j] == p;
                    assert(r@[j] == p);
                } else {
                    assert(included@[p as int]);
                }
            }
        }
        idx = idx + 1;
    }
    assert(added_as_parents(facts@, matched.len() as int, r@, w));
    r
}

/// The members of a page (see `is_page_members`).
fn page_members(facts: &Vec<PageFact>, matched: &Vec<usize>, include_ancestors: bool) -> (r: Vec<usize>)
    requires
        page_facts_well_formed(facts@),
        matched_well_formed(facts@, matched@),
    ensures
        is_page_members(facts@, matched@, include_ancestors, r@),
{
    let (r, included) = matched_members(facts, matched);
    if !include_ancestors {
        assert(r@.take(matched.len() as int) == matched@);
        return r;
    }
    add_ancestors(facts, matched, r, included)
}


// ---------------------------------------------------------------------------
// Effective priority among the members.

/// Among the members `r`, priority flows from a task to its outline parent
/// and to the open tasks it depends on, when those are members too.
pub open spec fn member_edge(facts: Seq<PageFact>, r: Seq<usize>, a: int, b: int) -> bool {
    &&& 0 <= a < r.len()
    &&& 0 <= b < r.len()
    &&& (facts[r[a] as int].parent == Some(r[b]) || facts[r[a] as int].open_dependencies@.contains(r[b]))
}

pub open spec fn member_flow(facts: Seq<PageFact>, r: Seq<usize>) -> spec_fn(int, int) -> bool {
    |a: int, b: int| member_edge(facts, r, a, b)
}

/// A task's own priority (zero when it has none).
pub open spec fn page_own_priority(f: PageFact) -> i32 {
    match f.priority {
        Some(p) => p,
        None => 0,
    }
}

/// `e` is the effective priority of member `k`: the greatest own priority
/// of a member from which priority flows to it (itself included).
pub open spec fn is_member_priority(facts: Seq<PageFact>, r: Seq<usize>, k: int, e: i32) -> bool {
    &&& exists|u: int| 0 <= u < r.len() && #[trigger] reaches_rel(member_flow(facts, r), u, k) && page_own_priority(facts[r[u] as int]) == e
    &&& forall|u: int| 0 <= u < r.len() && #[trigger] reaches_rel(member_flow(facts, r), u, k) ==> page_own_priority(facts[r[u] as int]) <= e
}

fn position_of(r: &Vec<usize>, x: usize) -> (found: Option<usize>)
    ensures
        match found {
            Some(k) => k < r.len() && r@[k as int] == x,
            None => !r@.contains(x),
        },
{
    let mut k: usize = 0;
    while k < r.len()
        invariant
            k <= r.len(),
            forall|j: int| 0 <= j < k ==> r@[j] != x,
        decreases r.len() - k,
    {
        if r[k] == x {
            return Some(k);
        }
        k = k + 1;
    }
    None
}

fn member_graph(facts: &Vec<PageFact>, r: &Vec<usize>) -> (adj: Vec<Vec<usize>>)
    requires
        r@.no_duplicates(),
        forall|k: int| 0 <= k < r.len() ==> (#[trigger] r@[k] as int) < facts.len(),
    ensures
        adj.len() == r.len(),
        well_formed(adjacency(adj@)),
        forall|a: int, b: int| #[trigger] edge(adjacency(adj@), a, b) == member_edge(facts@, r@, a, b),
{
    let mut adj: Vec<Vec<usize>> = Vec::new();
    let mut a: usize = 0;
    while a < r.len()
        invariant
            a <= r.len(),
            r@.no_duplicates(),
            forall|k: int| 0 <= k < r.len() ==> (#[trigger] r@[k] as int) < facts.len(),
            adj.len() == a,
            forall|x: int, k: int| 0 <= x < a && 0 <= k < adj@[x]@.len() ==> (#[trigger] adj@[x]@[k] as int) < r.len(),
            forall|x: int, b: int| 0 <= x < a ==> (#[trigger] edge(adjacency(adj@), x, b) == member_edge(facts@, r@, x, b)),
        decreases r.len() - a,
    {
        let f = &facts[r[a]];
        let mut succ: Vec<usize> = Vec::new();
        match f.parent {
            Some(p) => match position_of(r, p) {
                Some(b) => succ.push(b),
                None => {},
            },
            None => {},
        }
        let ghost head = succ@;
        let mut k: usize = 0;
        while k < f.open_dependencies.len()
            invariant
                a < r.len(),
                f == facts@[r@[a as int] as int],
                r@.no_duplicates(),
                k <= f.open_dependencies.len(),
                head.len() <= 1,
                succ@.len() >= head.len(),
                succ@.take(head.len() as int) == head,
                forall|x: int| 0 <= x < succ@.len() ==> (#[trigger] succ@[x] as int) < r.len(),
                forall|x: int| 0 <= x < head.len() ==> f.parent == Some(r@[#[trigger] head[x] as int]),
                forall|x: int| head.len() <= x < succ@.len() ==> f.open_dependencies@.contains(r@[#[trigger] succ@[x] as int]),
                forall|m: int, b: int| #![trigger f.open_dependencies@[m], r@[b]] 0 <= m < k && 0 <= b < r.len() && f.open_dependencies@[m] == r@[b] ==> succ@.contains(b as usize),
            decreases f.open_dependencies.len() - k,
        {
            let d = f.open_dependencies[k];
            let ghost before = succ@;
            match position_of(r, d) {
                Some(b) => {
                    succ.push(b);
                    proof {
                        assert(succ@.take(head.len() as int) == before.take(head.len() as int));
                        assert forall|m: int, b2: int| #![trigger f.open_dependencies@[m], r@[b2]] 0 <= m < k + 1 && 0 <= b2 < r.len() && f.open_dependencies@[m] == r@[b2] implies succ@.contains(b2 as usize) by {
                            if m < k {
                                assert(before.contains(b2 as usize));
                                let x = choose|x: int| 0 <= x < before.len() && before[x] == b2 as usize;
                                assert(succ@[x] == b2 as usize);
                            } else {
                                assert(r@[b as int] == r@[b2]);
                                assert(succ@[succ@.len() - 1] == b);
                            }
                        }
                        assert forall|x: int| head.len() <= x < succ@.len() implies f.open_dependencies@.contains(r@[#[trigger] succ@[x] as int]) by {
                            if x < before.len() {
                                assert(succ@[x] == before[x]);
                            } else {
                                assert(f.open_dependencies@[k as int] == d);
                            }
                        }
                    }
                },
                None => {
                    proof {
                        assert forall|m: int, b2: int| #![trigger f.open_dependencies@[m], r@[b2]] 0 <= m < k + 1 && 0 <= b2 < r.len() && f.open_dependencies@[m] == r@[b2] implies succ@.contains(b2 as usize) by {
                            if m == k {
                                assert(r@.contains(d));
                            }
                        }
                    }
                },
            }
            k = k + 1;
        }
        let ghost old_adj = adj@;
        adj.push(succ);
        proof {
            let g = adjacency(adj@);
            assert(g[a as int] == succ@);
            assert forall|b: int| #[trigger] edge(g, a as int, b) == member_edge(facts@, r@, a as int, b) by {
                if edge(g, a as int, b) {
                    let x = choose|x: int| 0 <= x < succ@.len() && #[trigger] succ@[x] as int == b;
                    if x < head.len() {
                        assert(succ@[x] == head[x]);
                    }
                }
                if member_edge(facts@, r@, a as int, b) {
                    if f.parent == Some(r@[b]) {
                        let p = r@[b];
                        assert(head.len() == 1) by {
                            if head.len() == 0 {
                                assert(r@.contains(p));
                            }
                        }
                        assert(f.parent == Some(r@[head[0] as int]));
                        assert(r@[head[0] as int] == r@[b]);
                        assert(succ@[0] == head[0]);
                        assert(succ@[0] as int == b);
                    } else {
                        let m = choose|m: int| 0 <= m < f.open_dependencies@.len() && f.open_dependencies@[m] == r@[b];
                        assert(succ@.contains(b as usize));
                        let x = choose|x: int| 0 <= x < succ@.len() && succ@[x] == b as usize;
                        assert(succ@[x] as int == b);
                    }
                }
            }
            assert forall|x: int, b: int| 0 <= x < a + 1 implies (#[trigger] edge(adjacency(adj@), x, b) == member_edge(facts@, r@, x, b)) by {
                if x < a {
                    assert(adjacency(adj@)[x] == adjacency(old_adj)[x]);
                    assert(edge(adjacency(adj@), x, b) == edge(adjacency(old_adj), x, b));
                }
            }
            assert forall|x: int, k2: int| 0 <= x < a + 1 && 0 <= k2 < adj@[x]@.len() implies (#[trigger] adj@[x]@[k2] as int) < r.len() by {
                if x < a {
                    assert(adj@[x] == old_adj[x]);
                }
            }
        }
        a = a + 1;
    }
    proof {
        let g = adjacency(adj@);
        assert forall|x: int, k: int| 0 <= x < g.len() && 0 <= k < g[x].len() implies (#[trigger] g[x][k] as int) < g.len() by {
            assert(g[x] == adj@[x]@);
        }
        assert forall|x: int, b: int| #[trigger] edge(g, x, b) == member_edge(facts@, r@, x, b) by {
            if !(0 <= x < r.len()) {
            }
        }
    }
    adj
}

/// The effective priority of every member.
fn member_priorities(facts: &Vec<PageFact>, r: &Vec<usize>) -> (eff: Vec<i32>)
    requires
        r@.no_duplicates(),
        forall|k: int| 0 <= k < r.len() ==> (#[trigger] r@[k] as int) < facts.len(),
    ensures
        eff.len() == r.len(),
        forall|k: int| 0 <= k < r.len() ==> is_member_priority(facts@, r@, k, #[trigger] eff@[k]),
{
    let adj = member_graph(facts, r);
    let mut base: Vec<i32> = Vec::new();
    let mut i: usize = 0;
    while i < r.len()
        invariant
            i <= r.len(),
            base.len() == i,
            forall|k: int| 0 <= k < r.len() ==> (#[trigger] r@[k] as int) < facts.len(),
            forall|k: int| 0 <= k < i ==> #[trigger] base@[k] == page_own_priority(facts@[r@[k] as int]),
        decreases r.len() - i,
    {
        base.push(
            match facts[r[i]].priority {
                Some(p) => p,
                None => 0,
            },
        );
        i = i + 1;
    }
    let eff = propagate_max(&adj, &base);
    proof {
        let g = adjacency(adj@);
        let flow = member_flow(facts@, r@);
        assert forall|a: int, b: int| #[trigger] edge(g, a, b) == flow(a, b) by {
            assert(edge(g, a, b) == member_edge(facts@, r@, a, b));
        }
        assert forall|k: int| 0 <= k < r.len() implies is_member_priority(facts@, r@, k, #[trigger] eff@[k]) by {
            assert forall|w: int| #![trigger reaches_rel(flow, w, k)] #![trigger reaches(g, w, k)] true implies reaches(g, w, k) == reaches_rel(flow, w, k) by {
                crate::graph::lemma_reaches_rel(g, flow, w, k);
            }
            assert(is_reach_max(g, base@, k, eff@[k]));
            let u = choose|u: int| 0 <= u < base.len() && #[trigger] reaches(g, u, k) && base@[u] == eff@[k];
            assert(reaches_rel(flow, u, k));
            assert forall|w: int| 0 <= w < r.len() && #[trigger] reaches_rel(flow, w, k) implies page_own_priority(facts@[r@[w] as int]) <= eff@[k] by {
                assert(reaches(g, w, k));
                assert(base@[w] == page_own_priority(facts@[r@[w] as int]));
            }
        }
    }
    eff
}


// ---------------------------------------------------------------------------
// The page.

/// What the page order reads of each member: its document order, its
/// start (zero for a document's own task), depth, focus, effective
/// priority, due instant and relevance.
pub open spec fn member_sort_facts(facts: Seq<PageFact>, r: Seq<usize>, eff: Seq<i32>) -> Seq<TaskSortFacts> {
    Seq::new(
        r.len(),
        |k: int|
            TaskSortFacts {
                document: facts[r[k] as int].document_order,
                source_start: if facts[r[k] as int].document_task {
                    0
                } else {
                    facts[r[k] as int].start
                },
                depth: facts[r[k] as int].depth,
                focused: facts[r[k] as int].focused,
                priority: Some(eff[k]),
                due: facts[r[k] as int].due,
                relevance: Some(facts[r[k] as int].relevance),
            },
    )
}

/// `order` is the page order of the members (positions among them): the
/// task-tree order under the query's sort keys.
pub open spec fn is_page_order(
    facts: Seq<PageFact>,
    r: Seq<usize>,
    eff: Seq<i32>,
    orders: Seq<crate::task_sort::TaskSortOrder>,
    order: Seq<usize>,
) -> bool {
    let sf = member_sort_facts(facts, r, eff);
    exists|o: Seq<int>, tree: Seq<int>|
        sorted_permutation(document_order_keys(sf), o) && sorted_permutation(composite_keys(reordered(sf, o), orders), tree)
            && order.len() == r.len() && forall|q: int| 0 <= q < order.len() ==> #[trigger] order[q] as int == o[tree[q]]
}

/// The paths of the members in an order.
pub open spec fn ordered_paths(facts: Seq<PageFact>, r: Seq<usize>, order: Seq<usize>) -> Seq<Seq<char>> {
    order.map_values(|k: usize| facts[r[k as int] as int].path@)
}

/// The document order keys of the members in an order.
pub open spec fn ordered_documents(facts: Seq<PageFact>, r: Seq<usize>, order: Seq<usize>) -> Seq<Seq<char>> {
    order.map_values(|k: usize| facts[r[k as int] as int].document_order@)
}

/// Where the page resumes in its order: after the last task of the
/// cursor's document (-1 without a cursor), or the cursor's error.
pub open spec fn page_resume(
    facts: Seq<PageFact>,
    r: Seq<usize>,
    order: Seq<usize>,
    query: TaskPageQuery,
    include_ancestors: bool,
) -> Result<int, Seq<char>> {
    match query.cursor {
        None => Ok(-1),
        Some(c) => cursor_outcome(
            c@,
            ordered_paths(facts, r, order),
            query.workspace_revision,
            sha256(signature_message(query, include_ancestors)),
        ),
    }
}

/// A page of tasks: positions among the facts in page order, whether each
/// passed the filters (rather than being only an ancestor), its effective
/// priority, whether the page reaches the end, and the cursor that
/// continues it.
#[derive(Debug)]
pub struct TaskPage {
    pub tasks: Vec<usize>,
    pub matched: Vec<bool>,
    pub effective_priorities: Vec<i32>,
    pub complete: bool,
    pub next_cursor: Option<String>,
}

/// What a page holds, resuming after position `last` of `order`: the rest
/// of the order, cut after `limit` tasks so that the last document stays
/// whole.
pub open spec fn page_ok(
    facts: Seq<PageFact>,
    matched: Seq<usize>,
    query: TaskPageQuery,
    include_ancestors: bool,
    r: Seq<usize>,
    eff: Seq<i32>,
    order: Seq<usize>,
    last: int,
    sel: TaskPage,
) -> bool {
    let rest = order.skip(last + 1);
    let kept = rest.take(complete_document_end(ordered_documents(facts, r, rest), query.limit as int));
    &&& sel.tasks@ == kept.map_values(|k: usize| r[k as int])
    &&& sel.effective_priorities@ == kept.map_values(|k: usize| eff[k as int])
    &&& sel.matched@ == kept.map_values(|k: usize| (k as int) < matched.len())
    &&& sel.complete == (kept.len() == rest.len())
    &&& if sel.complete || kept.len() == 0 {
        sel.next_cursor is None
    } else {
        sel.next_cursor matches Some(c) && c@ == cursor_text(
            query.workspace_revision,
            sha256(signature_message(query, include_ancestors)),
            path_identity_spec(facts[r[kept.last() as int] as int].path@),
        )
    }
}

fn member_sort_fact_vec(facts: &Vec<PageFact>, r: &Vec<usize>, eff: &Vec<i32>) -> (sf: Vec<TaskSortFacts>)
    requires
        eff.len() == r.len(),
        forall|k: int| 0 <= k < r.len() ==> (#[trigger] r@[k] as int) < facts.len(),
    ensures
        sf@ == member_sort_facts(facts@, r@, eff@),
{
    let mut sf: Vec<TaskSortFacts> = Vec::new();
    let mut k: usize = 0;
    while k < r.len()
        invariant
            k <= r.len(),
            eff.len() == r.len(),
            forall|j: int| 0 <= j < r.len() ==> (#[trigger] r@[j] as int) < facts.len(),
            sf@ == member_sort_facts(facts@, r@, eff@).take(k as int),
        decreases r.len() - k,
    {
        let f = &facts[r[k]];
        sf.push(
            TaskSortFacts {
                document: f.document_order.clone(),
                source_start: if f.document_task {
                    0
                } else {
                    f.start
                },
                depth: f.depth,
                focused: f.focused,
                priority: Some(eff[k]),
                due: f.due,
                relevance: Some(f.relevance),
            },
        );
        assert(sf@ =~= member_sort_facts(facts@, r@, eff@).take(k + 1));
        k = k + 1;
    }
    assert(sf@ =~= member_sort_facts(facts@, r@, eff@));
    sf
}

fn member_strings(facts: &Vec<PageFact>, r: &Vec<usize>, order: &Vec<usize>, paths: bool) -> (out: Vec<String>)
    requires
        forall|k: int| 0 <= k < r.len() ==> (#[trigger] r@[k] as int) < facts.len(),
        forall|q: int| 0 <= q < order.len() ==> (#[trigger] order@[q] as int) < r.len(),
    ensures
        out.len() == order.len(),
        paths ==> crate::cursor::path_texts(out@) == ordered_paths(facts@, r@, order@),
        !paths ==> doc_texts(out@) == ordered_documents(facts@, r@, order@),
{
    let mut out: Vec<String> = Vec::new();
    let mut q: usize = 0;
    while q < order.len()
        invariant
            q <= order.len(),
            out.len() == q,
            forall|k: int| 0 <= k < r.len() ==> (#[trigger] r@[k] as int) < facts.len(),
            forall|j: int| 0 <= j < order.len() ==> (#[trigger] order@[j] as int) < r.len(),
            forall|j: int| 0 <= j < q ==> #[trigger] out@[j]@ == (if paths {
                facts@[r@[order@[j] as int] as int].path@
            } else {
                facts@[r@[order@[j] as int] as int].document_order@
            }),
        decreases order.len() - q,
    {
        let f = &facts[r[order[q]]];
        if paths {
            out.push(f.path.clone());
        } else {
            out.push(f.document_order.clone());
        }
        q = q + 1;
    }
    if paths {
        assert(crate::cursor::path_texts(out@) =~= ordered_paths(facts@, r@, order@));
    } else {
        assert(doc_texts(out@) =~= ordered_documents(facts@, r@, order@));
    }
    out
}

fn page_order_of(facts: &Vec<PageFact>, r: &Vec<usize>, eff: &Vec<i32>, orders: &Vec<crate::task_sort::TaskSortOrder>) -> (order: Vec<usize>)
    requires
        eff.len() == r.len(),
        forall|k: int| 0 <= k < r.len() ==> (#[trigger] r@[k] as int) < facts.len(),
    ensures
        is_page_order(facts@, r@, eff@, orders@, order@),
        forall|q: int| 0 <= q < order.len() ==> (#[trigger] order@[q] as int) < r.len(),
{
    let sf = member_sort_fact_vec(facts, r, eff);
    let mut order: Vec<usize> = Vec::new();
    let mut k: usize = 0;
    while k < r.len()
        invariant
            k <= r.len(),
            order.len() == k,
            forall|j: int| 0 <= j < k ==> #[trigger] order@[j] == j,
        decreases r.len() - k,
    {
        order.push(k);
        k = k + 1;
    }
    let ghost identity = order@;
    sort_task_records_by(&mut order, orders, &sf);
    proof {
        let sorted = order@;
        let sfs = member_sort_facts(facts@, r@, eff@);
        let (o, tree) = choose|o: Seq<int>, tree: Seq<int>|
            sorted_permutation(document_order_keys(sfs), o) && sorted_permutation(
                composite_keys(reordered(sfs, o), orders@),
                tree,
            ) && forall|q: int| 0 <= q < sorted.len() ==> #[trigger] sorted[q] == identity[o[tree[q]]];
        assert forall|q: int| 0 <= q < sorted.len() implies #[trigger] sorted[q] as int == o[tree[q]] by {
            assert(0 <= tree[q] < o.len());
            assert(0 <= o[tree[q]] < r.len());
            assert(identity[o[tree[q]]] == o[tree[q]]);
        }
        assert(is_page_order(facts@, r@, eff@, orders@, sorted));
        assert forall|q: int| 0 <= q < sorted.len() implies (#[trigger] sorted[q] as int) < r.len() by {
            assert(0 <= tree[q] < o.len());
        }
    }
    order
}

/// The page cut from the rest of the order after the cursor.
fn cut_page(
    facts: &Vec<PageFact>,
    matched: &Vec<usize>,
    r: &Vec<usize>,
    eff: &Vec<i32>,
    rest: Vec<usize>,
    query: &TaskPageQuery,
    include_ancestors: bool,
) -> (sel: TaskPage)
    requires
        eff.len() == r.len(),
        forall|k: int| 0 <= k < r.len() ==> (#[trigger] r@[k] as int) < facts.len(),
        forall|q: int| 0 <= q < rest.len() ==> (#[trigger] rest@[q] as int) < r.len(),
    ensures
        ({
            let kept = rest@.take(complete_document_end(ordered_documents(facts@, r@, rest@), query.limit as int));
            &&& sel.tasks@ == kept.map_values(|k: usize| r@[k as int])
            &&& sel.effective_priorities@ == kept.map_values(|k: usize| eff@[k as int])
            &&& sel.matched@ == kept.map_values(|k: usize| (k as int) < matched.len())
            &&& sel.complete == (kept.len() == rest.len())
            &&& if sel.complete || kept.len() == 0 {
                sel.next_cursor is None
            } else {
                sel.next_cursor matches Some(c) && c@ == cursor_text(
                    query.workspace_revision,
                    sha256(signature_message(*query, include_ancestors)),
                    path_identity_spec(facts@[r@[kept.last() as int] as int].path@),
                )
            }
        }),
{
    let remaining = rest.len();
    let documents = member_strings(facts, r, &rest, false);
    proof {
        crate::task_sort::lemma_complete_document_end(ordered_documents(facts@, r@, rest@), query.limit as int);
    }
    let ghost whole = rest@;
    let mut order = rest;
    truncate_complete_task_documents(&mut order, query.limit, &documents);
    assert forall|j: int| 0 <= j < order.len() implies (#[trigger] order@[j] as int) < r.len() by {
        assert(order@[j] == whole[j]);
    }
    let complete = order.len() == remaining;
    let next_cursor = if !complete && order.len() > 0 {
        let f = &facts[r[order[order.len() - 1]]];
        Some(encode_cursor(query, f.path.as_str(), include_ancestors))
    } else {
        None
    };
    let mut tasks: Vec<usize> = Vec::new();
    let mut priorities: Vec<i32> = Vec::new();
    let mut flags: Vec<bool> = Vec::new();
    let mut q: usize = 0;
    while q < order.len()
        invariant
            q <= order.len(),
            eff.len() == r.len(),
            forall|j: int| 0 <= j < order.len() ==> (#[trigger] order@[j] as int) < r.len(),
            tasks@ == order@.take(q as int).map_values(|k: usize| r@[k as int]),
            priorities@ == order@.take(q as int).map_values(|k: usize| eff@[k as int]),
            flags@ == order@.take(q as int).map_values(|k: usize| (k as int) < matched.len()),
        decreases order.len() - q,
    {
        let k = order[q];
        tasks.push(r[k]);
        priorities.push(eff[k]);
        flags.push(k < matched.len());
        assert(tasks@ =~= order@.take(q + 1).map_values(|k: usize| r@[k as int]));
        assert(priorities@ =~= order@.take(q + 1).map_values(|k: usize| eff@[k as int]));
        assert(flags@ =~= order@.take(q + 1).map_values(|k: usize| (k as int) < matched.len()));
        q = q + 1;
    }
    assert(order@.take(order.len() as int) == order@);
    TaskPage { tasks, matched: flags, effective_priorities: priorities, complete, next_cursor }
}

/// What a page of tasks is (see `query_task_page`): for the members, their
/// effective priorities and their page order, the page resumed after the
/// query's cursor, or the cursor's error.
pub open spec fn task_page_outcome(
    facts: Seq<PageFact>,
    matched: Seq<usize>,
    query: TaskPageQuery,
    include_ancestors: bool,
    result: Result<TaskPage, TaskPageQueryError>,
) -> bool {
    exists|r: Seq<usize>, eff: Seq<i32>, order: Seq<usize>|
        is_page_members(facts, matched, include_ancestors, r) && eff.len() == r.len() && (forall|k: int|
            0 <= k < r.len() ==> is_member_priority(facts, r, k, #[trigger] eff[k])) && is_page_order(
            facts,
            r,
            eff,
            query.sort@,
            order,
        ) && match page_resume(facts, r, order, query, include_ancestors) {
            Ok(last) => result matches Ok(sel) && page_ok(facts, matched, query, include_ancestors, r, eff, order, last, sel),
            Err(message) => result matches Err(TaskPageQueryError::Cursor(m)) && m@ == message,
        }
}

fn task_page(
    facts: &Vec<PageFact>,
    matched: &Vec<usize>,
    query: &TaskPageQuery,
    include_ancestors: bool,
) -> (result: Result<TaskPage, TaskPageQueryError>)
    requires
        page_facts_well_formed(facts@),
        matched_well_formed(facts@, matched@),
    ensures
        task_page_outcome(facts@, matched@, *query, include_ancestors, result),
{
    let r = page_members(facts, matched, include_ancestors);
    let eff = member_priorities(facts, &r);
    let mut order = page_order_of(facts, &r, &eff, &query.sort);
    let ghost sorted = order@;
    let paths = member_strings(facts, &r, &order, true);
    match apply_cursor(&mut order, &paths, query, include_ancestors) {
        Ok(()) => {},
        Err(e) => {
            return Err(e);
        },
    }
    let ghost last: int = match page_resume(facts@, r@, sorted, *query, include_ancestors) {
        Ok(l) => l,
        Err(_) => -1,
    };
    proof {
        match &query.cursor {
            Some(c) => crate::cursor::lemma_cursor_outcome_bounds(
                c@,
                ordered_paths(facts@, r@, sorted),
                query.workspace_revision,
                sha256(signature_message(*query, include_ancestors)),
            ),
            None => {
                assert(sorted.skip(0) == sorted);
            },
        }
        assert(0 <= last + 1 <= sorted.len());
        assert(order@ == sorted.skip(last + 1));
        assert forall|q: int| 0 <= q < order.len() implies (#[trigger] order@[q] as int) < r.len() by {
            assert(order@[q] == sorted[last + 1 + q]);
        }
    }
    let sel = cut_page(facts, matched, &r, &eff, order, query, include_ancestors);
    assert(page_ok(facts@, matched@, *query, include_ancestors, r@, eff@, sorted, last, sel));
    Ok(sel)
}


/// One page of tasks.  `matched` lists the facts that passed the query's
/// text and filters.  Effective priorities flow among the matched tasks
/// only.  They are ordered as a task tree under the query's sort keys, the
/// query's cursor is applied, and the page keeps `limit` tasks and the rest
/// of the last one's document; an incomplete page gets the cursor of its
/// last document.  A cursor that does not fit is refused with its message.
pub fn query_task_page(facts: &Vec<PageFact>, matched: &Vec<usize>, query: &TaskPageQuery) -> (result: Result<TaskPage, TaskPageQueryError>)
    requires
        page_facts_well_formed(facts@),
        matched_well_formed(facts@, matched@),
    ensures
        task_page_outcome(facts@, matched@, *query, false, result),
{
    task_page(facts, matched, query, false)
}

/// One page of a task tree: as `query_task_page`, with the outline
/// ancestors of the matched tasks added to the page (marked as not
/// matched).
pub fn query_task_tree_page(facts: &Vec<PageFact>, matched: &Vec<usize>, query: &TaskPageQuery) -> (result: Result<TaskPage, TaskPageQueryError>)
    requires
        page_facts_well_formed(facts@),
        matched_well_formed(facts@, matched@),
    ensures
        task_page_outcome(facts@, matched@, *query, true, result),
{
    task_page(facts, matched, query, true)
}

// ---------------------------------------------------------------------------
// Filter groups.

/// What evaluating one CEL filter on a task gave: true, false, a missing
/// key (which does not match), a value that is not a boolean (its text), or
/// an evaluation error (its text).
#[derive(Debug)]
pub enum FilterOutcome {
    Matched,
    NotMatched,
    MissingKey,
    NotBool(String),
    Failed(String),
}

/// The error a filter outcome makes, if any.
pub open spec fn outcome_error(source: Seq<char>, outcome: FilterOutcome, title: Seq<char>) -> Option<(Seq<char>, Seq<char>)> {
    match outcome {
        FilterOutcome::NotBool(value) => Some((source, "CEL query must return bool, got "@ + value@)),
        FilterOutcome::Failed(error) => Some((source, "cannot evaluate CEL query for '"@ + title + "': "@ + error@)),
        _ => None,
    }
}

/// How one group decides, its filters (source and outcome) read in order up
/// to the first that matches or fails: matched, not matched, or the error
/// of the first failing filter.
pub open spec fn group_decision(group: Seq<(Seq<char>, FilterOutcome)>, title: Seq<char>) -> Result<bool, (Seq<char>, Seq<char>)>
    decreases group.len(),
{
    if group.len() == 0 {
        Ok(false)
    } else {
        match outcome_error(group[0].0, group[0].1, title) {
            Some(e) => Err(e),
            None => if group[0].1 is Matched {
                Ok(true)
            } else {
                group_decision(group.skip(1), title)
            },
        }
    }
}

/// How filter groups decide, the groups read in order: the first error, or
/// false at the first group that does not match, or true.
pub open spec fn groups_decision(groups: Seq<Seq<(Seq<char>, FilterOutcome)>>, title: Seq<char>) -> Result<bool, (Seq<char>, Seq<char>)>
    decreases groups.len(),
{
    if groups.len() == 0 {
        Ok(true)
    } else {
        match group_decision(groups[0], title) {
            Err(e) => Err(e),
            Ok(false) => Ok(false),
            Ok(true) => groups_decision(groups.skip(1), title),
        }
    }
}

/// The outcomes of a list of groups, as plain values.
pub open spec fn outcomes_view(groups: Seq<Vec<(String, FilterOutcome)>>) -> Seq<Seq<(Seq<char>, FilterOutcome)>> {
    groups.map_values(|g: Vec<(String, FilterOutcome)>| g@.map_values(|p: (String, FilterOutcome)| (p.0@, p.1)))
}

/// `result` is the decision `d`: a boolean, or the error `Filter` with the
/// source and message.
pub open spec fn decision_is(d: Result<bool, (Seq<char>, Seq<char>)>, result: Result<bool, TaskPageQueryError>) -> bool {
    match d {
        Ok(b) => result == Ok::<bool, TaskPageQueryError>(b),
        Err((source, message)) => result matches Err(TaskPageQueryError::Filter { source: s, message: m }) && s@ == source
            && m@ == message,
    }
}

/// `outs` gives one outcome to each filter of a group, with its source.
pub open spec fn group_fits(filters: Seq<TaskQueryFilter>, outs: Seq<(Seq<char>, FilterOutcome)>) -> bool {
    outs.len() == filters.len() && forall|f: int| 0 <= f < outs.len() ==> (#[trigger] outs[f]).0 == filters[f].source@
}

/// `outs` gives one outcome to each filter of the groups, with its source.
pub open spec fn outcomes_fit(groups: Seq<TaskQueryFilterGroup>, outs: Seq<Seq<(Seq<char>, FilterOutcome)>>) -> bool {
    outs.len() == groups.len() && forall|g: int| 0 <= g < outs.len() ==> group_fits(groups[g].filters@, #[trigger] outs[g])
}

/// Every outcome of a group that its decision reads came from running the
/// filter with `variables`: an outcome is read when every earlier filter of
/// the group neither matched nor failed.
pub open spec fn group_given(
    filters: Seq<TaskQueryFilter>,
    variables: Seq<(Seq<char>, FilterValueView)>,
    outs: Seq<(Seq<char>, FilterOutcome)>,
    title: Seq<char>,
) -> bool {
    forall|f: int|
        0 <= f < outs.len() && (forall|k: int| 0 <= k < f ==> undecided(outs[k], title)) ==> cel_may_give(
            filters[f].expression@,
            variables,
            (#[trigger] outs[f]).1,
        )
}

/// Every outcome the groups' decision reads came from running its filter
/// with `variables`: a group is read when every earlier group passed.
pub open spec fn outcomes_given(
    groups: Seq<TaskQueryFilterGroup>,
    variables: Seq<(Seq<char>, FilterValueView)>,
    outs: Seq<Seq<(Seq<char>, FilterOutcome)>>,
    title: Seq<char>,
) -> bool {
    forall|g: int|
        0 <= g < outs.len() && (forall|h: int| 0 <= h < g ==> group_decision(outs[h], title) == Ok::<bool, (Seq<char>, Seq<char>)>(true))
            ==> group_given(groups[g].filters@, variables, #[trigger] outs[g], title)
}

/// An outcome that neither matches nor fails.
pub open spec fn undecided(o: (Seq<char>, FilterOutcome), title: Seq<char>) -> bool {
    outcome_error(o.0, o.1, title) is None && !(o.1 is Matched)
}

/// Outcomes for filters that were not run: each a missing key.
pub open spec fn unrun(filters: Seq<TaskQueryFilter>) -> Seq<(Seq<char>, FilterOutcome)> {
    filters.map_values(|f: TaskQueryFilter| (f.source@, FilterOutcome::MissingKey))
}

pub open spec fn unrun_groups(groups: Seq<TaskQueryFilterGroup>) -> Seq<Seq<(Seq<char>, FilterOutcome)>> {
    groups.map_values(|g: TaskQueryFilterGroup| unrun(g.filters@))
}

proof fn lemma_skip_undecided(p: Seq<(Seq<char>, FilterOutcome)>, x: Seq<(Seq<char>, FilterOutcome)>, title: Seq<char>)
    requires
        forall|k: int| 0 <= k < p.len() ==> undecided(#[trigger] p[k], title),
    ensures
        group_decision(p + x, title) == group_decision(x, title),
    decreases p.len(),
{
    if p.len() > 0 {
        assert((p + x)[0] == p[0]);
        assert((p + x).skip(1) == p.skip(1) + x);
        assert forall|k: int| 0 <= k < p.skip(1).len() implies undecided(#[trigger] p.skip(1)[k], title) by {
            assert(p.skip(1)[k] == p[k + 1]);
        }
        lemma_skip_undecided(p.skip(1), x, title);
    } else {
        assert(p + x == x);
    }
}

proof fn lemma_skip_passed(p: Seq<Seq<(Seq<char>, FilterOutcome)>>, x: Seq<Seq<(Seq<char>, FilterOutcome)>>, title: Seq<char>)
    requires
        forall|k: int| 0 <= k < p.len() ==> group_decision(#[trigger] p[k], title) == Ok::<bool, (Seq<char>, Seq<char>)>(true),
    ensures
        groups_decision(p + x, title) == groups_decision(x, title),
    decreases p.len(),
{
    if p.len() > 0 {
        assert((p + x)[0] == p[0]);
        assert((p + x).skip(1) == p.skip(1) + x);
        assert forall|k: int| 0 <= k < p.skip(1).len() implies group_decision(#[trigger] p.skip(1)[k], title) == Ok::<
            bool,
            (Seq<char>, Seq<char>),
        >(true) by {
            assert(p.skip(1)[k] == p[k + 1]);
        }
        lemma_skip_passed(p.skip(1), x, title);
    } else {
        assert(p + x == x);
    }
}

fn outcome_message(source: &String, outcome: &FilterOutcome, title: &str) -> (result: Result<bool, TaskPageQueryError>)
    ensures
        match outcome_error(source@, *outcome, title@) {
            Some((s, m)) => result matches Err(TaskPageQueryError::Filter { source: rs, message: rm }) && rs@ == s && rm@ == m,
            None => result == Ok::<bool, TaskPageQueryError>(outcome is Matched),
        },
{
    match outcome {
        FilterOutcome::Matched => Ok(true),
        FilterOutcome::NotMatched => Ok(false),
        FilterOutcome::MissingKey => Ok(false),
        FilterOutcome::NotBool(value) => {
            let mut message = chars_of("CEL query must return bool, got ");
            extend_chars(&mut message, &chars_of(value.as_str()));
            Err(TaskPageQueryError::Filter { source: source.clone(), message: string_from_chars(&message) })
        },
        FilterOutcome::Failed(error) => {
            let mut message = chars_of("cannot evaluate CEL query for '");
            extend_chars(&mut message, &chars_of(title));
            extend_chars(&mut message, &chars_of("': "));
            extend_chars(&mut message, &chars_of(error.as_str()));
            Err(TaskPageQueryError::Filter { source: source.clone(), message: string_from_chars(&message) })
        },
    }
}

fn outcome_group_matches(group: &Vec<(String, FilterOutcome)>, title: &str) -> (result: Result<bool, TaskPageQueryError>)
    ensures
        decision_is(group_decision(group@.map_values(|p: (String, FilterOutcome)| (p.0@, p.1)), title@), result),
{
    let ghost outs = group@.map_values(|p: (String, FilterOutcome)| (p.0@, p.1));
    let mut f: usize = 0;
    assert(outs.skip(0) == outs);
    while f < group.len()
        invariant
            f <= group.len(),
            outs == group@.map_values(|p: (String, FilterOutcome)| (p.0@, p.1)),
            group_decision(outs, title@) == group_decision(outs.skip(f as int), title@),
        decreases group.len() - f,
    {
        let ghost rest = outs.skip(f as int);
        assert(rest[0] == outs[f as int]);
        assert(rest.skip(1) == outs.skip(f + 1));
        match outcome_message(&group[f].0, &group[f].1, title) {
            Ok(true) => {
                return Ok(true);
            },
            Ok(false) => {},
            Err(e) => {
                return Err(e);
            },
        }
        f = f + 1;
    }
    Ok(false)
}

/// Whether a task passes filter groups, given what each filter gave on it
/// (`groups[g][f]` is the source and outcome of filter `f` of group `g`;
/// `title` is the task's title): every group must have a matching filter
/// before any of its filters fails; the first failure read is the error.
pub fn filter_outcomes_match(groups: &Vec<Vec<(String, FilterOutcome)>>, title: &str) -> (result: Result<bool, TaskPageQueryError>)
    ensures
        decision_is(groups_decision(outcomes_view(groups@), title@), result),
{
    let ghost outs = outcomes_view(groups@);
    let mut g: usize = 0;
    assert(outs.skip(0) == outs);
    while g < groups.len()
        invariant
            g <= groups.len(),
            outs == outcomes_view(groups@),
            groups_decision(outs, title@) == groups_decision(outs.skip(g as int), title@),
        decreases groups.len() - g,
    {
        let ghost rest = outs.skip(g as int);
        assert(rest[0] == outs[g as int]);
        assert(rest.skip(1) == outs.skip(g + 1));
        match outcome_group_matches(&groups[g], title) {
            Ok(true) => {},
            Ok(false) => {
                return Ok(false);
            },
            Err(e) => {
                return Err(e);
            },
        }
        g = g + 1;
    }
    Ok(true)
}

fn group_runs(group: &TaskQueryFilterGroup, variables: &Vec<(String, FilterValue)>, title: &str) -> (result: Result<bool, TaskPageQueryError>)
    requires
        instants_held(variables_view(variables@)),
    ensures
        exists|outs: Seq<(Seq<char>, FilterOutcome)>|
            group_fits(group.filters@, outs) && group_given(group.filters@, variables_view(variables@), outs, title@) && decision_is(
                #[trigger] group_decision(outs, title@),
                result,
            ),
{
    let ghost vv = variables_view(variables@);
    let filters = &group.filters;
    let ghost seen: Seq<(Seq<char>, FilterOutcome)> = Seq::empty();
    let mut f: usize = 0;
    while f < filters.len()
        invariant
            f <= filters.len(),
            filters@ == group.filters@,
            instants_held(variables_view(variables@)),
            seen.len() == f,
            vv == variables_view(variables@),
            forall|k: int| 0 <= k < f ==> (#[trigger] seen[k]).0 == filters@[k].source@ && undecided(seen[k], title@)
                && cel_may_give(filters@[k].expression@, vv, seen[k].1),
        decreases filters.len() - f,
    {
        let outcome = evaluate_cel(filters[f].expression.as_str(), variables);
        let ghost o = (filters@[f as int].source@, outcome);
        match outcome_message(&filters[f].source, &outcome, title) {
            Ok(false) => {},
            decided => {
                proof {
                    let tail = unrun(filters@.skip(f + 1));
                    let x = seq![o] + tail;
                    let w = seen + x;
                    lemma_skip_undecided(seen, x, title@);
                    assert(x[0] == o);
                    assert(x.skip(1) == tail);
                    assert forall|k: int| 0 <= k < w.len() implies (#[trigger] w[k]).0 == filters@[k].source@ by {
                        if k > f {
                            assert(w[k] == tail[k - f - 1]);
                            assert(filters@.skip(f + 1)[k - f - 1] == filters@[k]);
                        }
                    }
                    assert(group_fits(group.filters@, w));
                    assert(decision_is(group_decision(w, title@), decided));
                    assert(w[f as int] == o);
                    assert(!undecided(o, title@));
                    assert forall|f2: int| 0 <= f2 < w.len() && (forall|k: int| 0 <= k < f2 ==> undecided(w[k], title@)) implies cel_may_give(
                        group.filters@[f2].expression@,
                        vv,
                        (#[trigger] w[f2]).1,
                    ) by {
                        if f2 > f {
                            assert(!undecided(w[f as int], title@));
                        } else if f2 < f {
                            assert(w[f2] == seen[f2]);
                        }
                    }
                }
                return decided;
            },
        }
        proof {
            seen = seen.push(o);
        }
        f = f + 1;
    }
    proof {
        lemma_skip_undecided(seen, Seq::empty(), title@);
        assert(seen + Seq::<(Seq<char>, FilterOutcome)>::empty() == seen);
        assert(group_fits(group.filters@, seen));
        assert(group_given(group.filters@, vv, seen, title@));
    }
    Ok(false)
}

fn groups_run(groups: &Vec<TaskQueryFilterGroup>, variables: &Vec<(String, FilterValue)>, title: &str) -> (result: Result<bool, TaskPageQueryError>)
    requires
        instants_held(variables_view(variables@)),
    ensures
        exists|outs: Seq<Seq<(Seq<char>, FilterOutcome)>>|
            outcomes_fit(groups@, outs) && outcomes_given(groups@, variables_view(variables@), outs, title@) && decision_is(
                #[trigger] groups_decision(outs, title@),
                result,
            ),
{
    let ghost vv = variables_view(variables@);
    let ghost done: Seq<Seq<(Seq<char>, FilterOutcome)>> = Seq::empty();
    let mut g: usize = 0;
    while g < groups.len()
        invariant
            g <= groups.len(),
            instants_held(variables_view(variables@)),
            done.len() == g,
            vv == variables_view(variables@),
            forall|k: int| 0 <= k < g ==> group_fits(groups@[k].filters@, #[trigger] done[k]) && group_decision(done[k], title@)
                == Ok::<bool, (Seq<char>, Seq<char>)>(true) && group_given(groups@[k].filters@, vv, done[k], title@),
        decreases groups.len() - g,
    {
        let r = group_runs(&groups[g], variables, title);
        let ghost og = choose|outs: Seq<(Seq<char>, FilterOutcome)>|
            group_fits(groups@[g as int].filters@, outs) && group_given(groups@[g as int].filters@, vv, outs, title@) && decision_is(
                #[trigger] group_decision(outs, title@),
                r,
            );
        match r {
            Ok(true) => {},
            decided => {
                proof {
                    let tail = unrun_groups(groups@.skip(g + 1));
                    let x = seq![og] + tail;
                    let w = done + x;
                    lemma_skip_passed(done, x, title@);
                    assert(x[0] == og);
                    assert(x.skip(1) == tail);
                    assert forall|k: int| 0 <= k < w.len() implies group_fits(groups@[k].filters@, #[trigger] w[k]) by {
                        if k > g {
                            assert(w[k] == tail[k - g - 1]);
                            assert(groups@.skip(g + 1)[k - g - 1] == groups@[k]);
                        } else if k == g {
                            assert(w[k] == og);
                        } else {
                            assert(w[k] == done[k]);
                        }
                    }
                    assert(outcomes_fit(groups@, w));
                    assert(decision_is(groups_decision(w, title@), decided));
                    assert(w[g as int] == og);
                    assert(group_decision(og, title@) != Ok::<bool, (Seq<char>, Seq<char>)>(true));
                    assert forall|g2: int|
                        0 <= g2 < w.len() && (forall|h: int| 0 <= h < g2 ==> group_decision(w[h], title@) == Ok::<bool, (Seq<char>, Seq<char>)>(true))
                        implies group_given(groups@[g2].filters@, vv, #[trigger] w[g2], title@) by {
                        if g2 > g {
                            assert(group_decision(w[g as int], title@) != Ok::<bool, (Seq<char>, Seq<char>)>(true));
                        } else if g2 < g {
                            assert(w[g2] == done[g2]);
                        }
                    }
                }
                return decided;
            },
        }
        proof {
            done = done.push(og);
        }
        g = g + 1;
    }
    proof {
        lemma_skip_passed(done, Seq::empty(), title@);
        assert(done + Seq::<Seq<(Seq<char>, FilterOutcome)>>::empty() == done);
        assert(outcomes_fit(groups@, done));
        assert(outcomes_given(groups@, vv, done, title@));
    }
    Ok(true)
}

/// Whether a task passes a query's filter groups, each filter run with the
/// task's variables (`title` is the task's title).  A filter that does not
/// compile refuses the query first, as `compile_filter_groups` does.
/// Otherwise the result is what `filter_outcomes_match` makes of an
/// outcome of each filter that cel may give on the filter's text and these
/// variables (`cel_may_give`), whichever it gave: every group must
/// have a matching filter before any of its filters fails, the first
/// failure read is the error, and no groups at all pass.
pub fn filter_groups_match(groups: &Vec<TaskQueryFilterGroup>, variables: &Vec<(String, FilterValue)>, title: &str) -> (result: Result<
    bool,
    TaskPageQueryError,
>)
    requires
        instants_held(variables_view(variables@)),
    ensures
        !filters_compile(groups@) ==> (result matches Err(e) && first_compile_error(groups@, e)),
        filters_compile(groups@) ==> exists|outs: Seq<Seq<(Seq<char>, FilterOutcome)>>|
            outcomes_fit(groups@, outs) && outcomes_given(groups@, variables_view(variables@), outs, title@) && decision_is(
                #[trigger] groups_decision(outs, title@),
                result,
            ),
{
    match compile_filter_groups(groups) {
        Ok(_) => groups_run(groups, variables, title),
        Err(e) => Err(e),
    }
}


// ---------------------------------------------------------------------------
// The tasks a query matches.

/// A task's id as searchable text (empty when it has none).
pub open spec fn id_text(id: Option<String>) -> Seq<char> {
    match id {
        Some(s) => s@,
        None => Seq::empty(),
    }
}

/// How well a task matches the query's text, over its title, its id and
/// its path relative to the root; `None` when it does not.
pub open spec fn task_text_score(query: TaskPageQuery, f: TaskFilterFacts) -> Option<i64> {
    search_score_spec(query.text@, seq![f.title@, id_text(f.id), display_relative(query.root@, f.path@)])
}

/// The tasks among the first `n` that match the query, in order, each with
/// its position and text score, `outs[i]` being the outcomes of the
/// filters on task `i`; or the first filter error met.
pub open spec fn selected_upto(
    query: TaskPageQuery,
    facts: Seq<TaskFilterFacts>,
    outs: Seq<Seq<Seq<(Seq<char>, FilterOutcome)>>>,
    n: int,
) -> Result<Seq<(usize, i64)>, (Seq<char>, Seq<char>)>
    decreases n,
{
    if n <= 0 {
        Ok(Seq::empty())
    } else {
        match selected_upto(query, facts, outs, n - 1) {
            Err(e) => Err(e),
            Ok(s) => match task_text_score(query, facts[n - 1]) {
                None => Ok(s),
                Some(score) => match groups_decision(outs[n - 1], facts[n - 1].title@) {
                    Err(e) => Err(e),
                    Ok(true) => Ok(s.push(((n - 1) as usize, score))),
                    Ok(false) => Ok(s),
                },
            },
        }
    }
}

/// Every task whose filter outcomes the selection reads (one with a text
/// score, reached before any error) has outcomes that cel may give on the
/// filters' texts and the task's variables.
pub open spec fn tasks_given(query: TaskPageQuery, facts: Seq<TaskFilterFacts>, outs: Seq<Seq<Seq<(Seq<char>, FilterOutcome)>>>) -> bool {
    forall|i: int|
        0 <= i < outs.len() && task_text_score(query, facts[i]) is Some && selected_upto(query, facts, outs, i) is Ok ==> outcomes_given(
            query.filter_groups@,
            task_variables(query.root@, facts[i], query.now),
            #[trigger] outs[i],
            facts[i].title@,
        )
}

/// `result` is the selection `d`.
pub open spec fn selection_is(d: Result<Seq<(usize, i64)>, (Seq<char>, Seq<char>)>, result: Result<Vec<(usize, i64)>, TaskPageQueryError>) -> bool {
    match d {
        Ok(s) => result matches Ok(v) && v@ == s,
        Err((source, message)) => result matches Err(TaskPageQueryError::Filter { source: s, message: m }) && s@ == source
            && m@ == message,
    }
}

proof fn lemma_selected_prefix(
    query: TaskPageQuery,
    facts: Seq<TaskFilterFacts>,
    a: Seq<Seq<Seq<(Seq<char>, FilterOutcome)>>>,
    b: Seq<Seq<Seq<(Seq<char>, FilterOutcome)>>>,
    n: int,
)
    requires
        n <= a.len(),
        n <= b.len(),
        forall|k: int| 0 <= k < n ==> a[k] == b[k],
    ensures
        selected_upto(query, facts, a, n) == selected_upto(query, facts, b, n),
    decreases n,
{
    if n > 0 {
        lemma_selected_prefix(query, facts, a, b, n - 1);
    }
}

fn task_score(query: &TaskPageQuery, f: &TaskFilterFacts) -> (score: Option<i64>)
    ensures
        score == task_text_score(*query, *f),
{
    let mut fields: Vec<String> = Vec::new();
    fields.push(f.title.clone());
    fields.push(match &f.id {
        Some(id) => id.clone(),
        None => String::new(),
    });
    fields.push(display_workspace_path(query.root.as_str(), f.path.as_str()));
    assert(field_views(fields@) =~= seq![f.title@, id_text(f.id), display_relative(query.root@, f.path@)]);
    search_score(query.text.as_str(), &fields)
}

/// The tasks a query matches, in the order given: those whose title, id or
/// relative path match the query's text (with that score) and that pass
/// its filter groups.  A filter that does not compile is refused before
/// any task is read; a filter that fails on a task refuses the query.  The
/// filters' outcomes are cel's: the result is the selection for an
/// outcome of each filter it reads that cel may give on the filter's text
/// and the task's variables (`task_variables`, see `cel_may_give`).
pub fn select_tasks(query: &TaskPageQuery, facts: &Vec<TaskFilterFacts>) -> (result: Result<Vec<(usize, i64)>, TaskPageQueryError>)
    ensures
        !filters_compile(query.filter_groups@) ==> (result matches Err(e) && first_compile_error(query.filter_groups@, e)),
        filters_compile(query.filter_groups@) ==> exists|outs: Seq<Seq<Seq<(Seq<char>, FilterOutcome)>>>|
            outs.len() == facts.len() && (forall|i: int| 0 <= i < facts.len() ==> outcomes_fit(query.filter_groups@, #[trigger] outs[i]))
                && tasks_given(*query, facts@, outs) && selection_is(
                #[trigger] selected_upto(*query, facts@, outs, facts.len() as int),
                result,
            ),
{
    match compile_filter_groups(&query.filter_groups) {
        Ok(_) => {},
        Err(e) => {
            return Err(e);
        },
    }
    let ghost groups = query.filter_groups@;
    let ghost outs: Seq<Seq<Seq<(Seq<char>, FilterOutcome)>>> = Seq::empty();
    let mut out: Vec<(usize, i64)> = Vec::new();
    let mut i: usize = 0;
    proof {
        assert forall|g: int| 0 <= g < unrun_groups(groups).len() implies group_fits(groups[g].filters@, #[trigger] unrun_groups(groups)[g]) by {
            assert(unrun_groups(groups)[g] == unrun(groups[g].filters@));
        }
    }
    while i < facts.len()
        invariant
            i <= facts.len(),
            groups == query.filter_groups@,
            outcomes_fit(groups, unrun_groups(groups)),
            filters_compile(groups),
            outs.len() == i,
            forall|k: int| 0 <= k < i ==> outcomes_fit(groups, #[trigger] outs[k]),
            tasks_given(*query, facts@, outs),
            selected_upto(*query, facts@, outs, i as int) == Ok::<Seq<(usize, i64)>, (Seq<char>, Seq<char>)>(out@),
        decreases facts.len() - i,
    {
        let f = &facts[i];
        let ghost before = outs;
        match task_score(query, f) {
            None => {
                proof {
                    outs = outs.push(unrun_groups(groups));
                }
            },
            Some(score) => {
                let vars = task_filter_variables(query.root.as_str(), f, query.now);
                let r = groups_run(&query.filter_groups, &vars, f.title.as_str());
                let ghost og = choose|o: Seq<Seq<(Seq<char>, FilterOutcome)>>|
                    outcomes_fit(groups, o) && outcomes_given(groups, variables_view(vars@), o, f.title@) && decision_is(
                        #[trigger] groups_decision(o, f.title@),
                        r,
                    );
                proof {
                    outs = outs.push(og);
                }
                match r {
                    Ok(true) => out.push((i, score)),
                    Ok(false) => {},
                    Err(e) => {
                        proof {
                            lemma_selected_prefix(*query, facts@, before, outs, i as int);
                            let w = outs + Seq::new((facts.len() - i - 1) as nat, |k: int| unrun_groups(groups));
                            lemma_selected_prefix(*query, facts@, outs, w, i + 1);
                            lemma_selected_error_stays(*query, facts@, w, i as int + 1, facts.len() as int);
                            assert forall|k: int| 0 <= k < facts.len() implies outcomes_fit(groups, #[trigger] w[k]) by {
                                if k < i + 1 {
                                    assert(w[k] == outs[k]);
                                }
                            }
                            lemma_tasks_given_step(*query, facts@, before, outs, i as int);
                            assert forall|k: int|
                                0 <= k < w.len() && task_text_score(*query, facts@[k]) is Some && selected_upto(*query, facts@, w, k) is Ok
                                implies outcomes_given(groups, task_variables(query.root@, facts@[k], query.now), #[trigger] w[k], facts@[k].title@) by {
                                if k <= i {
                                    assert(w[k] == outs[k]);
                                    lemma_selected_prefix(*query, facts@, outs, w, k);
                                } else {
                                    lemma_selected_error_stays(*query, facts@, w, i as int + 1, k);
                                }
                            }
                            assert(selection_is(selected_upto(*query, facts@, w, facts.len() as int), Err(e)));
                        }
                        return Err(e);
                    },
                }
            },
        }
        proof {
            lemma_selected_prefix(*query, facts@, before, outs, i as int);
            lemma_tasks_given_step(*query, facts@, before, outs, i as int);
        }
        i = i + 1;
    }
    Ok(out)
}

proof fn lemma_tasks_given_step(
    query: TaskPageQuery,
    facts: Seq<TaskFilterFacts>,
    before: Seq<Seq<Seq<(Seq<char>, FilterOutcome)>>>,
    outs: Seq<Seq<Seq<(Seq<char>, FilterOutcome)>>>,
    i: int,
)
    requires
        0 <= i,
        before.len() == i,
        outs == before.push(outs[i]),
        tasks_given(query, facts, before),
        task_text_score(query, facts[i]) is Some ==> outcomes_given(
            query.filter_groups@,
            task_variables(query.root@, facts[i], query.now),
            outs[i],
            facts[i].title@,
        ),
    ensures
        tasks_given(query, facts, outs),
{
    assert forall|k: int|
        0 <= k < outs.len() && task_text_score(query, facts[k]) is Some && selected_upto(query, facts, outs, k) is Ok implies outcomes_given(
            query.filter_groups@,
            task_variables(query.root@, facts[k], query.now),
            #[trigger] outs[k],
            facts[k].title@,
        ) by {
        if k < i {
            assert(outs[k] == before[k]);
            lemma_selected_prefix(query, facts, before, outs, k);
        }
    }
}

proof fn lemma_selected_error_stays(
    query: TaskPageQuery,
    facts: Seq<TaskFilterFacts>,
    outs: Seq<Seq<Seq<(Seq<char>, FilterOutcome)>>>,
    n: int,
    m: int,
)
    requires
        0 <= n <= m,
        selected_upto(query, facts, outs, n) is Err,
    ensures
        selected_upto(query, facts, outs, m) == selected_upto(query, facts, outs, n),
    decreases m - n,
{
    if n < m {
        lemma_selected_error_stays(query, facts, outs, n, m - 1);
    }
}

} // verus!
