//! Directed graphs over numbered nodes and what can be reached in them.
use vstd::prelude::*;

verus! {

/// The successor lists of a graph, as plain sequences.
pub open spec fn adjacency(adj: Seq<Vec<usize>>) -> Seq<Seq<usize>> {
    adj.map_values(|v: Vec<usize>| v@)
}

/// Every successor names a node of the graph.
pub open spec fn well_formed(adj: Seq<Seq<usize>>) -> bool {
    forall|u: int, k: int| 0 <= u < adj.len() && 0 <= k < adj[u].len() ==> (#[trigger] adj[u][k] as int) < adj.len()
}

/// Whether `v` is a successor of `u`.
pub open spec fn edge(adj: Seq<Seq<usize>>, u: int, v: int) -> bool {
    0 <= u < adj.len() && exists|k: int| 0 <= k < adj[u].len() && #[trigger] adj[u][k] as int == v
}

/// `p` is a walk: consecutive nodes are joined by edges.
pub open spec fn is_walk(adj: Seq<Seq<usize>>, p: Seq<int>) -> bool {
    p.len() >= 1 && forall|k: int| 0 <= k < p.len() - 1 ==> edge(adj, #[trigger] p[k], p[k + 1])
}

/// `v` can be reached from `u` by following zero or more edges.
pub open spec fn reaches(adj: Seq<Seq<usize>>, u: int, v: int) -> bool {
    exists|p: Seq<int>| #[trigger] is_walk(adj, p) && p[0] == u && p.last() == v
}

pub proof fn lemma_reaches_self(adj: Seq<Seq<usize>>, u: int)
    ensures
        reaches(adj, u, u),
{
    let p = seq![u];
    assert(is_walk(adj, p));
}

pub proof fn lemma_reaches_step(adj: Seq<Seq<usize>>, u: int, v: int, w: int)
    requires
        reaches(adj, u, v),
        edge(adj, v, w),
    ensures
        reaches(adj, u, w),
{
    let p = choose|p: Seq<int>| #[trigger] is_walk(adj, p) && p[0] == u && p.last() == v;
    let q = p.push(w);
    assert forall|k: int| 0 <= k < q.len() - 1 implies edge(adj, #[trigger] q[k], q[k + 1]) by {
        if k < p.len() - 1 {
            assert(q[k] == p[k] && q[k + 1] == p[k + 1]);
        } else {
            assert(q[k] == v);
        }
    }
    assert(is_walk(adj, q));
}

/// A set of nodes that holds `u` and is closed under edges holds everything
/// `u` reaches.
proof fn lemma_closed_contains_reached(adj: Seq<Seq<usize>>, set: Seq<bool>, u: int, v: int)
    requires
        set.len() == adj.len(),
        0 <= u < set.len(),
        set[u],
        forall|a: int, b: int| 0 <= a < set.len() && set[a] && #[trigger] edge(adj, a, b) ==> 0 <= b < set.len() && set[b],
        reaches(adj, u, v),
    ensures
        0 <= v < set.len() && set[v],
{
    let p = choose|p: Seq<int>| #[trigger] is_walk(adj, p) && p[0] == u && p.last() == v;
    lemma_walk_marked(adj, set, p, p.len() - 1);
}

proof fn lemma_walk_marked(adj: Seq<Seq<usize>>, set: Seq<bool>, p: Seq<int>, k: int)
    requires
        set.len() == adj.len(),
        is_walk(adj, p),
        0 <= k < p.len(),
        0 <= p[0] < set.len() && set[p[0]],
        forall|a: int, b: int| 0 <= a < set.len() && set[a] && #[trigger] edge(adj, a, b) ==> 0 <= b < set.len() && set[b],
    ensures
        0 <= p[k] < set.len() && set[p[k]],
    decreases k,
{
    if k > 0 {
        lemma_walk_marked(adj, set, p, k - 1);
        assert(edge(adj, p[k - 1], p[k]));
    }
}

/// The number of unmarked nodes.
pub open spec fn unmarked(v: Seq<bool>) -> nat
    decreases v.len(),
{
    if v.len() == 0 {
        0
    } else {
        unmarked(v.drop_last()) + if v.last() {
            0nat
        } else {
            1nat
        }
    }
}

pub(crate) proof fn lemma_unmarked_update(v: Seq<bool>, i: int)
    requires
        0 <= i < v.len(),
        !v[i],
    ensures
        unmarked(v.update(i, true)) + 1 == unmarked(v),
    decreases v.len(),
{
    if i < v.len() - 1 {
        assert(v.update(i, true).drop_last() == v.drop_last().update(i, true));
        lemma_unmarked_update(v.drop_last(), i);
    } else {
        assert(v.update(i, true).drop_last() == v.drop_last());
    }
}

/// Marks every node that `start` reaches in a graph of `adj.len()` nodes.
pub fn reach_set(adj: &Vec<Vec<usize>>, start: usize) -> (marked: Vec<bool>)
    requires
        start < adj.len(),
        well_formed(adjacency(adj@)),
    ensures
        marked.len() == adj.len(),
        forall|v: int| 0 <= v < adj.len() ==> marked@[v] == reaches(adjacency(adj@), start as int, v),
{
    let ghost g = adjacency(adj@);
    let n = adj.len();
    let mut marked: Vec<bool> = Vec::new();
    let mut k: usize = 0;
    while k < n
        invariant
            k <= n,
            marked.len() == k,
            forall|j: int| 0 <= j < k ==> !marked@[j],
        decreases n - k,
    {
        marked.push(false);
        k = k + 1;
    }
    proof {
        lemma_unmarked_update(marked@, start as int);
        lemma_reaches_self(g, start as int);
    }
    marked.set(start, true);
    let mut pending: Vec<usize> = vec![start];
    while pending.len() > 0
        invariant
            n == adj.len(),
            g == adjacency(adj@),
            g.len() == n,
            well_formed(g),
            start < n,
            marked.len() == n,
            marked@[start as int],
            forall|j: int| 0 <= j < pending.len() ==> (#[trigger] pending@[j] as int) < n && marked@[pending@[j] as int],
            forall|v: int| 0 <= v < n && marked@[v] ==> reaches(g, start as int, v),
            forall|a: int, b: int|
                0 <= a < n && marked@[a] && !pending@.contains(a as usize) && #[trigger] edge(g, a, b) ==> 0 <= b < n && marked@[b],
        decreases unmarked(marked@), pending.len(),
    {
        let ghost before_pop = pending@;
        let u = pending.pop().unwrap();
        proof {
            assert(before_pop == pending@.push(u));
            assert forall|a: int, b: int|
                0 <= a < n && marked@[a] && a != u && !pending@.contains(a as usize) && #[trigger] edge(g, a, b) implies 0 <= b < n && marked@[b] by {
                if before_pop.contains(a as usize) {
                    let j = choose|j: int| 0 <= j < before_pop.len() && before_pop[j] == a as usize;
                    if j < pending.len() {
                        assert(pending@[j] == a as usize);
                    }
                }
            }
        }
        let succ = &adj[u];
        assert(g[u as int] == succ@);
        let mut s: usize = 0;
        let ghost unmarked_at_pop = unmarked(marked@);
        let ghost len_at_pop = pending.len();
        while s < succ.len()
            invariant
                n == adj.len(),
                g == adjacency(adj@),
                g.len() == n,
                well_formed(g),
                (u as int) < n,
                g[u as int] == succ@,
                s <= succ.len(),
                start < n,
                marked.len() == n,
                marked@[start as int],
                marked@[u as int],
                unmarked(marked@) + pending.len() == unmarked_at_pop + len_at_pop,
                pending.len() >= len_at_pop,
                forall|j: int| 0 <= j < pending.len() ==> (#[trigger] pending@[j] as int) < n && marked@[pending@[j] as int],
                forall|v: int| 0 <= v < n && marked@[v] ==> reaches(g, start as int, v),
                forall|j: int| 0 <= j < s ==> marked@[#[trigger] succ@[j] as int],
                forall|a: int, b: int|
                    0 <= a < n && marked@[a] && a != u && !pending@.contains(a as usize) && #[trigger] edge(g, a, b) ==> 0 <= b < n && marked@[b],
            decreases succ.len() - s,
        {
            let w = succ[s];
            assert((w as int) < n) by {
                assert(g[u as int][s as int] == w);
            }
            if !marked[w] {
                proof {
                    assert(g[u as int][s as int] as int == w as int);
                    assert(edge(g, u as int, w as int));
                    lemma_reaches_step(g, start as int, u as int, w as int);
                    lemma_unmarked_update(marked@, w as int);
                }
                let ghost old_pending = pending@;
                let ghost old_marked = marked@;
                marked.set(w, true);
                pending.push(w);
                proof {
                    assert forall|a: int, b: int|
                        0 <= a < n && marked@[a] && a != u && !pending@.contains(a as usize) && #[trigger] edge(g, a, b) implies 0 <= b < n && marked@[b] by {
                        assert(pending@[pending.len() - 1] == w);
                        assert(a != w);
                        assert(old_marked[a]);
                        if old_pending.contains(a as usize) {
                            let j = choose|j: int| 0 <= j < old_pending.len() && old_pending[j] == a as usize;
                            assert(pending@[j] == a as usize);
                        }
                        assert(old_marked[b]);
                    }
                }
            }
            s = s + 1;
        }
        proof {
            assert forall|a: int, b: int|
                0 <= a < n && marked@[a] && !pending@.contains(a as usize) && #[trigger] edge(g, a, b) implies 0 <= b < n && marked@[b] by {
                if a == u {
                    let j = choose|j: int| 0 <= j < g[u as int].len() && #[trigger] g[u as int][j] as int == b;
                    assert(succ@[j] == g[u as int][j]);
                    assert(marked@[succ@[j] as int]);
                }
            }
        }
    }
    proof {
        assert forall|v: int| 0 <= v < n implies marked@[v] == reaches(g, start as int, v) by {
            if reaches(g, start as int, v) {
                assert(pending.len() == 0);
                assert forall|a: int, b: int| 0 <= a < marked@.len() && marked@[a] && #[trigger] edge(g, a, b) implies 0 <= b < marked@.len() && marked@[b] by {
                    assert(!pending@.contains(a as usize));
                }
                lemma_closed_contains_reached(g, marked@, start as int, v);
            }
        }
    }
    marked
}

/// `p` is a walk along the relation `rel`.
pub open spec fn is_rel_walk(rel: spec_fn(int, int) -> bool, p: Seq<int>) -> bool {
    p.len() >= 1 && forall|k: int| 0 <= k < p.len() - 1 ==> rel(#[trigger] p[k], p[k + 1])
}

/// `v` can be reached from `u` by following `rel` zero or more times.
pub open spec fn reaches_rel(rel: spec_fn(int, int) -> bool, u: int, v: int) -> bool {
    exists|p: Seq<int>| #[trigger] is_rel_walk(rel, p) && p[0] == u && p.last() == v
}

/// A graph whose edges are exactly a relation reaches what the relation
/// reaches.
pub proof fn lemma_reaches_rel(adj: Seq<Seq<usize>>, rel: spec_fn(int, int) -> bool, u: int, v: int)
    requires
        forall|a: int, b: int| #[trigger] edge(adj, a, b) == rel(a, b),
    ensures
        reaches(adj, u, v) == reaches_rel(rel, u, v),
{
    if reaches(adj, u, v) {
        let p = choose|p: Seq<int>| #[trigger] is_walk(adj, p) && p[0] == u && p.last() == v;
        assert forall|k: int| 0 <= k < p.len() - 1 implies rel(#[trigger] p[k], p[k + 1]) by {
            assert(edge(adj, p[k], p[k + 1]));
        }
        assert(is_rel_walk(rel, p));
    }
    if reaches_rel(rel, u, v) {
        let p = choose|p: Seq<int>| #[trigger] is_rel_walk(rel, p) && p[0] == u && p.last() == v;
        assert forall|k: int| 0 <= k < p.len() - 1 implies edge(adj, #[trigger] p[k], p[k + 1]) by {
            assert(rel(p[k], p[k + 1]));
        }
        assert(is_walk(adj, p));
    }
}



/// Following the relation once more from what `u` reaches.
pub proof fn lemma_rel_step(rel: spec_fn(int, int) -> bool, u: int, v: int, w: int)
    requires
        reaches_rel(rel, u, v),
        rel(v, w),
    ensures
        reaches_rel(rel, u, w),
{
    let p = choose|p: Seq<int>| #[trigger] is_rel_walk(rel, p) && p[0] == u && p.last() == v;
    let q = p.push(w);
    assert forall|k: int| 0 <= k < q.len() - 1 implies rel(#[trigger] q[k], q[k + 1]) by {
        if k < p.len() - 1 {
            assert(q[k] == p[k] && q[k + 1] == p[k + 1]);
        } else {
            assert(q[k] == v);
        }
    }
    assert(is_rel_walk(rel, q));
}

/// Every node reaches itself.
pub proof fn lemma_rel_self(rel: spec_fn(int, int) -> bool, u: int)
    ensures
        reaches_rel(rel, u, u),
{
    assert(is_rel_walk(rel, seq![u]));
}

// ---------------------------------------------------------------------------
// Greatest values flowing along edges.

/// `e` is the greatest `base` value of a node that reaches `v` (`v` itself
/// included).
pub open spec fn is_reach_max(g: Seq<Seq<usize>>, base: Seq<i32>, v: int, e: i32) -> bool {
    &&& exists|u: int| 0 <= u < base.len() && #[trigger] reaches(g, u, v) && base[u] == e
    &&& forall|u: int| 0 <= u < base.len() && #[trigger] reaches(g, u, v) ==> base[u] <= e
}

/// The greatest `base` value among the first `k` nodes that reach `v`, or
/// `i32::MIN` when none does.
pub open spec fn max_reaching_from(g: Seq<Seq<usize>>, base: Seq<i32>, v: int, k: int) -> i32
    decreases k,
{
    if k <= 0 {
        i32::MIN
    } else {
        let m = max_reaching_from(g, base, v, k - 1);
        if reaches(g, k - 1, v) && base[k - 1] > m {
            base[k - 1]
        } else {
            m
        }
    }
}

proof fn lemma_max_reaching_from(g: Seq<Seq<usize>>, base: Seq<i32>, v: int, k: int)
    requires
        0 <= k <= base.len(),
    ensures
        forall|u: int| 0 <= u < k && #[trigger] reaches(g, u, v) ==> base[u] <= max_reaching_from(g, base, v, k),
        max_reaching_from(g, base, v, k) == i32::MIN || exists|u: int|
            0 <= u < k && #[trigger] reaches(g, u, v) && base[u] == max_reaching_from(g, base, v, k),
    decreases k,
{
    if k > 0 {
        lemma_max_reaching_from(g, base, v, k - 1);
    }
}

/// For every node, the greatest `base` value of the nodes that reach it.
pub fn propagate_max(adj: &Vec<Vec<usize>>, base: &Vec<i32>) -> (eff: Vec<i32>)
    requires
        adj.len() == base.len(),
        well_formed(adjacency(adj@)),
    ensures
        eff.len() == base.len(),
        forall|v: int| 0 <= v < base.len() ==> is_reach_max(adjacency(adj@), base@, v, #[trigger] eff@[v]),
{
    let ghost g = adjacency(adj@);
    let n = base.len();
    let mut eff: Vec<i32> = Vec::new();
    let mut k: usize = 0;
    while k < n
        invariant
            k <= n,
            eff.len() == k,
            forall|v: int| 0 <= v < k ==> eff@[v] == i32::MIN,
        decreases n - k,
    {
        eff.push(i32::MIN);
        k = k + 1;
    }
    let mut u: usize = 0;
    while u < n
        invariant
            n == base.len(),
            adj.len() == n,
            g == adjacency(adj@),
            well_formed(g),
            u <= n,
            eff.len() == n,
            forall|v: int| 0 <= v < n ==> #[trigger] eff@[v] == max_reaching_from(g, base@, v, u as int),
        decreases n - u,
    {
        let reach = reach_set(adj, u);
        let p = base[u];
        let mut v: usize = 0;
        while v < n
            invariant
                n == base.len(),
                u < n,
                g == adjacency(adj@),
                reach.len() == n,
                forall|w: int| 0 <= w < n ==> reach@[w] == reaches(g, u as int, w),
                p == base@[u as int],
                v <= n,
                eff.len() == n,
                forall|w: int| 0 <= w < v ==> #[trigger] eff@[w] == max_reaching_from(g, base@, w, u + 1),
                forall|w: int| v <= w < n ==> #[trigger] eff@[w] == max_reaching_from(g, base@, w, u as int),
            decreases n - v,
        {
            if reach[v] && p > eff[v] {
                eff.set(v, p);
            }
            v = v + 1;
        }
        u = u + 1;
    }
    proof {
        assert forall|v: int| 0 <= v < n implies is_reach_max(g, base@, v, #[trigger] eff@[v]) by {
            lemma_max_reaching_from(g, base@, v, n as int);
            lemma_reaches_self(g, v);
            if eff@[v] == i32::MIN {
                assert(base@[v] <= eff@[v]);
            }
        }
    }
    eff
}

} // verus!
