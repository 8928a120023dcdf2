//! Graphs whose nodes are sort keys (paths, task references) and whose
//! edges are listed per node, as a map from a node to its successors holds
//! them.  What a node reaches is found by numbering the keys and searching
//! the numbered graph.
use vstd::prelude::*;
use crate::graph::{adjacency, edge, is_walk, lemma_reaches_self, lemma_reaches_step, reach_set, reaches, well_formed};


verus! {

/// The keys of the successor lists.
pub open spec fn entry_keys(entries: Seq<(Vec<i128>, Vec<Vec<i128>>)>) -> Seq<(Seq<i128>, Seq<Seq<i128>>)> {
    entries.map_values(|e: (Vec<i128>, Vec<Vec<i128>>)| (e.0@, e.1@.map_values(|k: Vec<i128>| k@)))
}

/// Some entry for `a` lists `b`.
pub open spec fn key_edge(entries: Seq<(Seq<i128>, Seq<Seq<i128>>)>, a: Seq<i128>, b: Seq<i128>) -> bool {
    exists|i: int, j: int|
        0 <= i < entries.len() && 0 <= j < entries[i].1.len() && entries[i].0 == a && #[trigger] entries[i].1[j] == b
}

pub open spec fn is_key_walk(entries: Seq<(Seq<i128>, Seq<Seq<i128>>)>, p: Seq<Seq<i128>>) -> bool {
    p.len() >= 1 && forall|k: int| 0 <= k < p.len() - 1 ==> key_edge(entries, #[trigger] p[k], p[k + 1])
}

/// `b` can be reached from `a` by following zero or more listed edges.
pub open spec fn key_reaches(entries: Seq<(Seq<i128>, Seq<Seq<i128>>)>, a: Seq<i128>, b: Seq<i128>) -> bool {
    exists|p: Seq<Seq<i128>>| #[trigger] is_key_walk(entries, p) && p[0] == a && p.last() == b
}

pub open spec fn key_views(v: Seq<Vec<i128>>) -> Seq<Seq<i128>> {
    v.map_values(|k: Vec<i128>| k@)
}

pub open spec fn distinct(s: Seq<Seq<i128>>) -> bool {
    forall|a: int, b: int| 0 <= a < s.len() && 0 <= b < s.len() && a != b ==> s[a] != s[b]
}

pub fn equal_keys(a: &Vec<i128>, b: &Vec<i128>) -> (eq: bool)
    ensures
        eq == (a@ == b@),
{
    if a.len() != b.len() {
        return false;
    }
    let mut i: usize = 0;
    while i < a.len()
        invariant
            i <= a.len(),
            a.len() == b.len(),
            forall|k: int| 0 <= k < i ==> a@[k] == b@[k],
        decreases a.len() - i,
    {
        if a[i] != b[i] {
            return false;
        }
        i = i + 1;
    }
    assert(a@ =~= b@);
    true
}

/// The position of `key` among `nodes`.
pub fn index_of(nodes: &Vec<Vec<i128>>, key: &Vec<i128>) -> (found: Option<usize>)
    ensures
        match found {
            Some(i) => i < nodes.len() && nodes@[i as int]@ == key@,
            None => !key_views(nodes@).contains(key@),
        },
{
    let mut i: usize = 0;
    while i < nodes.len()
        invariant
            i <= nodes.len(),
            forall|k: int| 0 <= k < i ==> nodes@[k]@ != key@,
        decreases nodes.len() - i,
    {
        if equal_keys(&nodes[i], key) {
            return Some(i);
        }
        i = i + 1;
    }
    proof {
        if key_views(nodes@).contains(key@) {
            let k = choose|k: int| 0 <= k < nodes.len() && key_views(nodes@)[k] == key@;
            assert(nodes@[k]@ == key@);
        }
    }
    None
}

fn clone_key(k: &Vec<i128>) -> (c: Vec<i128>)
    ensures
        c@ == k@,
{
    let mut c: Vec<i128> = Vec::new();
    let mut i: usize = 0;
    while i < k.len()
        invariant
            i <= k.len(),
            c@ == k@.take(i as int),
        decreases k.len() - i,
    {
        c.push(k[i]);
        assert(k@.take(i + 1) == k@.take(i as int).push(k@[i as int]));
        i = i + 1;
    }
    assert(k@.take(k.len() as int) == k@);
    c
}

/// Adds `key` to the distinct `nodes` unless it is there, and gives its
/// position.
fn intern(nodes: &mut Vec<Vec<i128>>, key: &Vec<i128>) -> (index: usize)
    requires
        distinct(key_views(old(nodes)@)),
    ensures
        distinct(key_views(final(nodes)@)),
        index < final(nodes).len(),
        final(nodes)@[index as int]@ == key@,
        key_views(final(nodes)@) == (if key_views(old(nodes)@).contains(key@) {
            key_views(old(nodes)@)
        } else {
            key_views(old(nodes)@).push(key@)
        }),
{
    match index_of(nodes, key) {
        Some(i) => {
            proof {
                assert(key_views(nodes@)[i as int] == key@);
            }
            i
        },
        None => {
            let ghost before = nodes@;
            nodes.push(clone_key(key));
            proof {
                assert(key_views(nodes@) =~= key_views(before).push(key@));
            }
            nodes.len() - 1
        },
    }
}

proof fn lemma_push_contains(s: Seq<usize>, w: usize, x: usize)
    ensures
        s.push(w).contains(x) == (s.contains(x) || x == w),
{
    if s.contains(x) {
        let k = choose|k: int| 0 <= k < s.len() && s[k] == x;
        assert(s.push(w)[k] == x);
    }
    if x == w {
        assert(s.push(w)[s.len() as int] == x);
    }
    if s.push(w).contains(x) {
        let k = choose|k: int| 0 <= k < s.push(w).len() && s.push(w)[k] == x;
        if k < s.len() {
            assert(s[k] == x);
        }
    }
}

/// Some entry among the first `e` for `key` lists `target`.
pub open spec fn edge_upto(es: Seq<(Seq<i128>, Seq<Seq<i128>>)>, key: Seq<i128>, target: Seq<i128>, e: int) -> bool {
    exists|a: int, j: int| 0 <= a < e && 0 <= j < es[a].1.len() && es[a].0 == key && #[trigger] es[a].1[j] == target
}

proof fn lemma_edge_upto_full(es: Seq<(Seq<i128>, Seq<Seq<i128>>)>, key: Seq<i128>, target: Seq<i128>)
    ensures
        edge_upto(es, key, target, es.len() as int) == key_edge(es, key, target),
{
}

/// The positions of the listed successors of `key`.
fn successors_of(entries: &Vec<(Vec<i128>, Vec<Vec<i128>>)>, nodes: &Vec<Vec<i128>>, key: &Vec<i128>) -> (succ: Vec<usize>)
    requires
        distinct(key_views(nodes@)),
        forall|a: int, j: int| 0 <= a < entry_keys(entries@).len() && 0 <= j < entry_keys(entries@)[a].1.len()
            ==> key_views(nodes@).contains(#[trigger] entry_keys(entries@)[a].1[j]),
    ensures
        forall|k: int| 0 <= k < succ@.len() ==> (#[trigger] succ@[k] as int) < nodes.len(),
        forall|v: int| 0 <= v < nodes.len() ==> #[trigger] succ@.contains(v as usize) == edge_upto(entry_keys(entries@), key@, nodes@[v]@, entries.len() as int),
{
    let ghost es = entry_keys(entries@);
    let n = nodes.len();
    let mut succ: Vec<usize> = Vec::new();
    let mut e: usize = 0;
    while e < entries.len()
        invariant
            e <= entries.len(),
            n == nodes.len(),
            es == entry_keys(entries@),
            distinct(key_views(nodes@)),
            forall|a: int, j: int| 0 <= a < es.len() && 0 <= j < es[a].1.len() ==> key_views(nodes@).contains(#[trigger] es[a].1[j]),
            forall|k: int| 0 <= k < succ@.len() ==> (#[trigger] succ@[k] as int) < n,
            forall|v: int| 0 <= v < n ==> #[trigger] succ@.contains(v as usize) == edge_upto(es, key@, nodes@[v]@, e as int),
        decreases entries.len() - e,
    {
        let same = equal_keys(&entries[e].0, key);
        proof {
            assert(es[e as int].0 == entries@[e as int].0@);
            assert(es[e as int].1 == entries@[e as int].1@.map_values(|k: Vec<i128>| k@));
        }
        if same {
            let deps = &entries[e].1;
            let mut j: usize = 0;
            while j < deps.len()
                invariant
                    j <= deps.len(),
                    e < entries.len(),
                    n == nodes.len(),
                    es == entry_keys(entries@),
                    deps@ == entries@[e as int].1@,
                    es[e as int].0 == key@,
                    es[e as int].1 == deps@.map_values(|k: Vec<i128>| k@),
                    distinct(key_views(nodes@)),
                    forall|a: int, jj: int| 0 <= a < es.len() && 0 <= jj < es[a].1.len() ==> key_views(nodes@).contains(#[trigger] es[a].1[jj]),
                    forall|k: int| 0 <= k < succ@.len() ==> (#[trigger] succ@[k] as int) < n,
                    forall|v: int| 0 <= v < n ==> #[trigger] succ@.contains(v as usize) == (edge_upto(es, key@, nodes@[v]@, e as int) || exists|jj: int| 0 <= jj < j && #[trigger] es[e as int].1[jj] == nodes@[v]@),
                decreases deps.len() - j,
            {
                proof {
                    assert(es[e as int].1[j as int] == deps@[j as int]@);
                    assert(key_views(nodes@).contains(es[e as int].1[j as int]));
                }
                let w = index_of(nodes, &deps[j]).unwrap();
                let ghost before = succ@;
                succ.push(w);
                proof {
                    assert forall|v: int| 0 <= v < n implies #[trigger] succ@.contains(v as usize) == (edge_upto(es, key@, nodes@[v]@, e as int) || exists|jj: int| 0 <= jj < j + 1 && #[trigger] es[e as int].1[jj] == nodes@[v]@) by {
                        lemma_push_contains(before, w, v as usize);
                        if v as usize == w {
                            assert(es[e as int].1[j as int] == nodes@[v]@);
                        }
                        if exists|jj: int| 0 <= jj < j + 1 && #[trigger] es[e as int].1[jj] == nodes@[v]@ {
                            let jj = choose|jj: int| 0 <= jj < j + 1 && #[trigger] es[e as int].1[jj] == nodes@[v]@;
                            if jj == j {
                                assert(key_views(nodes@)[v] == key_views(nodes@)[w as int]);
                            }
                        }
                    }
                }
                j = j + 1;
            }
            proof {
                assert forall|v: int| 0 <= v < n implies #[trigger] succ@.contains(v as usize) == edge_upto(es, key@, nodes@[v]@, e + 1) by {
                    if edge_upto(es, key@, nodes@[v]@, e + 1) {
                        let (a, jj) = choose|a: int, jj: int| 0 <= a < e + 1 && 0 <= jj < es[a].1.len() && es[a].0 == key@ && #[trigger] es[a].1[jj] == nodes@[v]@;
                        if a < e {
                            assert(edge_upto(es, key@, nodes@[v]@, e as int));
                        }
                    }
                    if exists|jj: int| 0 <= jj < deps.len() && #[trigger] es[e as int].1[jj] == nodes@[v]@ {
                        let jj = choose|jj: int| 0 <= jj < deps.len() && #[trigger] es[e as int].1[jj] == nodes@[v]@;
                        assert(edge_upto(es, key@, nodes@[v]@, e + 1));
                    }
                    if edge_upto(es, key@, nodes@[v]@, e as int) {
                        let (a, jj) = choose|a: int, jj: int| 0 <= a < e && 0 <= jj < es[a].1.len() && es[a].0 == key@ && #[trigger] es[a].1[jj] == nodes@[v]@;
                        assert(edge_upto(es, key@, nodes@[v]@, e + 1));
                    }
                }
            }
        } else {
            proof {
                assert forall|v: int| 0 <= v < n implies #[trigger] succ@.contains(v as usize) == edge_upto(es, key@, nodes@[v]@, e + 1) by {
                    if edge_upto(es, key@, nodes@[v]@, e + 1) {
                        let (a, jj) = choose|a: int, jj: int| 0 <= a < e + 1 && 0 <= jj < es[a].1.len() && es[a].0 == key@ && #[trigger] es[a].1[jj] == nodes@[v]@;
                        assert(a != e);
                        assert(edge_upto(es, key@, nodes@[v]@, e as int));
                    }
                    if edge_upto(es, key@, nodes@[v]@, e as int) {
                        let (a, jj) = choose|a: int, jj: int| 0 <= a < e && 0 <= jj < es[a].1.len() && es[a].0 == key@ && #[trigger] es[a].1[jj] == nodes@[v]@;
                        assert(edge_upto(es, key@, nodes@[v]@, e + 1));
                    }
                }
            }
        }
        e = e + 1;
    }
    succ
}

/// Every key that a walk from a node of the table reaches is in the table,
/// when every listed successor is.
proof fn lemma_walk_in_table(
    entries: Seq<(Seq<i128>, Seq<Seq<i128>>)>,
    table: Seq<Seq<i128>>,
    p: Seq<Seq<i128>>,
    k: int,
)
    requires
        is_key_walk(entries, p),
        0 <= k < p.len(),
        table.contains(p[0]),
        forall|i: int, j: int| 0 <= i < entries.len() && 0 <= j < entries[i].1.len() ==> table.contains(#[trigger] entries[i].1[j]),
    ensures
        table.contains(p[k]),
    decreases k,
{
    if k > 0 {
        assert(key_edge(entries, p[k - 1], p[k]));
    }
}

/// The numbered graph: node `u` has an edge to every listed successor of
/// the key `nodes[u]`.
pub open spec fn numbered(
    entries: Seq<(Seq<i128>, Seq<Seq<i128>>)>,
    nodes: Seq<Seq<i128>>,
    g: Seq<Seq<usize>>,
) -> bool {
    &&& g.len() == nodes.len()
    &&& well_formed(g)
    &&& forall|u: int, v: int| 0 <= u < nodes.len() && 0 <= v < nodes.len() ==> (#[trigger] edge(g, u, v) == key_edge(entries, nodes[u], nodes[v]))
}

/// The keys reachable from `start`: the table of all keys in `entries` and
/// `start` (each once), and which of them `start` reaches.
pub fn key_reach_set(entries: &Vec<(Vec<i128>, Vec<Vec<i128>>)>, start: &Vec<i128>) -> (result: (Vec<Vec<i128>>, Vec<bool>))
    ensures
        result.0.len() == result.1.len(),
        distinct(key_views(result.0@)),
        forall|u: int| 0 <= u < result.0.len() ==> #[trigger] result.1@[u] == key_reaches(entry_keys(entries@), start@, result.0@[u]@),
        forall|k: Seq<i128>| key_reaches(entry_keys(entries@), start@, k) ==> key_views(result.0@).contains(k),
{
    let ghost es = entry_keys(entries@);
    let mut nodes: Vec<Vec<i128>> = Vec::new();
    let s = intern(&mut nodes, start);
    let mut i: usize = 0;
    while i < entries.len()
        invariant
            i <= entries.len(),
            es == entry_keys(entries@),
            distinct(key_views(nodes@)),
            s < nodes.len(),
            nodes@[s as int]@ == start@,
            forall|a: int, j: int| 0 <= a < i && 0 <= j < es[a].1.len() ==> key_views(nodes@).contains(#[trigger] es[a].1[j]),
        decreases entries.len() - i,
    {
        let deps = &entries[i].1;
        let mut j: usize = 0;
        while j < deps.len()
            invariant
                j <= deps.len(),
                i < entries.len(),
                es == entry_keys(entries@),
                deps@ == entries@[i as int].1@,
                distinct(key_views(nodes@)),
                s < nodes.len(),
                nodes@[s as int]@ == start@,
                forall|a: int, b: int| 0 <= a < i && 0 <= b < es[a].1.len() ==> key_views(nodes@).contains(#[trigger] es[a].1[b]),
                forall|b: int| 0 <= b < j ==> key_views(nodes@).contains(#[trigger] es[i as int].1[b]),
            decreases deps.len() - j,
        {
            let ghost before = key_views(nodes@);
            let at = intern(&mut nodes, &deps[j]);
            proof {
                assert(key_views(nodes@)[s as int] == before[s as int]);
                assert(key_views(nodes@)[at as int] == deps@[j as int]@);
                assert(es[i as int].1[j as int] == deps@[j as int]@);
                assert forall|x: Seq<i128>| before.contains(x) implies key_views(nodes@).contains(x) by {
                    let q = choose|q: int| 0 <= q < before.len() && before[q] == x;
                    assert(key_views(nodes@)[q] == x);
                }
            }
            j = j + 1;
        }
        i = i + 1;
    }
    let n = nodes.len();
    let mut adj: Vec<Vec<usize>> = Vec::new();
    let mut u: usize = 0;
    while u < n
        invariant
            u <= n,
            n == nodes.len(),
            es == entry_keys(entries@),
            adj.len() == u,
            distinct(key_views(nodes@)),
            forall|a: int, j: int| 0 <= a < es.len() && 0 <= j < es[a].1.len() ==> key_views(nodes@).contains(#[trigger] es[a].1[j]),
            forall|a: int, k: int| 0 <= a < u && 0 <= k < adj@[a]@.len() ==> (#[trigger] adj@[a]@[k] as int) < n,
            forall|a: int, v: int| 0 <= a < u && 0 <= v < n ==> (#[trigger] edge(adjacency(adj@), a, v) == key_edge(es, nodes@[a]@, nodes@[v]@)),
        decreases n - u,
    {
        let succ = successors_of(entries, &nodes, &nodes[u]);
        proof {
            let g = adjacency(adj@.push(succ));
            assert(g[u as int] == succ@);
            assert forall|v: int| 0 <= v < n implies (#[trigger] edge(g, u as int, v) == key_edge(es, nodes@[u as int]@, nodes@[v]@)) by {
                if edge(g, u as int, v) {
                    let k = choose|k: int| 0 <= k < g[u as int].len() && #[trigger] g[u as int][k] as int == v;
                    assert(succ@.contains(v as usize));
                    lemma_edge_upto_full(es, nodes@[u as int]@, nodes@[v]@);
                }
                if key_edge(es, nodes@[u as int]@, nodes@[v]@) {
                    lemma_edge_upto_full(es, nodes@[u as int]@, nodes@[v]@);
                    assert(succ@.contains(v as usize));
                    let k = choose|k: int| 0 <= k < succ@.len() && succ@[k] == v as usize;
                    assert(g[u as int][k] as int == v);
                }
            }
        }
        let ghost old_adj = adj@;
        adj.push(succ);
        proof {
            assert(adjacency(adj@) =~= adjacency(old_adj.push(succ)));
            assert forall|a: int, v: int| 0 <= a < u + 1 && 0 <= v < n implies (#[trigger] edge(adjacency(adj@), a, v) == key_edge(es, nodes@[a]@, nodes@[v]@)) by {
                if a < u {
                    assert(adjacency(adj@)[a] == adjacency(old_adj)[a]);
                    assert(edge(adjacency(adj@), a, v) == edge(adjacency(old_adj), a, v));
                } else {
                    assert(edge(adjacency(adj@), a, v) == edge(adjacency(old_adj.push(succ)), a, v));
                }
            }
            assert forall|a: int, k: int| 0 <= a < u + 1 && 0 <= k < adj@[a]@.len() implies (#[trigger] adj@[a]@[k] as int) < n by {
                if a < u {
                    assert(adj@[a] == old_adj[a]);
                }
            }
        }
        u = u + 1;
    }
    proof {
        let g = adjacency(adj@);
        assert forall|a: int, k: int| 0 <= a < g.len() && 0 <= k < g[a].len() implies (#[trigger] g[a][k] as int) < g.len() by {
            assert(g[a] == adj@[a]@);
        }
    }
    let marked = reach_set(&adj, s);
    proof {
        let g = adjacency(adj@);
        let table = key_views(nodes@);
        assert forall|v: int| 0 <= v < n implies #[trigger] marked@[v] == key_reaches(es, start@, nodes@[v]@) by {
            if marked@[v] {
                let p = choose|p: Seq<int>| #[trigger] is_walk(g, p) && p[0] == s as int && p.last() == v;
                let kp = Seq::new(p.len(), |x: int| nodes@[p[x]]@);
                assert forall|x: int| 0 <= x < kp.len() - 1 implies key_edge(es, #[trigger] kp[x], kp[x + 1]) by {
                    assert(edge(g, p[x], p[x + 1]));
                    lemma_walk_node_range(g, p, x);
                    lemma_walk_node_range(g, p, x + 1);
                }
                assert(is_key_walk(es, kp));
            }
            if key_reaches(es, start@, nodes@[v]@) {
                let kp = choose|kp: Seq<Seq<i128>>| #[trigger] is_key_walk(es, kp) && kp[0] == start@ && kp.last() == nodes@[v]@;
                lemma_lift_walk(es, table, g, kp, s as int, kp.len() - 1);
                let w = choose|w: int| 0 <= w < n && table[w] == kp[kp.len() - 1] && reaches(g, s as int, w);
                assert(table[w] == table[v]);
            }
        }
        assert forall|k: Seq<i128>| key_reaches(es, start@, k) implies table.contains(k) by {
            let kp = choose|kp: Seq<Seq<i128>>| #[trigger] is_key_walk(es, kp) && kp[0] == start@ && kp.last() == k;
            assert(table[s as int] == start@);
            lemma_walk_in_table(es, table, kp, kp.len() - 1);
        }
    }
    (nodes, marked)
}

proof fn lemma_walk_node_range(g: Seq<Seq<usize>>, p: Seq<int>, x: int)
    requires
        is_walk(g, p),
        0 <= p[0] < g.len(),
        0 <= x < p.len(),
        well_formed(g),
    ensures
        0 <= p[x] < g.len(),
    decreases x,
{
    if x > 0 {
        lemma_walk_node_range(g, p, x - 1);
        assert(edge(g, p[x - 1], p[x]));
        let k = choose|k: int| 0 <= k < g[p[x - 1]].len() && #[trigger] g[p[x - 1]][k] as int == p[x];
    }
}

/// A walk of keys from the start's key is matched by a walk of numbers.
proof fn lemma_lift_walk(
    es: Seq<(Seq<i128>, Seq<Seq<i128>>)>,
    table: Seq<Seq<i128>>,
    g: Seq<Seq<usize>>,
    kp: Seq<Seq<i128>>,
    s: int,
    x: int,
)
    requires
        is_key_walk(es, kp),
        0 <= x < kp.len(),
        0 <= s < table.len(),
        table[s] == kp[0],
        g.len() == table.len(),
        forall|a: int, j: int| 0 <= a < es.len() && 0 <= j < es[a].1.len() ==> table.contains(#[trigger] es[a].1[j]),
        forall|u: int, v: int| 0 <= u < table.len() && 0 <= v < table.len() ==> (#[trigger] edge(g, u, v) == key_edge(es, table[u], table[v])),
    ensures
        exists|w: int| 0 <= w < table.len() && table[w] == kp[x] && reaches(g, s, w),
    decreases x,
{
    if x == 0 {
        lemma_reaches_self(g, s);
    } else {
        lemma_lift_walk(es, table, g, kp, s, x - 1);
        let w = choose|w: int| 0 <= w < table.len() && table[w] == kp[x - 1] && reaches(g, s, w);
        assert(key_edge(es, kp[x - 1], kp[x]));
        let (a, j) = choose|a: int, j: int| 0 <= a < es.len() && 0 <= j < es[a].1.len() && es[a].0 == kp[x - 1] && #[trigger] es[a].1[j] == kp[x];
        assert(table.contains(es[a].1[j]));
        let w2 = choose|w2: int| 0 <= w2 < table.len() && table[w2] == kp[x];
        assert(edge(g, w, w2));
        lemma_reaches_step(g, s, w, w2);
    }
}

} // verus!
