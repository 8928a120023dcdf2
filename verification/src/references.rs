//! Relations between documents and tasks: which documents reference a
//! document (directly and transitively), which tasks depend on a task, and
//! whether a task lies on a dependency cycle.  Paths are compared and
//! ordered component by component, task references by path, then id.
use vstd::prelude::*;
use crate::keyed::{entry_keys, index_of, key_reach_set, key_reaches, key_views};
use crate::order::{push_str_key, sort_by_keys, sorted_permutation, permuted, str_key, unique_sorted, unique_sorted_by};
use crate::paths::{normalize, normalized, path_key, push_path_key};
use crate::query::{WorkspaceScan, WorkspaceTaskKey};
use crate::refs::{id_view, TaskRef};
use crate::text::chars_of;

verus! {

// ---------------------------------------------------------------------------
// Keys.

/// The key of a task reference: its path, then no id before any id, ids by
/// their characters.
pub open spec fn ref_key(r: TaskRef) -> Seq<i128> {
    ref_key_of(r.path@, id_view(r.id))
}

/// The key of the reference to the task `id` (or the document task) of the
/// document at `path`.
pub open spec fn ref_key_of(path: Seq<char>, id: Option<Seq<char>>) -> Seq<i128> {
    path_key(path) + match id {
        None => seq![0i128],
        Some(i) => seq![1i128] + str_key(i),
    }
}

pub fn ref_key_exec(r: &TaskRef) -> (key: Vec<i128>)
    ensures
        key@ == ref_key(*r),
{
    let mut key: Vec<i128> = Vec::new();
    push_path_key(&mut key, r.path.as_str());
    match &r.id {
        None => {
            key.push(0);
        },
        Some(id) => {
            key.push(1);
            let chars = chars_of(id.as_str());
            push_str_key(&mut key, &chars);
        },
    }
    assert(key@ =~= ref_key(*r));
    key
}

/// The key of a task named by document and start offset.
pub open spec fn task_key_key(k: WorkspaceTaskKey) -> Seq<i128> {
    path_key(k.path@) + seq![k.start as i128]
}

fn task_key_key_exec(k: &WorkspaceTaskKey) -> (key: Vec<i128>)
    ensures
        key@ == task_key_key(*k),
{
    let mut key: Vec<i128> = Vec::new();
    push_path_key(&mut key, k.path.as_str());
    key.push(k.start as i128);
    assert(key@ =~= task_key_key(*k));
    key
}

/// A copy of a task reference.
pub fn copy_ref(r: &TaskRef) -> (c: TaskRef)
    ensures
        c == *r,
{
    TaskRef {
        path: r.path.clone(),
        id: match &r.id {
            Some(id) => Some(id.clone()),
            None => None,
        },
    }
}

pub open spec fn ref_keys(refs: Seq<TaskRef>) -> Seq<Seq<i128>> {
    refs.map_values(|r: TaskRef| ref_key(r))
}

fn ref_keys_exec(refs: &Vec<TaskRef>) -> (keys: Vec<Vec<i128>>)
    ensures
        keys.len() == refs.len(),
        keys@.map_values(|k: Vec<i128>| k@) == ref_keys(refs@),
{
    let mut keys: Vec<Vec<i128>> = Vec::new();
    let mut i: usize = 0;
    while i < refs.len()
        invariant
            i <= refs.len(),
            keys.len() == i,
            forall|j: int| 0 <= j < i ==> #[trigger] keys@[j]@ == ref_key(refs@[j]),
        decreases refs.len() - i,
    {
        keys.push(ref_key_exec(&refs[i]));
        i = i + 1;
    }
    assert(keys@.map_values(|k: Vec<i128>| k@) =~= ref_keys(refs@));
    keys
}

/// Task references sorted by path and id, each once.
pub fn sorted_unique_refs(refs: Vec<TaskRef>) -> (out: Vec<TaskRef>)
    ensures
        unique_sorted_by(refs@, ref_keys(refs@), out@),
{
    let keys = ref_keys_exec(&refs);
    unique_sorted(refs, &keys)
}

// ---------------------------------------------------------------------------
// Dependency cycles.

/// The dependency graph as keyed successor lists.
pub open spec fn ref_graph(graph: Seq<(TaskRef, Vec<TaskRef>)>) -> Seq<(Seq<i128>, Seq<Seq<i128>>)> {
    graph.map_values(|e: (TaskRef, Vec<TaskRef>)| (ref_key(e.0), ref_keys(e.1@)))
}

/// `start` lies on a cycle: some task that `start` reaches depends on it.
pub open spec fn on_cycle(es: Seq<(Seq<i128>, Seq<Seq<i128>>)>, start: Seq<i128>) -> bool {
    exists|a: int, j: int|
        0 <= a < es.len() && 0 <= j < es[a].1.len() && #[trigger] es[a].1[j] == start && key_reaches(es, start, es[a].0)
}

/// Whether following dependencies from `start` leads back to it (`graph`
/// lists each task's dependencies).
pub fn dependency_cycle_contains(graph: &Vec<(TaskRef, Vec<TaskRef>)>, start: &TaskRef) -> (cycle: bool)
    ensures
        cycle == on_cycle(ref_graph(graph@), ref_key(*start)),
{
    let ghost es = ref_graph(graph@);
    let mut entries: Vec<(Vec<i128>, Vec<Vec<i128>>)> = Vec::new();
    let mut i: usize = 0;
    while i < graph.len()
        invariant
            i <= graph.len(),
            entries.len() == i,
            forall|a: int| 0 <= a < i ==> #[trigger] entry_keys(entries@)[a] == es[a],
            es == ref_graph(graph@),
        decreases graph.len() - i,
    {
        let key = ref_key_exec(&graph[i].0);
        let deps = ref_keys_exec(&graph[i].1);
        let ghost before = entries@;
        let ghost kv = key@;
        let ghost dv = deps@.map_values(|k: Vec<i128>| k@);
        entries.push((key, deps));
        proof {
            assert(entry_keys(entries@)[i as int] == (kv, dv));
            assert(es[i as int] == (ref_key(graph@[i as int].0), ref_keys(graph@[i as int].1@)));
            assert forall|a: int| 0 <= a < i + 1 implies #[trigger] entry_keys(entries@)[a] == es[a] by {
                if a < i {
                    assert(entries@[a] == before[a]);
                    assert(entry_keys(entries@)[a] == entry_keys(before)[a]);
                }
            }
        }
        i = i + 1;
    }
    proof {
        assert(entry_keys(entries@) =~= es);
    }
    let start_key = ref_key_exec(start);
    let (nodes, marked) = key_reach_set(&entries, &start_key);
    let mut a: usize = 0;
    while a < entries.len()
        invariant
            a <= entries.len(),
            es == entry_keys(entries@),
            es == ref_graph(graph@),
            start_key@ == ref_key(*start),
            nodes.len() == marked.len(),
            forall|u: int| 0 <= u < nodes.len() ==> #[trigger] marked@[u] == key_reaches(es, start_key@, nodes@[u]@),
            forall|k: Seq<i128>| key_reaches(es, start_key@, k) ==> key_views(nodes@).contains(k),
            forall|b: int, j: int| 0 <= b < a && 0 <= j < es[b].1.len() && #[trigger] es[b].1[j] == start_key@ ==> !key_reaches(es, start_key@, es[b].0),
        decreases entries.len() - a,
    {
        let deps = &entries[a].1;
        let mut lists_start = false;
        let mut j: usize = 0;
        while j < deps.len()
            invariant
                j <= deps.len(),
                a < entries.len(),
                es == entry_keys(entries@),
                deps@.map_values(|k: Vec<i128>| k@) == es[a as int].1,
                lists_start == exists|m: int| 0 <= m < j && #[trigger] es[a as int].1[m] == start_key@,
            decreases deps.len() - j,
        {
            let same = crate::keyed::equal_keys(&deps[j], &start_key);
            proof {
                assert(es[a as int].1[j as int] == deps@[j as int]@);
                if exists|m: int| 0 <= m < j + 1 && #[trigger] es[a as int].1[m] == start_key@ {
                    let m = choose|m: int| 0 <= m < j + 1 && #[trigger] es[a as int].1[m] == start_key@;
                    if m < j {
                        assert(exists|m2: int| 0 <= m2 < j && #[trigger] es[a as int].1[m2] == start_key@);
                    }
                }
            }
            if same {
                lists_start = true;
            }
            j = j + 1;
        }
        if lists_start {
            proof {
                assert(es[a as int].0 == entries@[a as int].0@);
            }
            match index_of(&nodes, &entries[a].0) {
                Some(u) => {
                    if marked[u] {
                        proof {
                            let m = choose|m: int| 0 <= m < deps.len() && #[trigger] es[a as int].1[m] == start_key@;
                        }
                        return true;
                    }
                },
                None => {},
            }
            proof {
                if key_reaches(es, start_key@, es[a as int].0) {
                    assert(key_views(nodes@).contains(es[a as int].0));
                }
            }
        }
        a = a + 1;
    }
    false
}

// ---------------------------------------------------------------------------
// Sorted paths and reverse references.

pub open spec fn path_keys(paths: Seq<String>) -> Seq<Seq<i128>> {
    paths.map_values(|p: String| path_key(p@))
}

pub(crate) fn path_keys_exec(paths: &Vec<String>) -> (keys: Vec<Vec<i128>>)
    ensures
        keys.len() == paths.len(),
        keys@.map_values(|k: Vec<i128>| k@) == path_keys(paths@),
{
    let mut keys: Vec<Vec<i128>> = Vec::new();
    let mut i: usize = 0;
    while i < paths.len()
        invariant
            i <= paths.len(),
            keys.len() == i,
            forall|j: int| 0 <= j < i ==> #[trigger] keys@[j]@ == path_key(paths@[j]@),
        decreases paths.len() - i,
    {
        let mut key: Vec<i128> = Vec::new();
        push_path_key(&mut key, paths[i].as_str());
        keys.push(key);
        i = i + 1;
    }
    assert(keys@.map_values(|k: Vec<i128>| k@) =~= path_keys(paths@));
    keys
}

/// Paths in path order (component by component), stably.
pub fn sorted_search_paths(values: Vec<String>) -> (sorted: Vec<String>)
    ensures
        exists|perm: Seq<int>| sorted_permutation(path_keys(values@), perm) && permuted(values@, sorted@, perm),
{
    let keys = path_keys_exec(&values);
    sort_by_keys(values, &keys)
}

/// The sort keys of texts: their characters.
pub open spec fn text_keys(values: Seq<String>) -> Seq<Seq<i128>> {
    values.map_values(|v: String| str_key(v@))
}

/// A workspace scan as found files and errors: the files in path order,
/// each path once, and the errors in text order.
pub fn finish_scan(files: Vec<String>, errors: Vec<String>) -> (scan: WorkspaceScan)
    ensures
        unique_sorted_by(files@, path_keys(files@), scan.files@),
        exists|perm: Seq<int>| sorted_permutation(text_keys(errors@), perm) && permuted(errors@, scan.errors@, perm),
{
    let file_keys = path_keys_exec(&files);
    let files = unique_sorted(files, &file_keys);
    let mut keys: Vec<Vec<i128>> = Vec::new();
    let mut i: usize = 0;
    while i < errors.len()
        invariant
            i <= errors.len(),
            keys.len() == i,
            forall|j: int| 0 <= j < i ==> #[trigger] keys@[j]@ == str_key(errors@[j]@),
        decreases errors.len() - i,
    {
        let mut key: Vec<i128> = Vec::new();
        push_str_key(&mut key, &chars_of(errors[i].as_str()));
        assert(key@ =~= str_key(errors@[i as int]@));
        keys.push(key);
        i = i + 1;
    }
    assert(keys@.map_values(|k: Vec<i128>| k@) =~= text_keys(errors@));
    let errors = sort_by_keys(errors, &keys);
    WorkspaceScan { files, errors }
}

/// The documents that reference others: `links` holds each reference as a
/// pair of the referencing document and the referenced one.
#[derive(Debug, Clone)]
pub struct ReverseReferences {
    pub links: Vec<(String, String)>,
}

/// The referencing documents of the links whose target is `target`.
pub open spec fn sources_of(links: Seq<(String, String)>, target: Seq<i128>) -> Seq<String>
    decreases links.len(),
{
    if links.len() == 0 {
        seq![]
    } else {
        let rest = sources_of(links.drop_last(), target);
        if path_key(links.last().1@) == target {
            rest.push(links.last().0)
        } else {
            rest
        }
    }
}

/// The links as a keyed graph from referenced to referencing documents.
pub open spec fn referenced_by(links: Seq<(String, String)>) -> Seq<(Seq<i128>, Seq<Seq<i128>>)> {
    links.map_values(|l: (String, String)| (path_key(l.1@), seq![path_key(l.0@)]))
}

/// The referencing documents of the links whose referencing document
/// `start` reaches, other than `start` itself.
pub open spec fn reached_sources(links: Seq<(String, String)>, all: Seq<(String, String)>, start: Seq<i128>) -> Seq<String>
    decreases links.len(),
{
    if links.len() == 0 {
        seq![]
    } else {
        let rest = reached_sources(links.drop_last(), all, start);
        let k = path_key(links.last().0@);
        if k != start && key_reaches(referenced_by(all), start, k) {
            rest.push(links.last().0)
        } else {
            rest
        }
    }
}

fn copy_string(s: &String) -> (c: String)
    ensures
        c == *s,
{
    s.clone()
}

impl ReverseReferences {
    /// The reverse references of a set of links (referencing document,
    /// referenced document).
    pub fn build(links: Vec<(String, String)>) -> (r: ReverseReferences)
        ensures
            r.links@ == links@,
    {
        ReverseReferences { links }
    }

    /// The documents that reference `path` directly, each once, in path
    /// order.
    pub fn direct(&self, path: &str) -> (sources: Vec<String>)
        ensures
            unique_sorted_by(
                sources_of(self.links@, path_key(path@)),
                path_keys(sources_of(self.links@, path_key(path@))),
                sources@,
            ),
    {
        let mut target: Vec<i128> = Vec::new();
        push_path_key(&mut target, path);
        let mut found: Vec<String> = Vec::new();
        let mut i: usize = 0;
        while i < self.links.len()
            invariant
                i <= self.links.len(),
                target@ == path_key(path@),
                found@ == sources_of(self.links@.take(i as int), target@),
            decreases self.links.len() - i,
        {
            let mut key: Vec<i128> = Vec::new();
            push_path_key(&mut key, self.links[i].1.as_str());
            proof {
                assert(self.links@.take(i + 1).drop_last() == self.links@.take(i as int));
                assert(self.links@.take(i + 1).last() == self.links@[i as int]);
            }
            if crate::keyed::equal_keys(&key, &target) {
                found.push(copy_string(&self.links[i].0));
            }
            i = i + 1;
        }
        assert(self.links@.take(self.links.len() as int) == self.links@);
        let keys = path_keys_exec(&found);
        unique_sorted(found, &keys)
    }

    /// The documents that reference `path` directly or through other
    /// documents, other than `path` itself, each once, in path order.
    pub fn transitive(&self, path: &str) -> (sources: Vec<String>)
        ensures
            unique_sorted_by(
                reached_sources(self.links@, self.links@, path_key(path@)),
                path_keys(reached_sources(self.links@, self.links@, path_key(path@))),
                sources@,
            ),
    {
        let ghost es = referenced_by(self.links@);
        let mut entries: Vec<(Vec<i128>, Vec<Vec<i128>>)> = Vec::new();
        let mut i: usize = 0;
        while i < self.links.len()
            invariant
                i <= self.links.len(),
                es == referenced_by(self.links@),
                entries.len() == i,
                forall|a: int| 0 <= a < i ==> #[trigger] entry_keys(entries@)[a] == es[a],
            decreases self.links.len() - i,
        {
            let mut target: Vec<i128> = Vec::new();
            push_path_key(&mut target, self.links[i].1.as_str());
            let mut source: Vec<i128> = Vec::new();
            push_path_key(&mut source, self.links[i].0.as_str());
            let ghost source_view = source@;
            let succ: Vec<Vec<i128>> = vec![source];
            let ghost before = entries@;
            let ghost tv = target@;
            let ghost sv = succ@.map_values(|k: Vec<i128>| k@);
            entries.push((target, succ));
            proof {
                assert(sv =~= seq![source_view]);
                assert(entry_keys(entries@)[i as int] == (tv, sv));
                assert(es[i as int] == (path_key(self.links@[i as int].1@), seq![path_key(self.links@[i as int].0@)]));
                assert forall|a: int| 0 <= a < i + 1 implies #[trigger] entry_keys(entries@)[a] == es[a] by {
                    if a < i {
                        assert(entries@[a] == before[a]);
                        assert(entry_keys(entries@)[a] == entry_keys(before)[a]);
                    }
                }
            }
            i = i + 1;
        }
        proof {
            assert(entry_keys(entries@) =~= es);
        }
        let mut start: Vec<i128> = Vec::new();
        push_path_key(&mut start, path);
        let (nodes, marked) = key_reach_set(&entries, &start);
        let mut found: Vec<String> = Vec::new();
        let mut j: usize = 0;
        while j < self.links.len()
            invariant
                j <= self.links.len(),
                es == referenced_by(self.links@),
                es == entry_keys(entries@),
                start@ == path_key(path@),
                nodes.len() == marked.len(),
                forall|u: int| 0 <= u < nodes.len() ==> #[trigger] marked@[u] == key_reaches(es, start@, nodes@[u]@),
                forall|k: Seq<i128>| key_reaches(es, start@, k) ==> key_views(nodes@).contains(k),
                found@ == reached_sources(self.links@.take(j as int), self.links@, start@),
            decreases self.links.len() - j,
        {
            let mut key: Vec<i128> = Vec::new();
            push_path_key(&mut key, self.links[j].0.as_str());
            proof {
                assert(self.links@.take(j + 1).drop_last() == self.links@.take(j as int));
                assert(self.links@.take(j + 1).last() == self.links@[j as int]);
            }
            let is_start = crate::keyed::equal_keys(&key, &start);
            let reached = match index_of(&nodes, &key) {
                Some(u) => marked[u],
                None => false,
            };
            proof {
                if key_reaches(es, start@, key@) {
                    assert(key_views(nodes@).contains(key@));
                }
            }
            if !is_start && reached {
                found.push(copy_string(&self.links[j].0));
            }
            j = j + 1;
        }
        assert(self.links@.take(self.links.len() as int) == self.links@);
        let keys = path_keys_exec(&found);
        unique_sorted(found, &keys)
    }
}

// ---------------------------------------------------------------------------
// Dependents and dependencies grouped by task.

/// The tasks that directly depend on each task.
#[derive(Debug)]
pub struct DirectTaskDependents {
    pub by_target: Vec<(TaskRef, Vec<TaskRef>)>,
}

/// The list of the first entry whose key is `key`, or nothing.
pub open spec fn lookup(entries: Seq<(TaskRef, Vec<TaskRef>)>, key: Seq<i128>) -> Seq<TaskRef>
    decreases entries.len(),
{
    if entries.len() == 0 {
        seq![]
    } else if ref_key(entries[0].0) == key {
        entries[0].1@
    } else {
        lookup(entries.skip(1), key)
    }
}

fn copy_refs(refs: &Vec<TaskRef>) -> (c: Vec<TaskRef>)
    ensures
        c@ == refs@,
{
    let mut c: Vec<TaskRef> = Vec::new();
    let mut i: usize = 0;
    while i < refs.len()
        invariant
            i <= refs.len(),
            c@ == refs@.take(i as int),
        decreases refs.len() - i,
    {
        c.push(copy_ref(&refs[i]));
        assert(refs@.take(i + 1) == refs@.take(i as int).push(refs@[i as int]));
        i = i + 1;
    }
    assert(refs@.take(refs.len() as int) == refs@);
    c
}

impl DirectTaskDependents {
    /// The tasks that depend directly on the task `id` of the document at
    /// `path` (the path is normalised first).
    pub fn get(&self, path: &str, id: &str) -> (dependents: Vec<TaskRef>)
        ensures
            dependents@ == lookup(self.by_target@, ref_key_of(normalized(path@), Some(id@))),
    {
        let target = TaskRef { path: normalize(path), id: Some(id.to_owned()) };
        let key = ref_key_exec(&target);
        assert(id_view(target.id) == Some(id@));
        assert(key@ == ref_key_of(normalized(path@), Some(id@)));
        let mut i: usize = 0;
        assert(self.by_target@.skip(0) == self.by_target@);
        while i < self.by_target.len()
            invariant
                i <= self.by_target.len(),
                key@ == ref_key_of(normalized(path@), Some(id@)),
                lookup(self.by_target@, key@) == lookup(self.by_target@.skip(i as int), key@),
            decreases self.by_target.len() - i,
        {
            let entry_key = ref_key_exec(&self.by_target[i].0);
            assert(self.by_target@.skip(i as int)[0] == self.by_target@[i as int]);
            assert(self.by_target@.skip(i as int).skip(1) == self.by_target@.skip(i + 1));
            if crate::keyed::equal_keys(&entry_key, &key) {
                return copy_refs(&self.by_target[i].1);
            }
            i = i + 1;
        }
        assert(self.by_target@.skip(i as int).len() == 0);
        Vec::new()
    }
}

/// The values whose group key is `key`, in order.
pub open spec fn values_with_key(keys: Seq<Seq<i128>>, values: Seq<TaskRef>, key: Seq<i128>) -> Seq<TaskRef>
    decreases values.len(),
{
    if values.len() == 0 {
        seq![]
    } else {
        let rest = values_with_key(keys, values.drop_last(), key);
        if keys[values.len() - 1] == key {
            rest.push(values.last())
        } else {
            rest
        }
    }
}

/// `groups` has one entry per distinct key, in the order of first
/// occurrence: the first position with that key and that key's values,
/// sorted by path and id, each once.
pub open spec fn grouped(keys: Seq<Seq<i128>>, values: Seq<TaskRef>, groups: Seq<(usize, Vec<TaskRef>)>) -> bool {
    &&& forall|g: int| 0 <= g < groups.len() ==> crate::order::first_of_key(keys, #[trigger] groups[g].0 as int)
    &&& forall|g1: int, g2: int| 0 <= g1 < g2 < groups.len() ==> (#[trigger] groups[g1].0) < (#[trigger] groups[g2].0)
    &&& forall|i: int| #[trigger] crate::order::first_of_key(keys, i) ==> exists|g: int| 0 <= g < groups.len() && groups[g].0 as int == i
    &&& forall|g: int|
        0 <= g < groups.len() ==> unique_sorted_by(
            values_with_key(keys, values, keys[#[trigger] groups[g].0 as int]),
            ref_keys(values_with_key(keys, values, keys[groups[g].0 as int])),
            groups[g].1@,
        )
}

/// Groups `values` by `keys` (`keys[i]` is the group of `values[i]`).
fn group_refs(keys: &Vec<Vec<i128>>, values: &Vec<TaskRef>) -> (groups: Vec<(usize, Vec<TaskRef>)>)
    requires
        keys.len() == values.len(),
    ensures
        grouped(keys@.map_values(|k: Vec<i128>| k@), values@, groups@),
{
    let ghost ks = keys@.map_values(|k: Vec<i128>| k@);
    let n = keys.len();
    let mut groups: Vec<(usize, Vec<TaskRef>)> = Vec::new();
    let mut i: usize = 0;
    while i < n
        invariant
            i <= n,
            n == keys.len(),
            n == values.len(),
            ks == keys@.map_values(|k: Vec<i128>| k@),
            forall|g: int| 0 <= g < groups.len() ==> crate::order::first_of_key(ks, #[trigger] groups@[g].0 as int) && (groups@[g].0 as int) < i,
            forall|g1: int, g2: int| 0 <= g1 < g2 < groups.len() ==> (#[trigger] groups@[g1].0) < (#[trigger] groups@[g2].0),
            forall|x: int| 0 <= x < i && #[trigger] crate::order::first_of_key(ks, x) ==> exists|g: int| 0 <= g < groups.len() && groups@[g].0 as int == x,
            forall|g: int|
                0 <= g < groups.len() ==> unique_sorted_by(
                    values_with_key(ks, values@, ks[#[trigger] groups@[g].0 as int]),
                    ref_keys(values_with_key(ks, values@, ks[groups@[g].0 as int])),
                    groups@[g].1@,
                ),
        decreases n - i,
    {
        let mut first = true;
        let mut j: usize = 0;
        while j < i
            invariant
                j <= i < n,
                n == keys.len(),
                ks == keys@.map_values(|k: Vec<i128>| k@),
                first == forall|m: int| 0 <= m < j ==> ks[m] != #[trigger] ks[i as int],
            decreases i - j,
        {
            let same = crate::keyed::equal_keys(&keys[j], &keys[i]);
            proof {
                assert(ks[j as int] == keys@[j as int]@);
                assert(ks[i as int] == keys@[i as int]@);
            }
            if same {
                first = false;
            }
            j = j + 1;
        }
        if first {
            let mut members: Vec<TaskRef> = Vec::new();
            let mut m: usize = 0;
            while m < n
                invariant
                    m <= n,
                    i < n,
                    n == keys.len(),
                    n == values.len(),
                    ks == keys@.map_values(|k: Vec<i128>| k@),
                    members@ == values_with_key(ks, values@.take(m as int), ks[i as int]),
                decreases n - m,
            {
                let same = crate::keyed::equal_keys(&keys[m], &keys[i]);
                proof {
                    assert(ks[m as int] == keys@[m as int]@);
                    assert(ks[i as int] == keys@[i as int]@);
                    assert(values@.take(m + 1).drop_last() == values@.take(m as int));
                    assert(values@.take(m + 1).last() == values@[m as int]);
                }
                if same {
                    members.push(copy_ref(&values[m]));
                }
                m = m + 1;
            }
            assert(values@.take(n as int) == values@);
            let sorted = sorted_unique_refs(members);
            let ghost before = groups@;
            groups.push((i, sorted));
            proof {
                assert forall|x: int| 0 <= x < i + 1 && #[trigger] crate::order::first_of_key(ks, x) implies exists|g: int| 0 <= g < groups.len() && groups@[g].0 as int == x by {
                    if x < i {
                        let g = choose|g: int| 0 <= g < before.len() && before[g].0 as int == x;
                        assert(groups@[g] == before[g]);
                    } else {
                        assert(groups@[groups.len() - 1].0 as int == x);
                    }
                }
                assert forall|g: int|
                    0 <= g < groups.len() implies unique_sorted_by(
                        values_with_key(ks, values@, ks[#[trigger] groups@[g].0 as int]),
                        ref_keys(values_with_key(ks, values@, ks[groups@[g].0 as int])),
                        groups@[g].1@,
                    ) by {
                    if g < before.len() {
                        assert(groups@[g] == before[g]);
                    }
                }
            }
        } else {
            proof {
                assert(!crate::order::first_of_key(ks, i as int));
            }
        }
        i = i + 1;
    }
    groups
}

/// A task and the task it depends on.
#[derive(Debug)]
pub struct TaskRelation {
    pub source: WorkspaceTaskKey,
    pub target: TaskRef,
}

fn copy_task_key(k: &WorkspaceTaskKey) -> (c: WorkspaceTaskKey)
    ensures
        c == *k,
{
    WorkspaceTaskKey { path: k.path.clone(), start: k.start }
}

pub open spec fn relation_source_keys(relations: Seq<TaskRelation>) -> Seq<Seq<i128>> {
    relations.map_values(|r: TaskRelation| task_key_key(r.source))
}

pub open spec fn relation_targets(relations: Seq<TaskRelation>) -> Seq<TaskRef> {
    relations.map_values(|r: TaskRelation| r.target)
}

/// The dependencies of each task: one entry per source task (in order of
/// first appearance), with its targets sorted by path and id, each once.
pub fn dependencies_by_source(relations: &Vec<TaskRelation>) -> (result: Vec<(WorkspaceTaskKey, Vec<TaskRef>)>)
    ensures
        exists|groups: Seq<(usize, Vec<TaskRef>)>|
            #![trigger groups.len()]
            grouped(relation_source_keys(relations@), relation_targets(relations@), groups) && groups.len() == result.len()
                && forall|g: int| 0 <= g < groups.len() ==> #[trigger] result@[g] == (
                relations@[groups[g].0 as int].source,
                groups[g].1,
            ),
{
    let mut keys: Vec<Vec<i128>> = Vec::new();
    let mut targets: Vec<TaskRef> = Vec::new();
    let mut i: usize = 0;
    while i < relations.len()
        invariant
            i <= relations.len(),
            keys.len() == i,
            targets.len() == i,
            forall|j: int| 0 <= j < i ==> #[trigger] keys@[j]@ == task_key_key(relations@[j].source),
            forall|j: int| 0 <= j < i ==> #[trigger] targets@[j] == relations@[j].target,
        decreases relations.len() - i,
    {
        keys.push(task_key_key_exec(&relations[i].source));
        targets.push(copy_ref(&relations[i].target));
        i = i + 1;
    }
    proof {
        assert(keys@.map_values(|k: Vec<i128>| k@) =~= relation_source_keys(relations@));
        assert(targets@ =~= relation_targets(relations@));
    }
    let groups = group_refs(&keys, &targets);
    let mut result: Vec<(WorkspaceTaskKey, Vec<TaskRef>)> = Vec::new();
    let mut groups = groups;
    let ghost gs = groups@;
    let mut rev: Vec<(usize, Vec<TaskRef>)> = Vec::new();
    while groups.len() > 0
        invariant
            groups.len() + rev.len() == gs.len(),
            forall|k: int| 0 <= k < groups.len() ==> groups@[k] == gs[k],
            forall|k: int| 0 <= k < rev.len() ==> rev@[k] == gs[gs.len() - 1 - k],
        decreases groups.len(),
    {
        let g = groups.pop().unwrap();
        rev.push(g);
    }
    while rev.len() > 0
        invariant
            rev.len() + result.len() == gs.len(),
            forall|k: int| 0 <= k < rev.len() ==> rev@[k] == gs[gs.len() - 1 - k],
            forall|g: int| 0 <= g < gs.len() ==> (gs[g].0 as int) < relations.len(),
            forall|g: int| 0 <= g < result.len() ==> #[trigger] result@[g] == (relations@[gs[g].0 as int].source, gs[g].1),
        decreases rev.len(),
    {
        let (first, list) = rev.pop().unwrap();
        result.push((copy_task_key(&relations[first].source), list));
    }
    result
}

/// The dependents of each task: for each relation whose source task has a
/// reference in `task_refs_by_key` (the first entry with its key), that
/// reference is a dependent of the relation's target; one entry per target
/// (in order of first appearance), dependents sorted by path and id, each
/// once.
pub fn dependents_by_target(
    relations: &Vec<TaskRelation>,
    task_refs_by_key: &Vec<(WorkspaceTaskKey, TaskRef)>,
) -> (result: Vec<(TaskRef, Vec<TaskRef>)>)
    ensures
        exists|pairs: Seq<(TaskRef, TaskRef)>, groups: Seq<(usize, Vec<TaskRef>)>|
            #![trigger pairs.len(), groups.len()]
            pairs == resolved_relations(relations@, task_refs_by_key@) && grouped(
                pairs.map_values(|p: (TaskRef, TaskRef)| ref_key(p.0)),
                pairs.map_values(|p: (TaskRef, TaskRef)| p.1),
                groups,
            ) && groups.len() == result.len() && forall|g: int| 0 <= g < groups.len() ==> #[trigger] result@[g] == (
                pairs[groups[g].0 as int].0,
                groups[g].1,
            ),
{
    let mut keys: Vec<Vec<i128>> = Vec::new();
    let mut targets: Vec<TaskRef> = Vec::new();
    let mut sources: Vec<TaskRef> = Vec::new();
    let mut i: usize = 0;
    while i < relations.len()
        invariant
            i <= relations.len(),
            keys.len() == targets.len(),
            sources.len() == targets.len(),
            forall|j: int| 0 <= j < keys.len() ==> #[trigger] keys@[j]@ == ref_key(targets@[j]),
            resolved_relations(relations@.take(i as int), task_refs_by_key@) == Seq::new(
                targets.len() as nat,
                |j: int| (targets@[j], sources@[j]),
            ),
        decreases relations.len() - i,
    {
        let ghost prefix = relations@.take(i as int);
        proof {
            assert(relations@.take(i + 1).drop_last() == prefix);
            assert(relations@.take(i + 1).last() == relations@[i as int]);
        }
        match find_task_ref(task_refs_by_key, &relations[i].source) {
            Some(source) => {
                let target = copy_ref(&relations[i].target);
                keys.push(ref_key_exec(&target));
                targets.push(target);
                sources.push(source);
                proof {
                    assert(Seq::new(targets.len() as nat, |j: int| (targets@[j], sources@[j])) =~= resolved_relations(
                        prefix,
                        task_refs_by_key@,
                    ).push((relations@[i as int].target, source)));
                }
            },
            None => {},
        }
        i = i + 1;
    }
    assert(relations@.take(relations.len() as int) == relations@);
    let ghost pairs = resolved_relations(relations@, task_refs_by_key@);
    proof {
        assert(keys@.map_values(|k: Vec<i128>| k@) =~= pairs.map_values(|p: (TaskRef, TaskRef)| ref_key(p.0)));
        assert(sources@ =~= pairs.map_values(|p: (TaskRef, TaskRef)| p.1));
    }
    let groups = group_refs(&keys, &sources);
    let ghost gs = groups@;
    let mut groups = groups;
    let mut rev: Vec<(usize, Vec<TaskRef>)> = Vec::new();
    while groups.len() > 0
        invariant
            groups.len() + rev.len() == gs.len(),
            forall|k: int| 0 <= k < groups.len() ==> groups@[k] == gs[k],
            forall|k: int| 0 <= k < rev.len() ==> rev@[k] == gs[gs.len() - 1 - k],
        decreases groups.len(),
    {
        let g = groups.pop().unwrap();
        rev.push(g);
    }
    let mut result: Vec<(TaskRef, Vec<TaskRef>)> = Vec::new();
    while rev.len() > 0
        invariant
            rev.len() + result.len() == gs.len(),
            forall|k: int| 0 <= k < rev.len() ==> rev@[k] == gs[gs.len() - 1 - k],
            targets.len() == pairs.len(),
            forall|j: int| 0 <= j < pairs.len() ==> #[trigger] pairs[j].0 == targets@[j],
            forall|g: int| 0 <= g < gs.len() ==> (gs[g].0 as int) < pairs.len(),
            forall|g: int| 0 <= g < result.len() ==> #[trigger] result@[g] == (pairs[gs[g].0 as int].0, gs[g].1),
        decreases rev.len(),
    {
        let (first, list) = rev.pop().unwrap();
        result.push((copy_ref(&targets[first]), list));
    }
    result
}

/// The relations whose source task has a reference, as (target, source
/// reference) pairs, in order.
pub open spec fn resolved_relations(
    relations: Seq<TaskRelation>,
    refs_by_key: Seq<(WorkspaceTaskKey, TaskRef)>,
) -> Seq<(TaskRef, TaskRef)>
    decreases relations.len(),
{
    if relations.len() == 0 {
        seq![]
    } else {
        let rest = resolved_relations(relations.drop_last(), refs_by_key);
        match first_ref_for(refs_by_key, task_key_key(relations.last().source)) {
            Some(r) => rest.push((relations.last().target, r)),
            None => rest,
        }
    }
}

/// The reference of the first entry whose task key is `key`.
pub open spec fn first_ref_for(refs_by_key: Seq<(WorkspaceTaskKey, TaskRef)>, key: Seq<i128>) -> Option<TaskRef>
    decreases refs_by_key.len(),
{
    if refs_by_key.len() == 0 {
        None
    } else if task_key_key(refs_by_key[0].0) == key {
        Some(refs_by_key[0].1)
    } else {
        first_ref_for(refs_by_key.skip(1), key)
    }
}

fn find_task_ref(refs_by_key: &Vec<(WorkspaceTaskKey, TaskRef)>, key: &WorkspaceTaskKey) -> (found: Option<TaskRef>)
    ensures
        found == first_ref_for(refs_by_key@, task_key_key(*key)),
{
    let target = task_key_key_exec(key);
    let mut i: usize = 0;
    assert(refs_by_key@.skip(0) == refs_by_key@);
    while i < refs_by_key.len()
        invariant
            i <= refs_by_key.len(),
            target@ == task_key_key(*key),
            first_ref_for(refs_by_key@, target@) == first_ref_for(refs_by_key@.skip(i as int), target@),
        decreases refs_by_key.len() - i,
    {
        let k = task_key_key_exec(&refs_by_key[i].0);
        assert(refs_by_key@.skip(i as int)[0] == refs_by_key@[i as int]);
        assert(refs_by_key@.skip(i as int).skip(1) == refs_by_key@.skip(i + 1));
        if crate::keyed::equal_keys(&k, &target) {
            return Some(copy_ref(&refs_by_key[i].1));
        }
        i = i + 1;
    }
    assert(refs_by_key@.skip(i as int).len() == 0);
    None
}

impl DirectTaskDependents {
    /// Groups (target, dependent) pairs by target: one entry per target, in
    /// order of first appearance, dependents sorted by path and id, each once.
    pub fn build(pairs: &Vec<(TaskRef, TaskRef)>) -> (dependents: DirectTaskDependents)
        ensures
            exists|groups: Seq<(usize, Vec<TaskRef>)>|
                #![trigger groups.len()]
                grouped(
                    pairs@.map_values(|p: (TaskRef, TaskRef)| ref_key(p.0)),
                    pairs@.map_values(|p: (TaskRef, TaskRef)| p.1),
                    groups,
                ) && groups.len() == dependents.by_target.len() && forall|g: int|
                    0 <= g < groups.len() ==> #[trigger] dependents.by_target@[g] == (pairs@[groups[g].0 as int].0, groups[g].1),
    {
        let mut keys: Vec<Vec<i128>> = Vec::new();
        let mut sources: Vec<TaskRef> = Vec::new();
        let mut i: usize = 0;
        while i < pairs.len()
            invariant
                i <= pairs.len(),
                keys.len() == i,
                sources.len() == i,
                forall|j: int| 0 <= j < i ==> #[trigger] keys@[j]@ == ref_key(pairs@[j].0),
                forall|j: int| 0 <= j < i ==> #[trigger] sources@[j] == pairs@[j].1,
            decreases pairs.len() - i,
        {
            keys.push(ref_key_exec(&pairs[i].0));
            sources.push(copy_ref(&pairs[i].1));
            i = i + 1;
        }
        proof {
            assert(keys@.map_values(|k: Vec<i128>| k@) =~= pairs@.map_values(|p: (TaskRef, TaskRef)| ref_key(p.0)));
            assert(sources@ =~= pairs@.map_values(|p: (TaskRef, TaskRef)| p.1));
        }
        let groups = group_refs(&keys, &sources);
        let ghost gs = groups@;
        let mut groups = groups;
        let mut rev: Vec<(usize, Vec<TaskRef>)> = Vec::new();
        while groups.len() > 0
            invariant
                groups.len() + rev.len() == gs.len(),
                forall|k: int| 0 <= k < groups.len() ==> groups@[k] == gs[k],
                forall|k: int| 0 <= k < rev.len() ==> rev@[k] == gs[gs.len() - 1 - k],
            decreases groups.len(),
        {
            let g = groups.pop().unwrap();
            rev.push(g);
        }
        let mut by_target: Vec<(TaskRef, Vec<TaskRef>)> = Vec::new();
        while rev.len() > 0
            invariant
                rev.len() + by_target.len() == gs.len(),
                forall|k: int| 0 <= k < rev.len() ==> rev@[k] == gs[gs.len() - 1 - k],
                forall|g: int| 0 <= g < gs.len() ==> (gs[g].0 as int) < pairs.len(),
                forall|g: int| 0 <= g < by_target.len() ==> #[trigger] by_target@[g] == (pairs@[gs[g].0 as int].0, gs[g].1),
            decreases rev.len(),
        {
            let (first, list) = rev.pop().unwrap();
            by_target.push((copy_ref(&pairs[first].0), list));
        }
        DirectTaskDependents { by_target }
    }
}

} // verus!
