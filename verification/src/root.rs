//! Finding the workspace root: the nearest directory, from a start path
//! upward, that holds the workspace marker.  The caller probes the file
//! system and reports, for each candidate directory in turn, whether the
//! marker is there.
use vstd::prelude::*;
use crate::paths::{
    components, has_root, normalize, normalize_all, normalize_components, normalized, path_components,
    push_all, push_component, pushed, root_component, views,
};
use crate::text::{chars_of, string_from_chars};

verus! {

/// The name of the directory that marks a workspace root.
pub const WORKSPACE_MARKER: &'static str = ".plumb";

/// The components of the directory a search starts from: the normalised
/// start, or its parent when the start is a file that has one.
pub open spec fn search_dir(start: Seq<char>, start_is_file: bool) -> Seq<Seq<char>> {
    let cs = normalize_components(path_components(start));
    if start_is_file && cs.len() > 0 && cs.last() != root_component() {
        cs.drop_last()
    } else {
        cs
    }
}

/// How many components the farthest ancestor keeps: the root for an
/// absolute directory, none for a relative one.
pub open spec fn lowest_ancestor(dir: Seq<Seq<char>>) -> int {
    if dir.len() > 0 && dir[0] == root_component() {
        1
    } else {
        0
    }
}

/// How many directories a search visits: the directory and each ancestor.
pub open spec fn candidate_count(dir: Seq<Seq<char>>) -> int {
    dir.len() + 1 - lowest_ancestor(dir)
}

/// The `i`-th directory a search visits, nearest first.
pub open spec fn candidate(dir: Seq<Seq<char>>, i: int) -> Seq<char> {
    pushed(dir.take(dir.len() - i))
}

/// The root a search settles on, looking from the `i`-th candidate on:
/// the first candidate reported as marked, else the start directory.
pub open spec fn first_marked(dir: Seq<Seq<char>>, marked: Seq<bool>, i: int) -> Seq<char>
    decreases candidate_count(dir) - i,
{
    if i < 0 || i >= candidate_count(dir) || i >= marked.len() {
        normalized(pushed(dir))
    } else if marked[i] {
        normalized(candidate(dir, i))
    } else {
        first_marked(dir, marked, i + 1)
    }
}

fn search_dir_exec(start: &str, start_is_file: bool) -> (dir: Vec<Vec<char>>)
    ensures
        views(dir@) == search_dir(start@, start_is_file),
{
    let cs = components(start);
    let mut dir = normalize_all(&cs);
    let n = dir.len();
    if start_is_file && n > 0 {
        let last_is_root = dir[n - 1].len() == 1 && dir[n - 1][0] == '/';
        proof {
            let last = dir@[n - 1]@;
            assert(views(dir@).last() == last);
            if last == root_component() {
                assert(last.len() == 1 && last[0] == '/');
            }
            if last.len() == 1 && last[0] == '/' {
                assert(last =~= root_component());
            }
        }
        if !last_is_root {
            let ghost before = dir@;
            dir.pop();
            proof {
                assert(views(dir@) =~= views(before).drop_last());
            }
        }
    }
    dir
}

/// The directories a root search visits, nearest first: the start's
/// directory (its parent when it is a file), then each ancestor.
pub fn workspace_root_candidates(start: &str, start_is_file: bool) -> (dirs: Vec<String>)
    ensures
        dirs.len() == candidate_count(search_dir(start@, start_is_file)),
        forall|i: int| 0 <= i < dirs.len() ==> #[trigger] dirs@[i]@ == candidate(search_dir(start@, start_is_file), i),
{
    let dir = search_dir_exec(start, start_is_file);
    let ghost d = views(dir@);
    let lowest: usize = if dir.len() > 0 && dir[0].len() == 1 && dir[0][0] == '/' { 1 } else { 0 };
    proof {
        if dir.len() > 0 {
            let first = dir@[0]@;
            assert(d[0] == first);
            if first == root_component() {
                assert(first.len() == 1 && first[0] == '/');
            }
            if first.len() == 1 && first[0] == '/' {
                assert(first =~= root_component());
            }
        }
        assert(lowest == lowest_ancestor(d));
    }
    // Prefixes of the directory, shortest first.
    let mut prefixes: Vec<String> = Vec::new();
    let mut buf: Vec<char> = Vec::new();
    let mut k: usize = 0;
    while k < dir.len()
        invariant
            k <= dir.len(),
            d == views(dir@),
            buf@ == pushed(d.take(k as int)),
            prefixes.len() == k,
            forall|j: int| 0 <= j < k ==> #[trigger] prefixes@[j]@ == pushed(d.take(j)),
        decreases dir.len() - k,
    {
        prefixes.push(string_from_chars(&buf));
        proof {
            assert(d.take(k + 1).drop_last() == d.take(k as int));
            assert(d.take(k + 1).last() == dir@[k as int]@);
        }
        crate::paths::push_onto(&mut buf, &dir[k]);
        k = k + 1;
    }
    prefixes.push(string_from_chars(&buf));
    assert(d.take(dir.len() as int) == d);
    // Nearest first: the longest prefix down to the lowest ancestor.
    let mut dirs: Vec<String> = Vec::new();
    let mut i: usize = 0;
    let count = prefixes.len() - lowest;
    while i < count
        invariant
            d == views(dir@),
            lowest == lowest_ancestor(d),
            count == candidate_count(d),
            count <= prefixes.len(),
            prefixes.len() == dir.len() + 1,
            forall|j: int| 0 <= j <= dir.len() ==> #[trigger] prefixes@[j]@ == pushed(d.take(j)),
            i <= count,
            dirs.len() == i,
            forall|j: int| 0 <= j < i ==> #[trigger] dirs@[j]@ == candidate(d, j),
        decreases count - i,
    {
        let p = prefixes[dir.len() - i].clone();
        proof {
            assert(prefixes@[dir.len() - i]@ == pushed(d.take(dir.len() - i)));
        }
        dirs.push(p);
        i = i + 1;
    }
    dirs
}

/// The workspace root for a start path: the first candidate directory
/// (see `workspace_root_candidates`) that `marked` reports as holding the
/// marker, else the start's directory, normalised.  Candidates past the end
/// of `marked` count as unmarked.
pub fn discover_workspace_root(start: &str, start_is_file: bool, marked: &Vec<bool>) -> (root: String)
    ensures
        root@ == first_marked(search_dir(start@, start_is_file), marked@, 0),
{
    let dirs = workspace_root_candidates(start, start_is_file);
    let ghost d = search_dir(start@, start_is_file);
    let mut i: usize = 0;
    while i < dirs.len() && i < marked.len()
        invariant
            d == search_dir(start@, start_is_file),
            i <= dirs.len(),
            dirs.len() == candidate_count(d),
            forall|j: int| 0 <= j < dirs.len() ==> #[trigger] dirs@[j]@ == candidate(d, j),
            first_marked(d, marked@, 0) == first_marked(d, marked@, i as int),
        decreases dirs.len() - i,
    {
        if marked[i] {
            return normalize(dirs[i].as_str());
        }
        i = i + 1;
    }
    let dir = search_dir_exec(start, start_is_file);
    let buf = push_all(&dir);
    let s = string_from_chars(&buf);
    normalize(s.as_str())
}

/// The root a command works in: an explicit absolute root as it is, an
/// explicit relative root joined to the current directory, otherwise the
/// root discovered from the current directory; all normalised.
pub open spec fn resolved_root(explicit: Option<Seq<char>>, current: Seq<char>, current_is_file: bool, marked: Seq<bool>) -> Seq<char> {
    match explicit {
        Some(root) => if has_root(root) {
            normalized(root)
        } else {
            normalized(push_component(current, root))
        },
        None => first_marked(search_dir(current, current_is_file), marked, 0),
    }
}

/// Resolves the root a command works in (see `resolved_root`).
pub fn resolve_workspace_root_from(explicit: Option<&str>, current: &str, current_is_file: bool, marked: &Vec<bool>) -> (root: String)
    ensures
        root@ == resolved_root(
            match explicit {
                Some(r) => Some(r@),
                None => None,
            },
            current@,
            current_is_file,
            marked@,
        ),
{
    match explicit {
        Some(r) => {
            let rc = chars_of(r);
            if rc.len() > 0 && rc[0] == '/' {
                normalize(r)
            } else {
                let mut buf = chars_of(current);
                crate::paths::push_onto(&mut buf, &rc);
                let joined = string_from_chars(&buf);
                normalize(joined.as_str())
            }
        },
        None => discover_workspace_root(current, current_is_file, marked),
    }
}

/// The root found from position `i` on is the first marked candidate at
/// or after `i` (candidates run from the search directory itself up to its
/// highest ancestor), normalised; when none at or after `i` is marked, it
/// is the search directory, normalised.
pub proof fn lemma_first_marked_is_nearest(dir: Seq<Seq<char>>, marked: Seq<bool>, i: int)
    requires
        0 <= i,
    ensures
        forall|k: int|
            i <= k < candidate_count(dir) && k < marked.len() && #[trigger] marked[k] && (forall|m: int| i <= m < k ==> !marked[m])
                ==> first_marked(dir, marked, i) == normalized(candidate(dir, k)),
        (forall|m: int| i <= m < candidate_count(dir) && m < marked.len() ==> !#[trigger] marked[m]) ==> first_marked(dir, marked, i)
            == normalized(pushed(dir)),
    decreases candidate_count(dir) - i,
{
    if i < candidate_count(dir) && i < marked.len() {
        lemma_first_marked_is_nearest(dir, marked, i + 1);
        assert forall|k: int|
            i <= k < candidate_count(dir) && k < marked.len() && #[trigger] marked[k] && (forall|m: int| i <= m < k ==> !marked[m])
                implies first_marked(dir, marked, i) == normalized(candidate(dir, k)) by {
            if k > i {
                assert(!marked[i]);
                assert forall|m: int| i + 1 <= m < k implies !marked[m] by {}
            }
        }
    }
}

} // verus!
