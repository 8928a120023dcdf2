//! References to tasks: a document path and, for a task inside the
//! document, its id.
use vstd::prelude::*;
use crate::paths::{display_relative, display_workspace_path, normalize, normalized};
use crate::text::{chars_of, extend_chars, string_from_chars, utf8_len, utf8_len_exec};

verus! {

/// A task named by its document and id; no id names the document task.
#[derive(Debug, Clone, PartialEq, Eq, Hash)]
pub struct TaskRef {
    pub path: String,
    pub id: Option<String>,
}

/// How a task reference is shown: the displayed path, then `#` and the id
/// when there is one.
pub open spec fn task_ref_text(root: Seq<char>, path: Seq<char>, id: Option<Seq<char>>) -> Seq<char> {
    match id {
        Some(i) => display_relative(root, path) + seq!['#'] + i,
        None => display_relative(root, path),
    }
}

pub open spec fn id_view(id: Option<String>) -> Option<Seq<char>> {
    match id {
        Some(i) => Some(i@),
        None => None,
    }
}

impl TaskRef {
    /// The reference as shown to users, relative to the workspace root.
    pub fn display(&self, root: &str) -> (shown: String)
        ensures
            shown@ == task_ref_text(root@, self.path@, id_view(self.id)),
    {
        let path = display_workspace_path(root, self.path.as_str());
        match &self.id {
            Some(id) => {
                let mut chars = chars_of(path.as_str());
                chars.push('#');
                let id_chars = chars_of(id.as_str());
                extend_chars(&mut chars, &id_chars);
                string_from_chars(&chars)
            },
            None => path,
        }
    }

    /// A reference to a document task (no id) or to the task with `id`;
    /// `None` for a task that is neither.  The path is normalised.
    pub fn from_parts(path: &str, document_task: bool, id: Option<String>) -> (r: Option<TaskRef>)
        ensures
            (document_task || id is Some) == (r is Some),
            r matches Some(t) ==> t.path@ == normalized(path@) && id_view(t.id) == (if document_task {
                None
            } else {
                id_view(id)
            }),
    {
        if document_task || id.is_some() {
            let id = if document_task {
                None
            } else {
                id
            };
            Some(TaskRef { path: normalize(path), id })
        } else {
            None
        }
    }
}

/// The displayed form of a task reference (see `TaskRef::display`).
pub fn display_task_ref(root: &str, task: &TaskRef) -> (shown: String)
    ensures
        shown@ == task_ref_text(root@, task.path@, id_view(task.id)),
{
    task.display(root)
}

/// How search filters see a task reference: as it is displayed.
pub fn display_search_task_ref(root: &str, task_ref: &TaskRef) -> (shown: String)
    ensures
        shown@ == task_ref_text(root@, task_ref.path@, id_view(task_ref.id)),
{
    task_ref.display(root)
}


/// The position of the first `#` in a text.
pub open spec fn first_hash(s: Seq<char>) -> Option<int> {
    if exists|i: int| 0 <= i < s.len() && s[i] == '#' {
        Some(choose|i: int| 0 <= i < s.len() && s[i] == '#' && forall|j: int| 0 <= j < i ==> s[j] != '#')
    } else {
        None
    }
}

/// Where the parts of a task reference lie.  `source` is the reference
/// text, which starts at byte `range.start`; it names `target_id` when the
/// text after its first `#` is that id.  Then the byte range of the path
/// before the `#` (none when it is empty) and that of the id, which ends
/// where `range` ends.
pub fn task_reference_ranges(source: &str, range: &std::ops::Range<usize>, target_id: &str) -> (ranges: Option<
    (Option<std::ops::Range<usize>>, std::ops::Range<usize>),
>)
    requires
        range.start + utf8_len(source@) < usize::MAX,
    ensures
        match first_hash(source@) {
            None => ranges is None,
            Some(i) => if source@.skip(i + 1) != target_id@ {
                ranges is None
            } else {
                let sep = utf8_len(source@.take(i));
                ranges matches Some((path, id)) && id.start == range.start + sep + 1 && id.end == range.end && (if sep
                    > 0 {
                    path matches Some(p) && p.start == range.start && p.end == range.start + sep
                } else {
                    path is None
                })
            },
        },
{
    let s = chars_of(source);
    let mut i: usize = 0;
    while i < s.len() && s[i] != '#'
        invariant
            i <= s.len(),
            forall|j: int| 0 <= j < i ==> s@[j] != '#',
        decreases s.len() - i,
    {
        i = i + 1;
    }
    if i == s.len() {
        return None;
    }
    assert(first_hash(s@) == Some(i as int)) by {
        let k = choose|k: int| 0 <= k < s@.len() && s@[k] == '#' && forall|j: int| 0 <= j < k ==> s@[j] != '#';
        if k < i {
        } else if k > i {
            assert(s@[i as int] == '#');
        }
    }
    let mut rest: Vec<char> = Vec::new();
    let mut k: usize = i + 1;
    while k < s.len()
        invariant
            i < s.len(),
            i + 1 <= k <= s.len(),
            rest@ == s@.subrange(i + 1, k as int),
        decreases s.len() - k,
    {
        rest.push(s[k]);
        assert(s@.subrange(i + 1, k + 1) == s@.subrange(i + 1, k as int).push(s@[k as int]));
        k = k + 1;
    }
    assert(rest@ == s@.skip(i + 1));
    if !crate::text::chars_equal(&rest, &chars_of(target_id)) {
        return None;
    }
    let mut head: Vec<char> = Vec::new();
    let mut m: usize = 0;
    while m < i
        invariant
            m <= i < s.len(),
            head@ == s@.take(m as int),
        decreases i - m,
    {
        head.push(s[m]);
        assert(s@.take(m + 1) == s@.take(m as int).push(s@[m as int]));
        m = m + 1;
    }
    proof {
        crate::text::lemma_utf8_len_prefix(s@, i + 1);
        assert(s@.take(i + 1).drop_last() == s@.take(i as int));
        assert(utf8_len(s@.take(i + 1)) == utf8_len(s@.take(i as int)) + 1);
    }
    let sep = utf8_len_exec(&head, usize::MAX - range.start);
    let path = if sep > 0 {
        Some(std::ops::Range { start: range.start, end: range.start + sep })
    } else {
        None
    };
    Some((path, std::ops::Range { start: range.start + sep + 1, end: range.end }))
}

} // verus!
