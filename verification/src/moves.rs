//! Decisions of moving a task block: which placements are refused, where
//! the block goes after it is removed from its own parent, and which block
//! a top-level move follows.  Ranges are byte spans `(start, end)`.
use vstd::prelude::*;

verus! {

/// `outer` contains `inner`.
pub open spec fn span_contains(outer: (usize, usize), inner: (usize, usize)) -> bool {
    outer.0 <= inner.0 && inner.1 <= outer.1
}

/// A placement is refused when the new parent lies inside the moved task
/// (the task would become its own descendant) or the task would follow
/// itself.
pub fn move_placement_refused(task: (usize, usize), parent: Option<(usize, usize)>, after: Option<(usize, usize)>) -> (refused: bool)
    ensures
        refused == ((parent matches Some(p) && span_contains(task, p)) || after == Some(task)),
{
    let inside = match parent {
        Some(p) => task.0 <= p.0 && p.1 <= task.1,
        None => false,
    };
    let follows_itself = match after {
        Some(a) => a.0 == task.0 && a.1 == task.1,
        None => false,
    };
    inside || follows_itself
}

/// Where a block is inserted among the children of its new parent (whose
/// path below their common root is `parent`) once it has been removed from
/// its old place (`source`, its path below the same root): a block that
/// was a child of that parent before the insertion point moves the point
/// back by one.
pub open spec fn insertion_after_removal_spec(source: Seq<usize>, parent: Seq<usize>, insertion: usize) -> usize {
    if source.len() == parent.len() + 1 && source.take(parent.len() as int) == parent && insertion > source[parent.len() as int] {
        (insertion - 1) as usize
    } else {
        insertion
    }
}

pub fn insertion_after_removal(source: &Vec<usize>, parent: &Vec<usize>, insertion: usize) -> (index: usize)
    ensures
        index == insertion_after_removal_spec(source@, parent@, insertion),
{
    if source.len() == 0 || source.len() - 1 != parent.len() {
        return insertion;
    }
    let n = parent.len();
    let mut k: usize = 0;
    while k < n
        invariant
            k <= n,
            n == parent.len(),
            source.len() == n + 1,
            forall|j: int| 0 <= j < k ==> source@[j] == parent@[j],
        decreases n - k,
    {
        if source[k] != parent[k] {
            proof {
                assert(source@.take(n as int)[k as int] != parent@[k as int]);
            }
            return insertion;
        }
        k = k + 1;
    }
    assert(source@.take(n as int) =~= parent@);
    if insertion > source[n] {
        insertion - 1
    } else {
        insertion
    }
}

/// The last top-level block other than the task itself, if any.
pub open spec fn last_other(blocks: Seq<(usize, usize)>, task: (usize, usize)) -> Option<(usize, usize)>
    decreases blocks.len(),
{
    if blocks.len() == 0 {
        None
    } else if blocks.last() != task {
        Some(blocks.last())
    } else {
        last_other(blocks.drop_last(), task)
    }
}

/// The block a move without a new parent follows: the one asked for, or
/// else the last top-level block other than the task; none for a move
/// into a parent.
pub fn top_level_anchor(
    parent: Option<(usize, usize)>,
    after: Option<(usize, usize)>,
    blocks: &Vec<(usize, usize)>,
    task: (usize, usize),
) -> (anchor: Option<(usize, usize)>)
    ensures
        anchor == (if parent is Some {
            None
        } else if after is Some {
            after
        } else {
            last_other(blocks@, task)
        }),
{
    if parent.is_some() {
        return None;
    }
    if after.is_some() {
        return after;
    }
    let mut k: usize = blocks.len();
    assert(blocks@.take(k as int) == blocks@);
    while k > 0
        invariant
            parent is None,
            after is None,
            k <= blocks.len(),
            last_other(blocks@, task) == last_other(blocks@.take(k as int), task),
        decreases k,
    {
        let b = blocks[k - 1];
        proof {
            assert(blocks@.take(k as int).last() == b);
            assert(blocks@.take(k as int).drop_last() == blocks@.take(k - 1));
        }
        if b.0 != task.0 || b.1 != task.1 {
            assert(b != task);
            assert(blocks@.take(k as int).len() > 0);
            assert(last_other(blocks@.take(k as int), task) == Some(b));
            return Some(b);
        }
        k = k - 1;
    }
    None
}

/// Whether a move removes the task from its old parent's child list (and
/// rewrites that parent) rather than deleting its block: it has a parent
/// that does not overlap the new parent, if there is one.
pub fn removes_from_parent(source_parent: Option<(usize, usize)>, target_parent: Option<(usize, usize)>) -> (from_parent: bool)
    ensures
        from_parent == (source_parent matches Some(s) && match target_parent {
            Some(t) => s.1 <= t.0 || t.1 <= s.0,
            None => true,
        }),
{
    match source_parent {
        Some(s) => match target_parent {
            Some(t) => s.1 <= t.0 || t.1 <= s.0,
            None => true,
        },
        None => false,
    }
}

} // verus!
