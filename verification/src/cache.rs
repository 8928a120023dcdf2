//! Cache namespaces: how much a namespace holds and what a lock probe says
//! of its state.  Walking the directory and probing the lock file are left
//! to the caller, which reports what it found.
use vstd::prelude::*;
use crate::paths::{file_name, name_extension, path_components};
use crate::text::{chars_equal, chars_of};

verus! {

/// Whether another process holds a namespace.
#[derive(Debug, Clone, Copy, PartialEq, Eq, Structural)]
pub enum CacheNamespaceState {
    Active,
    Inactive,
    Unmanaged,
}

/// What a namespace holds.
#[derive(Debug, Clone, Copy, PartialEq, Eq, Structural)]
pub struct CacheNamespaceUsage {
    pub state: CacheNamespaceState,
    pub databases: usize,
    pub files: usize,
    pub bytes: u64,
}

/// What pruning a namespace did.
#[derive(Debug, Clone, Copy, PartialEq, Eq, Structural)]
pub enum CachePruneOutcome {
    Active,
    Unmanaged,
    Pruned { files: usize, bytes: u64 },
}

/// One entry found under a namespace: its path relative to the namespace,
/// whether it is a directory, and its length in bytes.
#[derive(Debug, Clone, PartialEq, Eq)]
pub struct CacheEntry {
    pub path: String,
    pub is_dir: bool,
    pub len: u64,
}

/// The name of the lock file of a namespace.
pub open spec fn lock_name() -> Seq<char> {
    ".active.lock"@
}

/// An entry counts when it is a file and neither it nor a directory above
/// it is the lock file.
pub open spec fn counted(e: CacheEntry) -> bool {
    !e.is_dir && !path_components(e.path@).contains(lock_name())
}

/// A counted entry is a database when its extension is `sqlite3`.
pub open spec fn is_database(e: CacheEntry) -> bool {
    match file_name(e.path@) {
        Some(name) => name_extension(name) == Some(seq!['s', 'q', 'l', 'i', 't', 'e', '3']),
        None => false,
    }
}

/// The usage of the entries: files and databases counted, bytes summed up
/// to the largest `u64`.
pub open spec fn usage_of(entries: Seq<CacheEntry>) -> (int, int, int)
    decreases entries.len(),
{
    if entries.len() == 0 {
        (0, 0, 0)
    } else {
        let (databases, files, bytes) = usage_of(entries.drop_last());
        let e = entries.last();
        if counted(e) {
            (
                databases + if is_database(e) {
                    1int
                } else {
                    0int
                },
                files + 1,
                if bytes + e.len > u64::MAX {
                    u64::MAX as int
                } else {
                    bytes + e.len
                },
            )
        } else {
            (databases, files, bytes)
        }
    }
}

proof fn lemma_usage_bounds(entries: Seq<CacheEntry>)
    ensures
        0 <= usage_of(entries).0 <= usage_of(entries).1 <= entries.len(),
        0 <= usage_of(entries).2 <= u64::MAX,
    decreases entries.len(),
{
    if entries.len() > 0 {
        lemma_usage_bounds(entries.drop_last());
    }
}

fn has_lock_component(path: &str) -> (found: bool)
    ensures
        found == path_components(path@).contains(lock_name()),
{
    let cs = crate::paths::components(path);
    let lock = chars_of(".active.lock");
    let mut i: usize = 0;
    while i < cs.len()
        invariant
            i <= cs.len(),
            lock@ == lock_name(),
            crate::paths::views(cs@) == path_components(path@),
            forall|k: int| 0 <= k < i ==> cs@[k]@ != lock_name(),
        decreases cs.len() - i,
    {
        if chars_equal(&cs[i], &lock) {
            assert(crate::paths::views(cs@)[i as int] == lock_name());
            return true;
        }
        i = i + 1;
    }
    proof {
        if path_components(path@).contains(lock_name()) {
            let k = choose|k: int| 0 <= k < cs.len() && crate::paths::views(cs@)[k] == lock_name();
            assert(cs@[k]@ == lock_name());
        }
    }
    false
}

fn database_name(path: &str) -> (db: bool)
    ensures
        db == (match file_name(path@) {
            Some(name) => name_extension(name) == Some(seq!['s', 'q', 'l', 'i', 't', 'e', '3']),
            None => false,
        }),
{
    match crate::paths::extension_of(path) {
        Some(ext) => chars_equal(&ext, &vec!['s', 'q', 'l', 'i', 't', 'e', '3']),
        None => false,
    }
}

/// The usage of a namespace: nothing when it does not exist, else what its
/// entries (found by walking it) hold.  The state is `Unmanaged` until a
/// lock probe says otherwise.
pub fn namespace_usage(exists: bool, entries: &Vec<CacheEntry>) -> (usage: CacheNamespaceUsage)
    ensures
        usage.state == CacheNamespaceState::Unmanaged,
        !exists ==> usage.databases == 0 && usage.files == 0 && usage.bytes == 0,
        exists ==> usage.databases as int == usage_of(entries@).0 && usage.files as int == usage_of(entries@).1
            && usage.bytes as int == usage_of(entries@).2,
{
    let mut usage = CacheNamespaceUsage { state: CacheNamespaceState::Unmanaged, databases: 0, files: 0, bytes: 0 };
    if !exists {
        return usage;
    }
    let mut i: usize = 0;
    while i < entries.len()
        invariant
            i <= entries.len(),
            usage.state == CacheNamespaceState::Unmanaged,
            usage.databases as int == usage_of(entries@.take(i as int)).0,
            usage.files as int == usage_of(entries@.take(i as int)).1,
            usage.bytes as int == usage_of(entries@.take(i as int)).2,
        decreases entries.len() - i,
    {
        let e = &entries[i];
        proof {
            assert(entries@.take(i + 1).drop_last() == entries@.take(i as int));
            assert(entries@.take(i + 1).last() == *e);
            lemma_usage_bounds(entries@.take(i as int));
        }
        if !e.is_dir && !has_lock_component(e.path.as_str()) {
            usage.files = usage.files + 1;
            usage.bytes = usage.bytes.saturating_add(e.len);
            if database_name(e.path.as_str()) {
                usage.databases = usage.databases + 1;
            }
        }
        i = i + 1;
    }
    assert(entries@.take(entries.len() as int) == entries@);
    usage
}

/// What trying to lock a namespace's lock file exclusively found.
#[derive(Debug, Clone, PartialEq, Eq)]
pub enum LockProbe {
    /// There is no lock file.
    Missing,
    /// The lock was taken (and is released again).
    Acquired,
    /// Another process holds the lock.
    WouldBlock,
    /// Opening or locking failed otherwise (the error's message).
    Failed(String),
}

/// The state of a namespace from its lock probe, with its usage.
pub fn inspect_cache_namespace(usage: CacheNamespaceUsage, probe: LockProbe) -> (result: Result<CacheNamespaceUsage, String>)
    ensures
        match probe {
            LockProbe::Missing => result == Ok::<CacheNamespaceUsage, String>(CacheNamespaceUsage { state: CacheNamespaceState::Unmanaged, ..usage }),
            LockProbe::Acquired => result == Ok::<CacheNamespaceUsage, String>(CacheNamespaceUsage { state: CacheNamespaceState::Inactive, ..usage }),
            LockProbe::WouldBlock => result == Ok::<CacheNamespaceUsage, String>(CacheNamespaceUsage { state: CacheNamespaceState::Active, ..usage }),
            LockProbe::Failed(message) => result == Err::<CacheNamespaceUsage, String>(message),
        },
{
    match probe {
        LockProbe::Missing => Ok(CacheNamespaceUsage { state: CacheNamespaceState::Unmanaged, ..usage }),
        LockProbe::Acquired => Ok(CacheNamespaceUsage { state: CacheNamespaceState::Inactive, ..usage }),
        LockProbe::WouldBlock => Ok(CacheNamespaceUsage { state: CacheNamespaceState::Active, ..usage }),
        LockProbe::Failed(message) => Err(message),
    }
}

/// What pruning does given the lock probe: nothing for a namespace without
/// a lock file or one held elsewhere; otherwise its contents (but the lock
/// file) are removed and their usage reported.
pub fn prune_cache_namespace(usage: CacheNamespaceUsage, probe: LockProbe) -> (result: Result<CachePruneOutcome, String>)
    ensures
        match probe {
            LockProbe::Missing => result == Ok::<CachePruneOutcome, String>(CachePruneOutcome::Unmanaged),
            LockProbe::Acquired => result == Ok::<CachePruneOutcome, String>(CachePruneOutcome::Pruned { files: usage.files, bytes: usage.bytes }),
            LockProbe::WouldBlock => result == Ok::<CachePruneOutcome, String>(CachePruneOutcome::Active),
            LockProbe::Failed(message) => result == Err::<CachePruneOutcome, String>(message),
        },
{
    match probe {
        LockProbe::Missing => Ok(CachePruneOutcome::Unmanaged),
        LockProbe::Acquired => Ok(CachePruneOutcome::Pruned { files: usage.files, bytes: usage.bytes }),
        LockProbe::WouldBlock => Ok(CachePruneOutcome::Active),
        LockProbe::Failed(message) => Err(message),
    }
}

} // verus!
