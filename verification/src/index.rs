//! Indexing a batch of workspace files: the paths to read (normalised,
//! ordered, each once), which read documents the store already holds (their
//! SHA-256 content hash matches the stored one), and the batch result with
//! its read failures.
use vstd::prelude::*;
use crate::cursor::{sha256, sha256_digest, utf8_bytes, utf8_encode};
use crate::order::{unique_sorted, unique_sorted_by};
use crate::paths::{normalize, normalized};
use crate::references::{path_keys, path_keys_exec};

verus! {

/// A document read for indexing.
#[derive(Debug)]
pub struct ReadDocument {
    pub path: String,
    pub revision: i64,
    pub source: String,
}

/// A document of an indexed batch.
#[derive(Debug)]
pub struct BatchIndexedDocument {
    pub path: String,
    pub revision: i64,
    /// Its source, when the batch keeps sources.
    pub source: Option<String>,
    /// Whether the store already held this very content.
    pub cache_hit: bool,
}

/// A file of the batch that could not be read.
#[derive(Debug, PartialEq, Eq)]
pub struct BatchIndexFailure {
    pub path: String,
    pub message: String,
}

/// The indexed documents of a batch and its failures.
#[derive(Debug)]
pub struct BatchIndexResult {
    pub documents: Vec<BatchIndexedDocument>,
    pub failures: Vec<BatchIndexFailure>,
}

/// The number of cache hits among documents.
pub open spec fn hit_count(documents: Seq<BatchIndexedDocument>) -> nat
    decreases documents.len(),
{
    if documents.len() == 0 {
        0
    } else {
        hit_count(documents.drop_last()) + if documents.last().cache_hit {
            1nat
        } else {
            0nat
        }
    }
}

impl BatchIndexResult {
    /// How many documents the store already held.
    pub fn cache_hits(&self) -> (n: usize)
        ensures
            n == hit_count(self.documents@),
    {
        let mut n: usize = 0;
        let mut i: usize = 0;
        while i < self.documents.len()
            invariant
                i <= self.documents.len(),
                n == hit_count(self.documents@.take(i as int)),
                n <= i,
            decreases self.documents.len() - i,
        {
            assert(self.documents@.take(i + 1).drop_last() == self.documents@.take(i as int));
            if self.documents[i].cache_hit {
                n = n + 1;
            }
            i = i + 1;
        }
        assert(self.documents@.take(self.documents.len() as int) == self.documents@);
        n
    }

    /// Whether every file of the batch was read.
    pub fn is_complete(&self) -> (complete: bool)
        ensures
            complete == (self.failures.len() == 0),
    {
        self.failures.len() == 0
    }
}

pub open spec fn normalized_all(paths: Seq<String>) -> Seq<Seq<char>> {
    paths.map_values(|p: String| normalized(p@))
}

/// The paths of a batch: each normalised, then in path order (component
/// by component), each once (the first of equal paths kept).
pub fn batch_paths(paths: &Vec<String>) -> (out: Vec<String>)
    ensures
        exists|norm: Seq<String>|
            norm.len() == paths.len() && (forall|i: int| 0 <= i < paths.len() ==> (#[trigger] norm[i])@ == normalized(paths@[i]@))
                && unique_sorted_by(norm, path_keys(norm), out@),
{
    let mut norm: Vec<String> = Vec::new();
    let mut i: usize = 0;
    while i < paths.len()
        invariant
            i <= paths.len(),
            norm.len() == i,
            forall|k: int| 0 <= k < i ==> (#[trigger] norm@[k])@ == normalized(paths@[k]@),
        decreases paths.len() - i,
    {
        norm.push(normalize(paths[i].as_str()));
        i = i + 1;
    }
    let keys = path_keys_exec(&norm);
    let ghost n = norm@;
    let out = unique_sorted(norm, &keys);
    assert(unique_sorted_by(n, path_keys(n), out@));
    out
}

/// The content hash the store keeps of a source: SHA-256 of its UTF-8
/// bytes.
pub fn content_hash(source: &str) -> (hash: Vec<u8>)
    ensures
        hash@ == sha256(utf8_encode(source@)),
        hash@.len() == 32,
{
    sha256_digest(&utf8_bytes(source))
}

/// Whether the store holds `path` with content hash `hash`.
pub open spec fn stored_with(stored: Seq<(String, Vec<u8>)>, path: Seq<char>, hash: Seq<u8>) -> bool {
    exists|k: int| 0 <= k < stored.len() && (#[trigger] stored[k]).0@ == path && stored[k].1@ == hash
}

fn bytes_equal(a: &Vec<u8>, b: &Vec<u8>) -> (eq: bool)
    ensures
        eq == (a@ == b@),
{
    if a.len() != b.len() {
        return false;
    }
    let mut i: usize = 0;
    while i < a.len()
        invariant
            a.len() == b.len(),
            i <= a.len(),
            forall|j: int| 0 <= j < i ==> a@[j] == b@[j],
        decreases a.len() - i,
    {
        if a[i] != b[i] {
            return false;
        }
        i = i + 1;
    }
    assert(a@ =~= b@);
    true
}

fn is_stored(stored: &Vec<(String, Vec<u8>)>, path: &str, hash: &Vec<u8>) -> (found: bool)
    ensures
        found == stored_with(stored@, path@, hash@),
{
    let mut k: usize = 0;
    while k < stored.len()
        invariant
            k <= stored.len(),
            forall|j: int| 0 <= j < k ==> !((#[trigger] stored@[j]).0@ == path@ && stored@[j].1@ == hash@),
        decreases stored.len() - k,
    {
        if crate::text::str_eq(stored[k].0.as_str(), path) && bytes_equal(&stored[k].1, hash) {
            assert(stored@[k as int].0@ == path@ && stored@[k as int].1@ == hash@);
            return true;
        }
        k = k + 1;
    }
    false
}

/// Which documents (path and source) the store already holds: a document
/// is a cache hit when the store lists its path with the SHA-256 hash of
/// its source.
pub fn batch_cache_hits(documents: &Vec<(String, String)>, stored: &Vec<(String, Vec<u8>)>) -> (hits: Vec<bool>)
    ensures
        hits.len() == documents.len(),
        forall|i: int|
            0 <= i < documents.len() ==> #[trigger] hits@[i] == stored_with(
                stored@,
                documents@[i].0@,
                sha256(utf8_encode(documents@[i].1@)),
            ),
{
    let mut hits: Vec<bool> = Vec::new();
    let mut i: usize = 0;
    while i < documents.len()
        invariant
            i <= documents.len(),
            hits.len() == i,
            forall|k: int|
                0 <= k < i ==> #[trigger] hits@[k] == stored_with(stored@, documents@[k].0@, sha256(utf8_encode(documents@[k].1@))),
        decreases documents.len() - i,
    {
        let hash = content_hash(documents[i].1.as_str());
        hits.push(is_stored(stored, documents[i].0.as_str(), &hash));
        i = i + 1;
    }
    hits
}

/// Whether the store lists exactly the batch's paths.
pub open spec fn stored_paths_match_spec(paths: Seq<String>, stored: Seq<(String, Vec<u8>)>) -> bool {
    stored.len() == paths.len() && forall|i: int| 0 <= i < paths.len() ==> #[trigger] path_listed(stored, paths[i]@)
}

/// Whether the store lists `path`.
pub open spec fn path_listed(stored: Seq<(String, Vec<u8>)>, path: Seq<char>) -> bool {
    exists|k: int| 0 <= k < stored.len() && (#[trigger] stored[k]).0@ == path
}

/// Whether the store lists exactly the batch's paths (its paths are
/// distinct, as a map's keys are).
pub fn stored_paths_match(paths: &Vec<String>, stored: &Vec<(String, Vec<u8>)>) -> (matches: bool)
    ensures
        matches == stored_paths_match_spec(paths@, stored@),
{
    if stored.len() != paths.len() {
        return false;
    }
    let mut i: usize = 0;
    while i < paths.len()
        invariant
            stored.len() == paths.len(),
            i <= paths.len(),
            forall|j: int| 0 <= j < i ==> #[trigger] path_listed(stored@, paths@[j]@),
        decreases paths.len() - i,
    {
        let mut k: usize = 0;
        let mut found = false;
        while k < stored.len() && !found
            invariant
                i < paths.len(),
                k <= stored.len(),
                found ==> k >= 1 && stored@[k - 1].0@ == paths@[i as int]@,
                !found ==> forall|j: int| 0 <= j < k ==> stored@[j].0@ != paths@[i as int]@,
            decreases stored.len() - k,
        {
            if crate::text::str_eq(stored[k].0.as_str(), paths[i].as_str()) {
                found = true;
            }
            k = k + 1;
        }
        if !found {
            assert(!path_listed(stored@, paths@[i as int]@));
            return false;
        }
        assert(stored@[k - 1].0@ == paths@[i as int]@);
        assert(path_listed(stored@, paths@[i as int]@));
        i = i + 1;
    }
    true
}

/// The documents read, in order, with whether each is a cache hit.
pub open spec fn read_documents(reads: Seq<Result<ReadDocument, BatchIndexFailure>>) -> Seq<ReadDocument>
    decreases reads.len(),
{
    if reads.len() == 0 {
        seq![]
    } else {
        let rest = read_documents(reads.drop_last());
        match reads.last() {
            Ok(d) => rest.push(d),
            Err(_) => rest,
        }
    }
}

/// The read failures, in order.
pub open spec fn read_failures(reads: Seq<Result<ReadDocument, BatchIndexFailure>>) -> Seq<BatchIndexFailure>
    decreases reads.len(),
{
    if reads.len() == 0 {
        seq![]
    } else {
        let rest = read_failures(reads.drop_last());
        match reads.last() {
            Ok(_) => rest,
            Err(f) => rest.push(f),
        }
    }
}

/// A batch result from the reads of its paths (in path order): the read
/// documents, in order, each a cache hit when the store (if there is one)
/// lists its path with the hash of its source, keeping the source when
/// `retain_sources`; and the failures, in order.
pub fn finish_batch(
    reads: Vec<Result<ReadDocument, BatchIndexFailure>>,
    stored: &Option<Vec<(String, Vec<u8>)>>,
    retain_sources: bool,
) -> (result: BatchIndexResult)
    ensures
        result.failures@ == read_failures(reads@),
        result.documents.len() == read_documents(reads@).len(),
        forall|i: int|
            0 <= i < result.documents.len() ==> {
                let d = read_documents(reads@)[i];
                &&& (#[trigger] result.documents@[i]).path == d.path
                &&& result.documents@[i].revision == d.revision
                &&& result.documents@[i].source == (if retain_sources {
                    Some(d.source)
                } else {
                    None
                })
                &&& result.documents@[i].cache_hit == match stored {
                    Some(s) => stored_with(s@, d.path@, sha256(utf8_encode(d.source@))),
                    None => false,
                }
            },
{
    let ghost all = reads@;
    let mut documents: Vec<BatchIndexedDocument> = Vec::new();
    let mut failures: Vec<BatchIndexFailure> = Vec::new();
    let mut reads = reads;
    let mut rest: Vec<Result<ReadDocument, BatchIndexFailure>> = Vec::new();
    while reads.len() > 0
        invariant
            rest@.len() + reads@.len() == all.len(),
            forall|k: int| 0 <= k < reads@.len() ==> reads@[k] == all[k],
            forall|k: int| 0 <= k < rest@.len() ==> rest@[k] == all[all.len() - 1 - k],
        decreases reads.len(),
    {
        let r = reads.pop().unwrap();
        rest.push(r);
    }
    let mut i: usize = 0;
    let n = rest.len();
    while rest.len() > 0
        invariant
            n == all.len(),
            i + rest@.len() == n,
            forall|k: int| 0 <= k < rest@.len() ==> rest@[k] == all[n - 1 - k],
            failures@ == read_failures(all.take(i as int)),
            documents.len() == read_documents(all.take(i as int)).len(),
            forall|k: int|
                0 <= k < documents.len() ==> {
                    let d = read_documents(all.take(i as int))[k];
                    &&& (#[trigger] documents@[k]).path == d.path
                    &&& documents@[k].revision == d.revision
                    &&& documents@[k].source == (if retain_sources {
                        Some(d.source)
                    } else {
                        None
                    })
                    &&& documents@[k].cache_hit == match stored {
                        Some(s) => stored_with(s@, d.path@, sha256(utf8_encode(d.source@))),
                        None => false,
                    }
                },
        decreases rest.len(),
    {
        let r = rest.pop().unwrap();
        assert(r == all[i as int]);
        assert(all.take(i + 1).drop_last() == all.take(i as int));
        assert(all.take(i + 1).last() == all[i as int]);
        match r {
            Ok(d) => {
                let cache_hit = match stored {
                    Some(s) => is_stored(s, d.path.as_str(), &content_hash(d.source.as_str())),
                    None => false,
                };
                let source = if retain_sources {
                    Some(d.source)
                } else {
                    None
                };
                documents.push(BatchIndexedDocument { path: d.path, revision: d.revision, source, cache_hit });
            },
            Err(f) => {
                failures.push(f);
            },
        }
        i = i + 1;
    }
    assert(all.take(n as int) == all);
    BatchIndexResult { documents, failures }
}

} // verus!
