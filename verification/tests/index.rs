use plumb_workspace::index::{
    batch_cache_hits, batch_paths, content_hash, finish_batch, stored_paths_match, BatchIndexFailure, ReadDocument,
};
use sha2::Digest;

fn read(path: &str, source: &str) -> Result<ReadDocument, BatchIndexFailure> {
    Ok(ReadDocument { path: path.to_string(), revision: 1, source: source.to_string() })
}

fn failure(path: &str, message: &str) -> Result<ReadDocument, BatchIndexFailure> {
    Err(BatchIndexFailure { path: path.to_string(), message: message.to_string() })
}

#[test]
fn content_hash_is_sha256_of_the_source() {
    let hash = content_hash("abc");
    let hex: String = hash.iter().map(|b| format!("{b:02x}")).collect();
    assert_eq!(hex, "ba7816bf8f01cfea414140de5dae2223b00361a396177a9cb410ff61f20015ad");
    assert_eq!(content_hash("`- Task\n"), sha2::Sha256::digest("`- Task\n".as_bytes()).to_vec());
    assert_ne!(content_hash("a"), content_hash("b"));
}

#[test]
fn batch_paths_are_normalised_ordered_and_unique() {
    let paths = vec![
        "/ws/b.plumb".to_string(),
        "/ws/./a.plumb".to_string(),
        "/ws/sub/../b.plumb".to_string(),
        "/ws/a/z.plumb".to_string(),
    ];
    assert_eq!(batch_paths(&paths), vec!["/ws/a/z.plumb", "/ws/a.plumb", "/ws/b.plumb"]);
    assert_eq!(batch_paths(&vec![]), Vec::<String>::new());
}

#[test]
fn cache_hits_need_the_path_and_the_hash_of_the_source() {
    let stored = vec![("/ws/a.plumb".to_string(), content_hash("one")), ("/ws/b.plumb".to_string(), content_hash("two"))];
    let documents = vec![
        ("/ws/a.plumb".to_string(), "one".to_string()),
        ("/ws/b.plumb".to_string(), "changed".to_string()),
        ("/ws/c.plumb".to_string(), "one".to_string()),
    ];
    assert_eq!(batch_cache_hits(&documents, &stored), vec![true, false, false]);
}

#[test]
fn stored_paths_match_when_the_store_lists_exactly_the_paths() {
    let stored = vec![("/ws/a.plumb".to_string(), content_hash("one")), ("/ws/b.plumb".to_string(), content_hash("two"))];
    assert!(stored_paths_match(&vec!["/ws/a.plumb".to_string(), "/ws/b.plumb".to_string()], &stored));
    assert!(!stored_paths_match(&vec!["/ws/a.plumb".to_string()], &stored));
    assert!(!stored_paths_match(&vec!["/ws/a.plumb".to_string(), "/ws/c.plumb".to_string()], &stored));
}

#[test]
fn finish_batch_splits_reads_and_counts_hits() {
    let stored = Some(vec![("/ws/a.plumb".to_string(), content_hash("one"))]);
    let reads = vec![read("/ws/a.plumb", "one"), failure("/ws/b.plumb", "denied"), read("/ws/c.plumb", "three")];
    let result = finish_batch(reads, &stored, false);
    assert_eq!(result.documents.len(), 2);
    assert_eq!(result.documents[0].path, "/ws/a.plumb");
    assert!(result.documents[0].cache_hit);
    assert_eq!(result.documents[0].source, None);
    assert_eq!(result.documents[1].path, "/ws/c.plumb");
    assert!(!result.documents[1].cache_hit);
    assert_eq!(result.failures.len(), 1);
    assert_eq!(result.failures[0].path, "/ws/b.plumb");
    assert_eq!(result.failures[0].message, "denied");
    assert_eq!(result.cache_hits(), 1);
    assert!(!result.is_complete());

    let memory = finish_batch(vec![read("/ws/a.plumb", "one")], &None, true);
    assert!(!memory.documents[0].cache_hit);
    assert_eq!(memory.documents[0].source.as_deref(), Some("one"));
    assert_eq!(memory.cache_hits(), 0);
    assert!(memory.is_complete());
}
