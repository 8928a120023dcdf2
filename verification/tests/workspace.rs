use plumb_workspace::bibliography::{
    bibliography_candidate, finish_bibliography, resolve_source, Bibliography, BibliographyRecord,
    BibliographyResolution,
};
use plumb_workspace::cache::{
    inspect_cache_namespace, namespace_usage, prune_cache_namespace, CacheEntry, CacheNamespaceState,
    CachePruneOutcome, LockProbe,
};
use plumb_workspace::cursor::{apply_cursor, encode_cursor, hex, path_identity, TaskPageQuery, TaskPageQueryError};
use plumb_workspace::diagnostics::{dependency_cycle_members, event_diagnostic_code, WorkspaceDiagnosticContext};
use plumb_workspace::events::{parse_shorthand_time, validate_event_input, EventEditError, EventInput, EventShorthandError};
use plumb_workspace::query::{query_result, QueryCompleteness, TaskEditError, WorkspaceQueryError, WorkspaceScan};
use plumb_workspace::references::{dependency_cycle_contains, DirectTaskDependents, ReverseReferences};
use plumb_workspace::refs::TaskRef;
use plumb_workspace::task_sort::TaskSortOrder;
use plumb_workspace::time::{is_before, parse_timestamp, Timestamp};
use plumb_workspace::workflow::{derive_task_workflow_state, TaskClosure, TaskWaitReason, TaskWorkflowState};

fn now() -> Timestamp {
    parse_timestamp("2026-03-01T12:00:00+00:00").unwrap()
}

fn task_ref(path: &str, id: &str) -> TaskRef {
    TaskRef { path: path.to_string(), id: Some(id.to_string()) }
}

#[test]
fn timestamps_parse_and_order_by_instant() {
    let t = parse_timestamp("2026-03-01T12:00:00+02:00").unwrap();
    assert_eq!(t.offset_seconds, 7200);
    assert_eq!(t.seconds, 1772359200);
    assert!(parse_timestamp("not a time").is_none());
    let u = parse_timestamp("2026-03-01T11:00:00+00:00").unwrap();
    assert!(is_before(&t, &u));
    assert!(!is_before(&u, &t));
}

#[test]
fn open_tasks_wait_then_block_then_are_ready() {
    let later = Some("2026-03-02T00:00:00Z".to_string());
    let earlier = Some("2026-02-01T00:00:00Z".to_string());
    assert_eq!(
        derive_task_workflow_state(TaskClosure::Open, &later, true, &now()),
        (TaskWorkflowState::Waiting, vec![TaskWaitReason::Time, TaskWaitReason::Dependency])
    );
    assert_eq!(
        derive_task_workflow_state(TaskClosure::Open, &earlier, true, &now()),
        (TaskWorkflowState::Blocked, vec![TaskWaitReason::Dependency])
    );
    assert_eq!(derive_task_workflow_state(TaskClosure::Open, &earlier, false, &now()), (TaskWorkflowState::Ready, vec![]));
    assert_eq!(
        derive_task_workflow_state(TaskClosure::Open, &Some("garbage".to_string()), false, &now()),
        (TaskWorkflowState::Ready, vec![])
    );
    assert_eq!(derive_task_workflow_state(TaskClosure::Done, &later, true, &now()), (TaskWorkflowState::Done, vec![]));
    assert_eq!(TaskWorkflowState::Canceled.as_str(), "canceled");
    assert_eq!(TaskWaitReason::Dependency.as_str(), "dependency");
}

fn event(at: Option<&str>, start: Option<&str>, end: Option<&str>) -> EventInput {
    EventInput {
        title: "e".to_string(),
        at: at.map(|s| s.to_string()),
        start: start.map(|s| s.to_string()),
        end: end.map(|s| s.to_string()),
        tasks: vec![],
    }
}

#[test]
fn event_inputs_need_one_valid_time_shape() {
    assert_eq!(validate_event_input(&event(Some("2026-03-01T10:00:00Z"), None, None)), Ok(()));
    assert_eq!(
        validate_event_input(&event(None, Some("2026-03-01T10:00:00Z"), Some("2026-03-01T11:00:00Z"))),
        Ok(())
    );
    assert_eq!(validate_event_input(&event(Some("bad"), None, None)), Err(EventEditError::InvalidDatetime));
    assert_eq!(validate_event_input(&event(None, None, None)), Err(EventEditError::InvalidTimeShape));
    assert_eq!(
        validate_event_input(&event(Some("2026-03-01T10:00:00Z"), None, Some("2026-03-01T11:00:00Z"))),
        Err(EventEditError::InvalidTimeShape)
    );
    assert_eq!(
        validate_event_input(&event(None, Some("2026-03-01T10:00:00Z"), None)),
        Err(EventEditError::InvalidTimeShape)
    );
    assert_eq!(
        validate_event_input(&event(None, Some("2026-03-01T10:00:00Z"), Some("2026-03-01T10:00:00Z"))),
        Err(EventEditError::InvalidInterval)
    );
    assert_eq!(
        validate_event_input(&event(None, Some("2026-03-01T10:00:00Z"), Some("2026-03-01T12:00:00+01:00"))),
        Err(EventEditError::InvalidInterval)
    );
    assert_eq!(
        validate_event_input(&event(None, Some("2026-03-01T10:00:00Z"), Some("soon"))),
        Err(EventEditError::InvalidDatetime)
    );
}

#[test]
fn shorthand_times_are_seconds_since_midnight() {
    assert_eq!(parse_shorthand_time("09"), Ok(32400));
    assert_eq!(parse_shorthand_time("09:30"), Ok(34200));
    assert_eq!(parse_shorthand_time("23:59:59"), Ok(86399));
    assert_eq!(parse_shorthand_time("24:00"), Err(EventShorthandError::InvalidShorthand));
    assert_eq!(parse_shorthand_time("9:30"), Err(EventShorthandError::InvalidShorthand));
    assert_eq!(parse_shorthand_time("09-30"), Err(EventShorthandError::InvalidShorthand));
}

fn record(id: &str, path: &str) -> BibliographyRecord {
    BibliographyRecord {
        id: id.to_string(),
        title: Some(format!("Title {id}")),
        authors: vec!["Ada".to_string(), "Grace".to_string()],
        year: Some("1843".to_string()),
        path: path.to_string(),
        range: 0..1,
    }
}

#[test]
fn bibliography_records_resolve_by_id() {
    let bibliography = Bibliography {
        declared: true,
        sources: vec!["/ws/refs.json".to_string()],
        records: vec![record("a", "/ws/refs.json"), record("b", "/ws/refs.json"), record("b", "/ws/more.json")],
        diagnostics: vec![],
    };
    assert!(matches!(bibliography.resolve("a"), BibliographyResolution::Resolved(r) if r.id == "a"));
    assert_eq!(bibliography.resolve("b"), BibliographyResolution::Ambiguous);
    assert_eq!(bibliography.resolve("c"), BibliographyResolution::Unresolved);
    assert_eq!(record("a", "x").detail(), "Ada, Grace · 1843 · Title a");
    let bare = BibliographyRecord { title: None, authors: vec![], year: None, ..record("z", "x") };
    assert_eq!(bare.detail(), "CSL JSON citation");
}

#[test]
fn bibliography_paths_stay_inside_the_workspace() {
    assert_eq!(bibliography_candidate("/ws", "/ws/notes/a.plumb", "refs.json").as_deref(), Some("/ws/notes/refs.json"));
    assert_eq!(bibliography_candidate("/ws", "/ws/notes/a.plumb", "../../out.json"), None);
    assert_eq!(bibliography_candidate("/ws", "/ws/a.plumb", "/abs.json"), None);
    assert_eq!(bibliography_candidate("/ws", "/ws/a.plumb", "refs.txt"), None);
    assert_eq!(
        resolve_source("/ws", "/real/ws", "/ws/a.plumb", "refs.json", Some("/real/ws/refs.json".to_string())).as_deref(),
        Some("/ws/refs.json")
    );
    assert_eq!(resolve_source("/ws", "/real/ws", "/ws/a.plumb", "refs.json", Some("/elsewhere/refs.json".to_string())), None);
    assert_eq!(resolve_source("/ws", "/real/ws", "/ws/a.plumb", "refs.json", None).as_deref(), Some("/ws/refs.json"));
}

#[test]
fn loaded_records_are_sorted_and_duplicates_reported_once() {
    let (records, duplicates) =
        finish_bibliography(vec![record("b", "/ws/2.json"), record("a", "/ws/1.json"), record("b", "/ws/1.json")]);
    let keys: Vec<(&str, &str)> = records.iter().map(|r| (r.id.as_str(), r.path.as_str())).collect();
    assert_eq!(keys, vec![("a", "/ws/1.json"), ("b", "/ws/1.json"), ("b", "/ws/2.json")]);
    assert_eq!(duplicates, vec!["b".to_string()]);
}

#[test]
fn cache_namespaces_count_files_but_not_the_lock() {
    let entries = vec![
        CacheEntry { path: "a.sqlite3".to_string(), is_dir: false, len: 10 },
        CacheEntry { path: "sub".to_string(), is_dir: true, len: 0 },
        CacheEntry { path: "sub/b.log".to_string(), is_dir: false, len: 5 },
        CacheEntry { path: ".active.lock".to_string(), is_dir: false, len: 1 },
    ];
    let usage = namespace_usage(true, &entries);
    assert_eq!((usage.databases, usage.files, usage.bytes), (1, 2, 15));
    assert_eq!(usage.state, CacheNamespaceState::Unmanaged);
    let none = namespace_usage(false, &entries);
    assert_eq!((none.databases, none.files, none.bytes), (0, 0, 0));
    assert_eq!(inspect_cache_namespace(usage, LockProbe::WouldBlock).unwrap().state, CacheNamespaceState::Active);
    assert_eq!(inspect_cache_namespace(usage, LockProbe::Acquired).unwrap().state, CacheNamespaceState::Inactive);
    assert_eq!(inspect_cache_namespace(usage, LockProbe::Failed("denied".to_string())), Err("denied".to_string()));
    assert_eq!(prune_cache_namespace(usage, LockProbe::Acquired), Ok(CachePruneOutcome::Pruned { files: 2, bytes: 15 }));
    assert_eq!(prune_cache_namespace(usage, LockProbe::WouldBlock), Ok(CachePruneOutcome::Active));
    assert_eq!(prune_cache_namespace(usage, LockProbe::Missing), Ok(CachePruneOutcome::Unmanaged));
}

#[test]
fn reverse_references_follow_links_backwards() {
    let refs = ReverseReferences::build(vec![
        ("/ws/b.plumb".to_string(), "/ws/a.plumb".to_string()),
        ("/ws/c.plumb".to_string(), "/ws/b.plumb".to_string()),
        ("/ws/b.plumb".to_string(), "/ws/a.plumb".to_string()),
        ("/ws/a.plumb".to_string(), "/ws/c.plumb".to_string()),
    ]);
    assert_eq!(refs.direct("/ws/a.plumb"), vec!["/ws/b.plumb".to_string()]);
    assert_eq!(refs.transitive("/ws/a.plumb"), vec!["/ws/b.plumb".to_string(), "/ws/c.plumb".to_string()]);
    assert!(refs.direct("/ws/none.plumb").is_empty());
}

#[test]
fn dependents_are_grouped_by_target() {
    let pairs = vec![
        (task_ref("/ws/a.plumb", "t"), task_ref("/ws/z.plumb", "x")),
        (task_ref("/ws/a.plumb", "t"), task_ref("/ws/b.plumb", "y")),
        (task_ref("/ws/a.plumb", "t"), task_ref("/ws/b.plumb", "y")),
    ];
    let dependents = DirectTaskDependents::build(&pairs);
    assert_eq!(dependents.get("/ws/./a.plumb", "t"), vec![task_ref("/ws/b.plumb", "y"), task_ref("/ws/z.plumb", "x")]);
    assert!(dependents.get("/ws/a.plumb", "u").is_empty());
}

#[test]
fn dependency_cycles_are_found() {
    let a = task_ref("/ws/a.plumb", "a");
    let b = task_ref("/ws/a.plumb", "b");
    let c = task_ref("/ws/a.plumb", "c");
    let graph = vec![(a.clone(), vec![b.clone()]), (b.clone(), vec![a.clone()]), (c.clone(), vec![a.clone()])];
    assert!(dependency_cycle_contains(&graph, &a));
    assert!(!dependency_cycle_contains(&graph, &c));
    assert_eq!(dependency_cycle_members(&graph), vec![a.clone(), b.clone()]);
    let context = WorkspaceDiagnosticContext::new(graph);
    assert!(context.in_dependency_cycle(&b));
    assert!(!context.in_dependency_cycle(&c));
}

#[test]
fn event_references_rename_task_codes() {
    assert_eq!(event_diagnostic_code("task.unresolved-anchor"), "event.unresolved-task");
    assert_eq!(event_diagnostic_code("task.non-task-target"), "event.target-not-task");
    assert_eq!(event_diagnostic_code("task.self-dependency"), "task.self-dependency");
}

#[test]
fn query_results_and_errors() {
    let complete = query_result(vec![1, 2], false, true, false);
    assert!(complete.is_complete());
    assert_eq!(complete.require_complete(), Ok(vec![1, 2]));
    let partial = query_result(vec![1], true, true, true);
    assert_eq!(partial.completeness, QueryCompleteness::Partial);
    assert_eq!(partial.require_complete(), Err(WorkspaceQueryError::Incomplete));
    assert_eq!(WorkspaceQueryError::Store("disk full".to_string()).message(), "disk full");
    assert_eq!(TaskEditError::TaskBlocked.message(), "task is blocked by open dependencies");
    let scan = WorkspaceScan { files: vec!["a".to_string()], errors: vec!["x".to_string(), "y".to_string()] };
    assert!(!scan.is_complete());
    assert_eq!(scan.into_result(), Err("x\ny".to_string()));
    let ok = WorkspaceScan { files: vec!["a".to_string()], errors: vec![] };
    assert_eq!(ok.into_result(), Ok(vec!["a".to_string()]));
}

fn page_query(cursor: Option<String>) -> TaskPageQuery {
    TaskPageQuery {
        root: "/ws".to_string(),
        text: "report".to_string(),
        filter_groups: vec![],
        sort: vec![TaskSortOrder::Due],
        limit: 20,
        cursor,
        workspace_revision: 7,
        now: now(),
    }
}

#[test]
fn hashes_are_spelled_in_lowercase_hex() {
    assert_eq!(hex(&vec![0x00, 0xab, 0xff]), "00abff");
    assert_eq!(hex(&path_identity("a")), "ca978112ca1bbdcafac231b39a23dc4da786eff8147c4e72b9807785afee48bb");
}

#[test]
fn a_cursor_resumes_after_its_document() {
    let cursor = encode_cursor(&page_query(None), "/ws/b.plumb", false);
    assert!(cursor.starts_with("v2:7:"));
    let paths: Vec<String> = ["/ws/a.plumb", "/ws/b.plumb", "/ws/b.plumb", "/ws/c.plumb"].iter().map(|s| s.to_string()).collect();
    let mut facts = vec![1, 2, 3, 4];
    assert_eq!(apply_cursor(&mut facts, &paths, &page_query(Some(cursor.clone())), false), Ok(()));
    assert_eq!(facts, vec![4]);

    let mut facts = vec![1, 2, 3, 4];
    let other = apply_cursor(&mut facts, &paths, &page_query(Some(cursor.clone())), true);
    assert_eq!(other, Err(TaskPageQueryError::Cursor("task cursor is stale or does not match this query".to_string())));
    assert_eq!(facts, vec![1, 2, 3, 4]);

    let gone: Vec<String> = ["/ws/a.plumb", "/ws/c.plumb"].iter().map(|s| s.to_string()).collect();
    let mut facts = vec![1, 2];
    let lost = apply_cursor(&mut facts, &gone, &page_query(Some(cursor)), false);
    assert_eq!(lost, Err(TaskPageQueryError::Cursor("task cursor no longer identifies a result document".to_string())));

    let mut facts = vec![1, 2];
    assert_eq!(apply_cursor(&mut facts, &gone, &page_query(None), false), Ok(()));
    assert_eq!(facts, vec![1, 2]);
}
