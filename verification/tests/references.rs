use plumb_workspace::query::WorkspaceTaskKey;
use plumb_workspace::references::{
    dependencies_by_source, dependents_by_target, finish_scan, sorted_search_paths, TaskRelation,
};
use plumb_workspace::refs::{display_search_task_ref, display_task_ref, task_reference_ranges, TaskRef};

fn key(path: &str, start: usize) -> WorkspaceTaskKey {
    WorkspaceTaskKey { path: path.to_string(), start }
}

fn task(path: &str, id: Option<&str>) -> TaskRef {
    TaskRef { path: path.to_string(), id: id.map(str::to_string) }
}

fn relation(source: WorkspaceTaskKey, target: TaskRef) -> TaskRelation {
    TaskRelation { source, target }
}

fn relations() -> Vec<TaskRelation> {
    vec![
        relation(key("/ws/a.plumb", 5), task("/ws/b.plumb", Some("y"))),
        relation(key("/ws/c.plumb", 0), task("/ws/a.plumb", Some("x"))),
        relation(key("/ws/a.plumb", 5), task("/ws/a.plumb", Some("x"))),
        relation(key("/ws/a.plumb", 5), task("/ws/b.plumb", Some("y"))),
    ]
}

#[test]
fn dependencies_group_by_source_in_first_appearance_with_sorted_unique_targets() {
    let grouped = dependencies_by_source(&relations());
    assert_eq!(
        grouped,
        vec![
            (key("/ws/a.plumb", 5), vec![task("/ws/a.plumb", Some("x")), task("/ws/b.plumb", Some("y"))]),
            (key("/ws/c.plumb", 0), vec![task("/ws/a.plumb", Some("x"))]),
        ]
    );
}

#[test]
fn dependents_group_resolved_sources_by_target() {
    let refs = vec![
        (key("/ws/a.plumb", 5), task("/ws/a.plumb", Some("task"))),
        (key("/ws/c.plumb", 0), task("/ws/c.plumb", None)),
    ];
    let grouped = dependents_by_target(&relations(), &refs);
    assert_eq!(
        grouped,
        vec![
            (task("/ws/b.plumb", Some("y")), vec![task("/ws/a.plumb", Some("task"))]),
            (task("/ws/a.plumb", Some("x")), vec![task("/ws/a.plumb", Some("task")), task("/ws/c.plumb", None)]),
        ]
    );
    let unresolved = dependents_by_target(&relations(), &vec![]);
    assert!(unresolved.is_empty());
}

#[test]
fn task_references_display_relative_to_the_root() {
    assert_eq!(display_task_ref("/ws", &task("/ws/notes/a.plumb", Some("t1"))), "notes/a.plumb#t1");
    assert_eq!(display_search_task_ref("/ws", &task("/other/b.plumb", None)), "/other/b.plumb");
    assert_eq!(TaskRef::from_parts("/ws/./a.plumb", true, Some("x".to_string())), Some(task("/ws/a.plumb", None)));
    assert_eq!(TaskRef::from_parts("/ws/a.plumb", false, Some("x".to_string())), Some(task("/ws/a.plumb", Some("x"))));
    assert_eq!(TaskRef::from_parts("/ws/a.plumb", false, None), None);
}

#[test]
fn scans_sort_files_once_and_errors_by_text() {
    let scan = finish_scan(
        vec!["/ws/b.plumb".to_string(), "/ws/a.plumb".to_string(), "/ws/b.plumb".to_string()],
        vec!["z failed".to_string(), "a failed".to_string()],
    );
    assert_eq!(scan.files, vec!["/ws/a.plumb".to_string(), "/ws/b.plumb".to_string()]);
    assert_eq!(scan.errors, vec!["a failed".to_string(), "z failed".to_string()]);
    assert_eq!(
        sorted_search_paths(vec!["/ws/z/a.plumb".to_string(), "/ws/a.plumb".to_string()]),
        vec!["/ws/a.plumb".to_string(), "/ws/z/a.plumb".to_string()]
    );
}

#[test]
fn task_reference_ranges_split_path_and_id() {
    assert_eq!(task_reference_ranges("notes/é.plumb#t1", &(10..27), "t1"), Some((Some(10..24), 25..27)));
    assert_eq!(task_reference_ranges("#t1", &(4..7), "t1"), Some((None, 5..7)));
    assert_eq!(task_reference_ranges("a.plumb#t2", &(0..10), "t1"), None);
    assert_eq!(task_reference_ranges("a.plumb", &(0..7), "a.plumb"), None);
    assert_eq!(task_reference_ranges("a#b#c", &(0..5), "b#c"), Some((Some(0..1), 2..5)));
}
