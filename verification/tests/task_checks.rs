use plumb_workspace::diagnostics::{DiagnosticSeverity, WorkspaceDiagnosticContext};
use plumb_workspace::refs::TaskRef;
use plumb_workspace::task_checks::{
    task_workspace_diagnostics, Blocker, TaskDiagnosticFacts, TaskReferenceFacts, TaskTargetResolution,
};
use plumb_workspace::workflow::TaskClosure;

fn task_ref(path: &str, id: &str) -> TaskRef {
    TaskRef { path: path.to_string(), id: Some(id.to_string()) }
}

fn reference(source: &str, start: usize, resolution: TaskTargetResolution) -> TaskReferenceFacts {
    TaskReferenceFacts { source: source.to_string(), range: start..start + source.len(), resolution }
}

fn task(id: Option<&str>, depth: usize, closure: TaskClosure, start: usize) -> TaskDiagnosticFacts {
    TaskDiagnosticFacts {
        id: id.map(|s| s.to_string()),
        depth,
        closure,
        selection_range: start..start + 5,
        done_range: None,
        prev: None,
        depends: vec![],
        blockers: vec![],
    }
}

#[test]
fn task_diagnostics_cover_references_cycles_and_open_work() {
    let path = "/ws/t.plumb";
    let mut done = task(Some("a"), 0, TaskClosure::Done, 0);
    done.done_range = Some(6..10);
    done.depends = vec![
        reference("b", 40, TaskTargetResolution::Task { target: task_ref(path, "b") }),
        reference("x", 42, TaskTargetResolution::Invalid),
    ];
    done.blockers = vec![
        Blocker { target: task_ref(path, "b"), selection_range: 20..25 },
        Blocker { target: task_ref("/ws/o.plumb", "c"), selection_range: 1..2 },
    ];
    let mut last = task(Some("d"), 0, TaskClosure::Open, 30);
    last.prev = Some(reference("#zz", 50, TaskTargetResolution::UnresolvedAnchor { id: "zz".to_string() }));
    last.depends = vec![reference("#d", 55, TaskTargetResolution::Task { target: task_ref(path, "d") })];
    last.blockers = vec![Blocker { target: task_ref("/ws/o.plumb", "c"), selection_range: 1..2 }];
    let tasks = vec![
        done,
        task(Some("a1"), 1, TaskClosure::Open, 11),
        task(Some("b"), 1, TaskClosure::Open, 20),
        task(None, 2, TaskClosure::Open, 26),
        last,
    ];
    let context = WorkspaceDiagnosticContext::new(vec![
        (task_ref(path, "a"), vec![task_ref(path, "b")]),
        (task_ref(path, "b"), vec![task_ref(path, "a")]),
    ]);
    let diagnostics = task_workspace_diagnostics(path, &tasks, &context);
    let found: Vec<(&str, &str)> = diagnostics.iter().map(|d| (d.code.as_str(), d.message.as_str())).collect();
    assert_eq!(
        found,
        vec![
            ("task.invalid-target", "invalid task dependency target 'x'"),
            ("task.dependency-cycle", "task '#a' participates in a dependency cycle"),
            ("task.done-with-open-dependency", "completed task still depends on 2 open tasks"),
            ("task.done-with-open-descendant", "completed task still contains 2 open descendants"),
            ("task.dependency-cycle", "task '#b' participates in a dependency cycle"),
            ("task.unresolved-anchor", "unresolved task anchor '#zz'"),
            ("task.self-dependency", "task depends on itself through '#d'"),
            ("task.blocked", "task is blocked by 1 open dependency"),
        ]
    );
    assert_eq!(diagnostics[0].range, 42..43);
    assert_eq!(diagnostics[2].range, 6..10);
    assert_eq!(diagnostics[2].related, vec![20..25]);
    assert_eq!(diagnostics[3].related, vec![11..16, 26..31]);
    assert_eq!(diagnostics[7].severity, DiagnosticSeverity::Hint);
    assert!(diagnostics[..7].iter().all(|d| d.severity == DiagnosticSeverity::Warning));
}

#[test]
fn other_unresolved_targets_have_their_own_codes() {
    let mut t = task(Some("a"), 0, TaskClosure::Open, 0);
    t.depends = vec![
        reference("../x.plumb#a", 0, TaskTargetResolution::UnresolvedPath { path: "/x.plumb".to_string() }),
        reference("#amb", 20, TaskTargetResolution::AmbiguousAnchor { id: "amb".to_string() }),
        reference("#note", 30, TaskTargetResolution::NotTask { id: "note".to_string() }),
    ];
    let context = WorkspaceDiagnosticContext::new(vec![]);
    let diagnostics = task_workspace_diagnostics("/ws/t.plumb", &vec![t], &context);
    let found: Vec<(&str, &str)> = diagnostics.iter().map(|d| (d.code.as_str(), d.message.as_str())).collect();
    assert_eq!(
        found,
        vec![
            ("task.unresolved-path", "unresolved task document '/x.plumb'"),
            ("task.ambiguous-anchor", "task anchor '#amb' is ambiguous"),
            ("task.non-task-target", "anchor '#note' does not identify a task"),
        ]
    );
}

#[test]
fn a_done_task_with_one_open_dependency_uses_the_singular() {
    let mut t = task(Some("a"), 0, TaskClosure::Done, 0);
    t.done_range = Some(3..4);
    t.blockers = vec![Blocker { target: task_ref("/ws/o.plumb", "c"), selection_range: 1..2 }];
    let context = WorkspaceDiagnosticContext::new(vec![]);
    let diagnostics = task_workspace_diagnostics("/ws/t.plumb", &vec![t], &context);
    assert_eq!(diagnostics.len(), 1);
    assert_eq!(diagnostics[0].message, "completed task still depends on 1 open task");
    assert!(diagnostics[0].related.is_empty());
}
