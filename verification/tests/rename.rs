use plumb_workspace::completion::{complete_task_dependency, DependencyTask};
use plumb_workspace::query::{PathRenameInput, RenameError};
use plumb_workspace::refs::TaskRef;
use plumb_workspace::rename::{moved_reference, order_edits, rename_checks, rename_destination, TextEdit};
use plumb_workspace::workflow::TaskWorkflowState;

#[test]
fn typed_paths_resolve_against_the_documents_directory() {
    assert_eq!(rename_destination("/ws/notes/a.plumb", "b.plumb", PathRenameInput::Path), Ok("/ws/notes/b.plumb".to_string()));
    assert_eq!(rename_destination("/ws/notes/a.plumb", "../x/c.plumb", PathRenameInput::Path), Ok("/ws/x/c.plumb".to_string()));
    assert_eq!(rename_destination("/ws/a.plumb", "b.txt", PathRenameInput::Path), Err(RenameError::InvalidPath));
    assert_eq!(rename_destination("/ws/a.plumb", "./a.plumb", PathRenameInput::Path), Err(RenameError::InvalidPath));
}

#[test]
fn typed_stems_name_a_sibling_document() {
    assert_eq!(rename_destination("/ws/a.plumb", "new", PathRenameInput::FileStem), Ok("/ws/new.plumb".to_string()));
    assert_eq!(rename_destination("/ws/a.plumb", "new.plumb", PathRenameInput::FileStem), Ok("/ws/new.plumb".to_string()));
    assert_eq!(rename_destination("/ws/a.plumb", "new.txt", PathRenameInput::FileStem), Err(RenameError::InvalidPath));
    assert_eq!(rename_destination("/ws/a.plumb", "sub/new", PathRenameInput::FileStem), Err(RenameError::InvalidPath));
    assert_eq!(rename_destination("/ws/a.plumb", "/abs", PathRenameInput::FileStem), Err(RenameError::InvalidPath));
    assert_eq!(rename_destination("/ws/a.plumb", "..", PathRenameInput::FileStem), Err(RenameError::InvalidPath));
}

#[test]
fn references_across_a_move_are_rewritten() {
    assert_eq!(
        moved_reference("/ws/a.plumb", "/ws/b.plumb", "/ws/b.plumb", "/ws/sub/c.plumb").as_deref(),
        Some("sub/c.plumb")
    );
    assert_eq!(
        moved_reference("/ws/b.plumb", "/ws/a.plumb", "/ws/b.plumb", "/ws/sub/b.plumb").as_deref(),
        Some("../a.plumb")
    );
    assert_eq!(moved_reference("/ws/a.plumb", "/ws/c.plumb", "/ws/b.plumb", "/ws/d.plumb"), None);
}

fn edit(start: usize, end: usize, text: &str) -> TextEdit {
    TextEdit { range: start..end, new_text: text.to_string() }
}

#[test]
fn edits_are_ordered_and_overlaps_refused() {
    let ordered = order_edits(vec![edit(5, 7, "x"), edit(0, 2, "y")]).unwrap();
    assert_eq!(ordered, vec![edit(0, 2, "y"), edit(5, 7, "x")]);
    assert_eq!(order_edits(vec![edit(5, 7, "x"), edit(0, 2, "y"), edit(5, 5, "z")]), Err(RenameError::OverlappingEdits));
    assert_eq!(order_edits(vec![edit(2, 4, "a"), edit(4, 6, "b")]).unwrap().len(), 2);
}

fn task(id: Option<&str>, title: &str, state: TaskWorkflowState) -> DependencyTask {
    DependencyTask { id: id.map(|s| s.to_string()), title: title.to_string(), state }
}

fn documents() -> Vec<(String, Vec<DependencyTask>)> {
    vec![
        ("/ws/a.plumb".to_string(), vec![task(Some("a1"), "Write", TaskWorkflowState::Ready), task(None, "x", TaskWorkflowState::Ready)]),
        ("/ws/b.plumb".to_string(), vec![task(Some("b1"), "", TaskWorkflowState::Blocked)]),
        ("/ws/c.plumb".to_string(), vec![task(None, "y", TaskWorkflowState::Ready)]),
    ]
}

#[test]
fn dependency_documents_are_offered_when_they_hold_another_task() {
    let owner = Some(TaskRef { path: "/ws/a.plumb".to_string(), id: Some("a1".to_string()) });
    let candidates = complete_task_dependency("/ws/a.plumb", &owner, &vec![], &(3..3), "", &documents());
    assert_eq!(candidates.len(), 1);
    assert_eq!(candidates[0].label, "b.plumb#");
    assert_eq!(candidates[0].detail, "task document (b.plumb)");
    assert_eq!(candidates[0].replace, 3..3);
    let existing = vec![TaskRef { path: "/ws/b.plumb".to_string(), id: Some("b1".to_string()) }];
    assert!(complete_task_dependency("/ws/a.plumb", &owner, &existing, &(3..3), "", &documents()).is_empty());
}

#[test]
fn dependency_tasks_are_offered_after_a_hash() {
    let owner = Some(TaskRef { path: "/ws/a.plumb".to_string(), id: Some("a1".to_string()) });
    let candidates = complete_task_dependency("/ws/a.plumb", &owner, &vec![], &(10..18), "b.plumb#", &documents());
    assert_eq!(candidates.len(), 1);
    assert_eq!(candidates[0].label, "b1");
    assert_eq!(candidates[0].new_text, "b1");
    assert_eq!(candidates[0].detail, "BLOCKED  Untitled task (b.plumb)");
    assert_eq!(candidates[0].replace, 18..18);
    assert!(complete_task_dependency("/ws/a.plumb", &owner, &vec![], &(0..1), "#", &documents()).is_empty());
    assert!(complete_task_dependency("/ws/a.plumb", &owner, &vec![], &(0..1), "zz.plumb#", &documents()).is_empty());
    let own = complete_task_dependency("/ws/a.plumb", &None, &vec![], &(0..1), "#wr", &documents());
    assert_eq!(own.len(), 1);
    assert_eq!(own[0].detail, "READY  Write (a.plumb)");
}

#[test]
fn a_rename_is_refused_onto_an_existing_target_or_from_an_unknown_document() {
    let known = vec!["/ws/a.plumb".to_string(), "/ws/b.plumb".to_string()];
    assert_eq!(rename_checks("/ws/a.plumb", "/ws/b.plumb", &known, false), Err(RenameError::TargetExists));
    assert_eq!(rename_checks("/ws/a.plumb", "/ws/c.plumb", &known, true), Err(RenameError::TargetExists));
    assert_eq!(rename_checks("/ws/z.plumb", "/ws/c.plumb", &known, false), Err(RenameError::NotRenameable));
    assert_eq!(rename_checks("/ws/./a.plumb", "/ws/c.plumb", &known, false), Ok(()));
}
