use plumb_workspace::cursor::{TaskPageQueryError, TaskQueryFilter, TaskQueryFilterGroup};
use plumb_workspace::filters::{
    compile_filter_groups, compile_search_filter, event_search_filter_variables, note_filter_variables, search_filter_matches,
    search_outcome_result,
    task_search_filter_variables, EventSearchFacts, TaskSearchFacts,
};
use plumb_workspace::predicate::{CelExpr, CelLiteral};
use plumb_workspace::refs::TaskRef;
use plumb_workspace::task_page::FilterOutcome;
use plumb_workspace::time::Timestamp;
use plumb_workspace::workflow::{TaskWaitReason, TaskWorkflowState};

fn now() -> Timestamp {
    Timestamp { seconds: 1_787_918_400, nanos: 0, offset_seconds: 0 }
}

fn filter(source: &str, expression: &str) -> TaskQueryFilter {
    TaskQueryFilter { source: source.to_string(), expression: expression.to_string() }
}

#[test]
fn search_filters_compile_to_their_tree() {
    assert_eq!(
        compile_search_filter("title == 'x'"),
        Ok(CelExpr::Call(
            "_==_".to_string(),
            vec![CelExpr::Ident("title".to_string()), CelExpr::Literal(CelLiteral::Str("x".to_string()))]
        ))
    );
    assert_eq!(compile_search_filter("true"), Ok(CelExpr::Literal(CelLiteral::Bool(true))));
    let error = compile_search_filter("title ==").unwrap_err();
    assert!(error.starts_with("invalid CEL query: "), "{error}");
    assert!(error.len() > "invalid CEL query: ".len());
}

#[test]
fn filter_groups_compile_in_order_or_name_the_first_invalid_filter() {
    let groups = vec![
        TaskQueryFilterGroup { filters: vec![filter("a", "priority > 1"), filter("b", "focused")] },
        TaskQueryFilterGroup { filters: vec![] },
    ];
    let compiled = compile_filter_groups(&groups).unwrap();
    assert_eq!(compiled.len(), 2);
    assert_eq!(compiled[0].len(), 2);
    assert_eq!(compiled[0][1], ("b".to_string(), CelExpr::Ident("focused".to_string())));
    assert!(compiled[1].is_empty());

    let invalid = vec![
        TaskQueryFilterGroup { filters: vec![filter("a", "true")] },
        TaskQueryFilterGroup { filters: vec![filter("custom:1", "(("), filter("custom:2", ")")] },
    ];
    match compile_filter_groups(&invalid) {
        Err(TaskPageQueryError::Filter { source, message }) => {
            assert_eq!(source, "custom:1");
            assert!(message.starts_with("invalid CEL query: "), "{message}");
        }
        other => panic!("unexpected {other:?}"),
    }
}

#[test]
fn note_filters_see_paths_titles_and_referrers() {
    let vars = note_filter_variables(
        "/ws",
        "/ws/notes/a.plumb",
        "Alpha",
        &vec!["/ws/b.plumb".to_string()],
        &vec!["/ws/b.plumb".to_string(), "/ws/c.plumb".to_string()],
    );
    let at = "/ws/notes/a.plumb";
    assert_eq!(search_filter_matches("path == 'notes/a.plumb' && title == 'Alpha'", &vars, at), Ok(true));
    assert_eq!(search_filter_matches("'b.plumb' in directly_referenced_by", &vars, at), Ok(true));
    assert_eq!(search_filter_matches("size(transitively_referenced_by) == 2", &vars, at), Ok(true));
    assert_eq!(search_filter_matches("title == 'Beta'", &vars, at), Ok(false));
    assert_eq!(search_filter_matches("{'k': 1}.z == 1", &vars, at), Ok(false));
    assert_eq!(search_filter_matches("title", &vars, at), Err("CEL query must return bool, got String(\"Alpha\")".to_string()));
    let failed = search_filter_matches("nosuch == 1", &vars, at).unwrap_err();
    assert!(failed.starts_with("cannot evaluate query for /ws/notes/a.plumb: "), "{failed}");
}

#[test]
fn task_search_filters_read_written_times_and_workflow_facts() {
    let facts = TaskSearchFacts {
        path: "/ws/a.plumb".to_string(),
        id: Some("t".to_string()),
        title: "Task".to_string(),
        created: Some("2026-08-27T12:00:00Z".to_string()),
        due: Some("not a time".to_string()),
        priority: Some(5),
        wait: None,
        done: None,
        canceled: None,
        recur: Some("weekly".to_string()),
        prev: None,
        depends_on: vec![TaskRef { path: "/ws/b.plumb".to_string(), id: Some("x".to_string()) }],
        directly_blocking: vec![],
        state: TaskWorkflowState::Blocked,
        wait_reasons: vec![TaskWaitReason::Dependency],
        blocked: true,
        actionable: false,
    };
    let vars = task_search_filter_variables("/ws", &facts, now());
    let at = "/ws/a.plumb";
    assert_eq!(search_filter_matches("created < now && due == null && priority == 5", &vars, at), Ok(true));
    assert_eq!(search_filter_matches("recur == 'weekly' && id == 't' && path == 'a.plumb'", &vars, at), Ok(true));
    assert_eq!(search_filter_matches("depends_on == ['b.plumb#x'] && state == 'blocked' && blocked", &vars, at), Ok(true));
    assert_eq!(search_filter_matches("actionable", &vars, at), Ok(false));
}

#[test]
fn event_search_filters_read_event_fields() {
    let event = EventSearchFacts {
        path: "/ws/cal.plumb".to_string(),
        id: None,
        title: "Standup".to_string(),
        uid: Some("u1".to_string()),
        date: Some("2026-08-28".to_string()),
        timezone: None,
        when: None,
        at: None,
        start: Some("2026-08-28T09:00:00+02:00".to_string()),
        end: Some("2026-08-28T09:15:00+02:00".to_string()),
        tasks: vec!["a.plumb#t".to_string()],
    };
    let vars = event_search_filter_variables("/ws", &event, now());
    let at = "/ws/cal.plumb";
    assert_eq!(search_filter_matches("start < end && end < now && at == null && id == null", &vars, at), Ok(true));
    assert_eq!(search_filter_matches("uid == 'u1' && date == '2026-08-28' && tasks == ['a.plumb#t']", &vars, at), Ok(true));
    assert_eq!(search_filter_matches("title.startsWith('X')", &vars, at), Ok(false));
}

#[test]
fn search_outcomes_map_to_results() {
    let at = "/ws/a.plumb";
    assert_eq!(search_outcome_result(&FilterOutcome::Matched, at), Ok(true));
    assert_eq!(search_outcome_result(&FilterOutcome::NotMatched, at), Ok(false));
    assert_eq!(search_outcome_result(&FilterOutcome::MissingKey, at), Ok(false));
    assert_eq!(
        search_outcome_result(&FilterOutcome::NotBool("Int(1)".to_string()), at),
        Err("CEL query must return bool, got Int(1)".to_string())
    );
    assert_eq!(
        search_outcome_result(&FilterOutcome::Failed("boom".to_string()), at),
        Err("cannot evaluate query for /ws/a.plumb: boom".to_string())
    );
}

#[test]
fn search_filters_refuse_text_that_does_not_compile() {
    let vars = note_filter_variables("/ws", "/ws/a.plumb", "A", &vec![], &vec![]);
    let refused = search_filter_matches("title ==", &vars, "/ws/a.plumb").unwrap_err();
    assert!(refused.starts_with("invalid CEL query: "), "{refused}");
}
