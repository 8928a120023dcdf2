use plumb_workspace::cursor::{encode_cursor, TaskPageQuery, TaskPageQueryError, TaskQueryFilter, TaskQueryFilterGroup};
use plumb_workspace::filters::{query_candidate_predicate, task_filter_variables, FilterValue, TaskFilterFacts};
use plumb_workspace::task_page::FilterOutcome;
use plumb_workspace::refs::TaskRef;
use plumb_workspace::task_page::{filter_groups_match, filter_outcomes_match, query_task_page, query_task_tree_page, select_tasks, PageFact, TaskPage};
use plumb_workspace::workflow::{TaskClosure, TaskWaitReason, TaskWorkflowState};
use plumb_workspace::shortlist::{query_next, workflow_state_at, ShortlistFact};
use plumb_workspace::task_sort::TaskSortOrder;
use plumb_workspace::time::Timestamp;

fn page_fact(path: &str, document: &str, start: usize) -> PageFact {
    PageFact {
        path: path.to_string(),
        document_order: document.to_string(),
        document_task: false,
        start,
        depth: 0,
        focused: false,
        priority: None,
        parent: None,
        open_dependencies: vec![],
        due: None,
        relevance: 0,
    }
}

fn query(sort: Vec<TaskSortOrder>, limit: usize, cursor: Option<String>) -> TaskPageQuery {
    TaskPageQuery {
        root: "/ws".to_string(),
        text: String::new(),
        filter_groups: vec![],
        sort,
        limit,
        cursor,
        workspace_revision: 3,
        now: Timestamp { seconds: 0, nanos: 0, offset_seconds: 0 },
    }
}

#[test]
fn task_page_orders_by_document_and_source_with_member_priorities() {
    let mut first = page_fact("/ws/a.plumb", "a", 10);
    first.priority = Some(1);
    let mut second = page_fact("/ws/a.plumb", "a", 5);
    second.priority = Some(3);
    second.open_dependencies = vec![2];
    let third = page_fact("/ws/b.plumb", "b", 0);
    let facts = vec![first, second, third];
    let page = query_task_page(&facts, &vec![0, 1, 2], &query(vec![TaskSortOrder::Source], 10, None)).unwrap();
    assert_eq!(page.tasks, vec![1, 0, 2]);
    assert_eq!(page.effective_priorities, vec![3, 1, 3]);
    assert_eq!(page.matched, vec![true, true, true]);
    assert!(page.complete);
    assert_eq!(page.next_cursor, None);
    let by_priority =
        query_task_page(&facts, &vec![0, 2], &query(vec![TaskSortOrder::Priority], 10, None)).unwrap();
    assert_eq!(by_priority.tasks, vec![0, 2]);
    assert_eq!(by_priority.effective_priorities, vec![1, 0]);
}

#[test]
fn task_tree_page_adds_ancestors_with_their_priority() {
    let mut parent = page_fact("/ws/a.plumb", "a", 0);
    parent.priority = Some(0);
    let mut child = page_fact("/ws/a.plumb", "a", 10);
    child.depth = 1;
    child.parent = Some(0);
    child.priority = Some(7);
    let other = page_fact("/ws/b.plumb", "b", 0);
    let facts = vec![parent, child, other];
    let tree = query_task_tree_page(&facts, &vec![1], &query(vec![TaskSortOrder::Source], 10, None)).unwrap();
    assert_eq!(tree.tasks, vec![0, 1]);
    assert_eq!(tree.matched, vec![false, true]);
    assert_eq!(tree.effective_priorities, vec![7, 7]);
    let flat = query_task_page(&facts, &vec![1], &query(vec![TaskSortOrder::Source], 10, None)).unwrap();
    assert_eq!(flat.tasks, vec![1]);
    assert_eq!(flat.matched, vec![true]);
}

#[test]
fn task_pages_keep_documents_whole_and_continue_by_cursor() {
    let facts = vec![
        page_fact("/ws/a.plumb", "a", 0),
        page_fact("/ws/a.plumb", "a", 4),
        page_fact("/ws/b.plumb", "b", 0),
        page_fact("/ws/c.plumb", "c", 0),
    ];
    let matched = vec![0, 1, 2, 3];
    let first_query = query(vec![TaskSortOrder::Source], 1, None);
    let first = query_task_page(&facts, &matched, &first_query).unwrap();
    assert_eq!(first.tasks, vec![0, 1]);
    assert!(!first.complete);
    let cursor = first.next_cursor.clone().unwrap();
    assert_eq!(cursor, encode_cursor(&first_query, "/ws/a.plumb", false));
    let second = query_task_page(&facts, &matched, &query(vec![TaskSortOrder::Source], 1, Some(cursor))).unwrap();
    assert_eq!(second.tasks, vec![2]);
    assert!(!second.complete);
    let third_cursor = second.next_cursor.clone().unwrap();
    let third =
        query_task_page(&facts, &matched, &query(vec![TaskSortOrder::Source], 1, Some(third_cursor))).unwrap();
    assert_eq!(third.tasks, vec![3]);
    assert!(third.complete);
    assert_eq!(third.next_cursor, None);
    let empty = query_task_page(&facts, &matched, &query(vec![TaskSortOrder::Source], 0, None)).unwrap();
    assert!(empty.tasks.is_empty());
    assert!(!empty.complete);
    assert_eq!(empty.next_cursor, None);
}

#[test]
fn task_page_refuses_foreign_cursors() {
    let facts = vec![page_fact("/ws/a.plumb", "a", 0)];
    let mut other_revision = query(vec![TaskSortOrder::Source], 1, None);
    other_revision.workspace_revision = 4;
    let stale = encode_cursor(&other_revision, "/ws/a.plumb", false);
    match query_task_page(&facts, &vec![0], &query(vec![TaskSortOrder::Source], 1, Some(stale))) {
        Err(TaskPageQueryError::Cursor(m)) => assert_eq!(m, "task cursor is stale or does not match this query"),
        other => panic!("unexpected {other:?}"),
    }
    let lost = encode_cursor(&query(vec![TaskSortOrder::Source], 1, None), "/ws/gone.plumb", false);
    match query_task_page(&facts, &vec![0], &query(vec![TaskSortOrder::Source], 1, Some(lost))) {
        Err(TaskPageQueryError::Cursor(m)) => assert_eq!(m, "task cursor no longer identifies a result document"),
        other => panic!("unexpected {other:?}"),
    }
}

fn facts(path: &str, id: &str, title: &str, priority: Option<i32>) -> TaskFilterFacts {
    TaskFilterFacts {
        path: path.to_string(),
        id: Some(id.to_string()),
        title: title.to_string(),
        created: None,
        due: None,
        priority,
        wait: None,
        done: None,
        canceled: None,
        recur: None,
        prev: None,
        focused: false,
        focused_since: None,
        depends_on: vec![],
        directly_blocking: vec![],
        state: TaskWorkflowState::Ready,
        wait_reasons: vec![],
        blocked: false,
        actionable: true,
    }
}

fn now() -> Timestamp {
    Timestamp { seconds: 1_787_918_400, nanos: 0, offset_seconds: 0 }
}

fn group(filters: &[(&str, &str)]) -> TaskQueryFilterGroup {
    TaskQueryFilterGroup {
        filters: filters
            .iter()
            .map(|(source, expression)| TaskQueryFilter { source: source.to_string(), expression: expression.to_string() })
            .collect(),
    }
}

fn variables(title: &str) -> Vec<(String, FilterValue)> {
    task_filter_variables("/ws", &facts("/ws/a.plumb", "t", title, Some(3)), now())
}

#[test]
fn filter_groups_or_within_and_across() {
    let vars = variables("Task");
    let passing = vec![
        group(&[("a", "title == 'x'"), ("b", "title == 'Task'")]),
        group(&[("c", "{'k': 1}.z == 1"), ("d", "priority == 3 && path == 'a.plumb' && id == 't'")]),
    ];
    assert_eq!(filter_groups_match(&passing, &vars, "Task"), Ok(true));
    let failing = vec![group(&[("a", "true")]), group(&[("c", "false"), ("d", "{'k': 1}.z == 1")]), group(&[("e", "nosuch")])];
    assert_eq!(filter_groups_match(&failing, &vars, "Task"), Ok(false));
    assert_eq!(filter_groups_match(&vec![], &vars, "Task"), Ok(true));
    assert_eq!(filter_groups_match(&vec![group(&[])], &vars, "Task"), Ok(false));
}

#[test]
fn filter_groups_report_the_first_failing_filter() {
    let vars = variables("Task");
    let not_bool = vec![group(&[("custom:1", "priority"), ("b", "true")])];
    assert_eq!(
        filter_groups_match(&not_bool, &vars, "Task"),
        Err(TaskPageQueryError::Filter {
            source: "custom:1".to_string(),
            message: "CEL query must return bool, got Int(3)".to_string(),
        })
    );
    let vars = variables("Done");
    let failed = vec![group(&[("b", "true")]), group(&[("custom:2", "nosuch == 1")])];
    match filter_groups_match(&failed, &vars, "Done") {
        Err(TaskPageQueryError::Filter { source, message }) => {
            assert_eq!(source, "custom:2");
            assert!(message.starts_with("cannot evaluate CEL query for 'Done': "), "{message}");
        }
        other => panic!("unexpected {other:?}"),
    }
    let after_match = vec![group(&[("b", "true"), ("x", "nosuch")])];
    assert_eq!(filter_groups_match(&after_match, &vars, "T"), Ok(true));
}

#[test]
fn task_variables_hold_times_and_references() {
    let mut f = facts("/ws/a.plumb", "t", "Task", None);
    f.due = Some(1_787_918_400_500);
    f.depends_on = vec![TaskRef { path: "/ws/b.plumb".to_string(), id: Some("target".to_string()) }];
    f.wait_reasons = vec![TaskWaitReason::Time];
    let vars = task_filter_variables("/ws", &f, now());
    let check = |expression: &str| filter_groups_match(&vec![group(&[("q", expression)])], &vars, "Task");
    assert_eq!(check("due > now && due < now + duration('1s')"), Ok(true));
    assert_eq!(check("priority == null && created == null"), Ok(true));
    assert_eq!(check("depends_on == ['b.plumb#target'] && directly_blocking == []"), Ok(true));
    assert_eq!(check("wait_reasons == ['time'] && state == 'ready' && actionable && !blocked"), Ok(true));
}

/// The tasks of the shared fixture: a parent, a dependent waiting on a
/// target in another document, and a finished task.
fn fixture() -> Vec<TaskFilterFacts> {
    let mut parent = facts("a.plumb", "parent", "Parent", Some(-1));
    parent.state = TaskWorkflowState::Ready;
    let mut dependent = facts("a.plumb", "dependent", "Dependent", Some(20));
    dependent.depends_on = vec![TaskRef { path: "b.plumb".to_string(), id: Some("target".to_string()) }];
    dependent.state = TaskWorkflowState::Blocked;
    dependent.wait_reasons = vec![TaskWaitReason::Dependency];
    dependent.blocked = true;
    dependent.actionable = false;
    let mut target = facts("b.plumb", "target", "Target", Some(1));
    target.directly_blocking = vec![TaskRef { path: "a.plumb".to_string(), id: Some("dependent".to_string()) }];
    let mut done = facts("c.plumb", "done", "Done", None);
    done.done = Some(1_787_832_000_000);
    done.state = TaskWorkflowState::Done;
    done.actionable = false;
    vec![parent, dependent, target, done]
}

fn fixture_query(groups: Vec<TaskQueryFilterGroup>) -> TaskPageQuery {
    let mut q = query(vec![TaskSortOrder::Priority], usize::MAX, None);
    q.root = String::new();
    q.filter_groups = groups;
    q.now = now();
    q
}

#[test]
fn task_filter_errors_preserve_their_source() {
    let invalid = fixture_query(vec![group(&[("custom:2", "title")])]);
    assert!(matches!(
        select_tasks(&invalid, &fixture()),
        Err(TaskPageQueryError::Filter { source, message })
            if source == "custom:2" && message.contains("must return bool")
    ));
}

#[test]
fn task_filter_groups_or_within_groups_and_intersect_across_groups() {
    let filtered = fixture_query(vec![
        group(&[("preset:done", "state == 'done'"), ("custom:1", "priority != null && priority >= 20")]),
        group(&[("custom:2", "title.contains('Dep')")]),
    ]);
    let selected = select_tasks(&filtered, &fixture()).unwrap();
    assert_eq!(selected, vec![(1, 0)]);
    let relations = fixture_query(vec![group(&[("r", "depends_on == ['b.plumb#target']")])]);
    assert_eq!(select_tasks(&relations, &fixture()).unwrap(), vec![(1, 0)]);
}

#[test]
fn select_tasks_refuses_a_filter_that_does_not_compile_before_reading_tasks() {
    let invalid = fixture_query(vec![group(&[("ok", "true")]), group(&[("custom:3", "title ==")])]);
    match select_tasks(&invalid, &vec![]) {
        Err(TaskPageQueryError::Filter { source, message }) => {
            assert_eq!(source, "custom:3");
            assert!(message.starts_with("invalid CEL query: "), "{message}");
        }
        other => panic!("unexpected {other:?}"),
    }
}

#[test]
fn select_tasks_scores_the_query_text() {
    let mut q = fixture_query(vec![]);
    q.text = "tar".to_string();
    let selected = select_tasks(&q, &fixture()).unwrap();
    assert_eq!(selected.iter().map(|(i, _)| *i).collect::<Vec<_>>(), vec![2]);
    assert!(selected[0].1 > 0);
}

/// The page facts of the shared fixture, in the order of `fixture()`.
fn fixture_pages() -> Vec<PageFact> {
    let mut parent = page_fact("a.plumb", "a.plumb", 0);
    parent.priority = Some(-1);
    let mut dependent = page_fact("a.plumb", "a.plumb", 30);
    dependent.depth = 1;
    dependent.parent = Some(0);
    dependent.priority = Some(20);
    dependent.open_dependencies = vec![2];
    let mut target = page_fact("b.plumb", "b.plumb", 0);
    target.priority = Some(1);
    let done = page_fact("c.plumb", "c.plumb", 0);
    vec![parent, dependent, target, done]
}

fn page_of(query: &TaskPageQuery, pages: &Vec<PageFact>, facts: &Vec<TaskFilterFacts>) -> Result<TaskPage, TaskPageQueryError> {
    let selected = select_tasks(query, facts)?;
    let mut pages: Vec<PageFact> = pages
        .iter()
        .map(|p| PageFact {
            path: p.path.clone(),
            document_order: p.document_order.clone(),
            document_task: p.document_task,
            start: p.start,
            depth: p.depth,
            focused: p.focused,
            priority: p.priority,
            parent: p.parent,
            open_dependencies: p.open_dependencies.clone(),
            due: p.due,
            relevance: p.relevance,
        })
        .collect();
    for (i, score) in &selected {
        pages[*i].relevance = *score;
    }
    query_task_page(&pages, &selected.iter().map(|(i, _)| *i).collect(), query)
}

#[test]
fn task_cursor_preserves_documents_and_binds_the_query_revision() {
    let mut first_query = fixture_query(vec![]);
    first_query.workspace_revision = 11;
    first_query.limit = 1;
    let first = page_of(&first_query, &fixture_pages(), &fixture()).unwrap();
    assert!(!first.complete);
    assert_eq!(first.tasks.len(), 2);
    assert!(first.tasks.iter().all(|&t| fixture_pages()[t].path == "a.plumb"));

    let mut second_query = fixture_query(vec![]);
    second_query.workspace_revision = 11;
    second_query.limit = 1;
    second_query.cursor = first.next_cursor.clone();
    let second = page_of(&second_query, &fixture_pages(), &fixture()).unwrap();
    assert!(second.tasks.iter().all(|&t| fixture_pages()[t].path != "a.plumb"));

    let mut changed = fixture_query(vec![]);
    changed.workspace_revision = 11;
    changed.limit = 1;
    changed.cursor = first.next_cursor.clone();
    changed.text = "target".to_string();
    assert!(matches!(page_of(&changed, &fixture_pages(), &fixture()), Err(TaskPageQueryError::Cursor(_))));
    let mut stale = fixture_query(vec![]);
    stale.workspace_revision = 12;
    stale.limit = 1;
    stale.cursor = first.next_cursor;
    assert!(matches!(page_of(&stale, &fixture_pages(), &fixture()), Err(TaskPageQueryError::Cursor(_))));
}

#[test]
fn done_task_pages_are_bounded_and_continue_with_an_opaque_cursor() {
    let mut facts = Vec::new();
    let mut pages = Vec::new();
    for index in 0..101 {
        let path = format!("{index:03}.plumb");
        let mut f = facts_done(&path, index);
        f.state = TaskWorkflowState::Done;
        facts.push(f);
        pages.push(page_fact(&path, &path, 0));
    }
    let mut first_query = fixture_query(vec![group(&[("done", "state == 'done'")])]);
    first_query.limit = 100;
    first_query.sort = vec![TaskSortOrder::Source];
    let first = page_of(&first_query, &pages, &facts).unwrap();
    assert_eq!(first.tasks.len(), 100);
    assert!(!first.complete);
    assert!(first.next_cursor.is_some());

    let mut second_query = fixture_query(vec![group(&[("done", "state == 'done'")])]);
    second_query.limit = 100;
    second_query.sort = vec![TaskSortOrder::Source];
    second_query.cursor = first.next_cursor;
    let second = page_of(&second_query, &pages, &facts).unwrap();
    assert_eq!(second.tasks.len(), 1);
    assert!(second.complete);
    assert!(second.next_cursor.is_none());
}

fn facts_done(path: &str, index: usize) -> TaskFilterFacts {
    let mut f = facts(path, &format!("done-{index}"), &format!("Done {index}"), None);
    f.done = Some(1_787_911_200_000);
    f.actionable = false;
    f
}

fn outcome(source: &str, outcome: FilterOutcome) -> (String, FilterOutcome) {
    (source.to_string(), outcome)
}

#[test]
fn filter_outcomes_decide_or_within_and_across_groups() {
    let passing = vec![
        vec![outcome("a", FilterOutcome::NotMatched), outcome("b", FilterOutcome::Matched)],
        vec![outcome("c", FilterOutcome::MissingKey), outcome("d", FilterOutcome::Matched)],
    ];
    assert_eq!(filter_outcomes_match(&passing, "Task"), Ok(true));
    let failing = vec![
        vec![outcome("a", FilterOutcome::Matched)],
        vec![outcome("c", FilterOutcome::NotMatched), outcome("d", FilterOutcome::MissingKey)],
        vec![outcome("e", FilterOutcome::Failed("never read".to_string()))],
    ];
    assert_eq!(filter_outcomes_match(&failing, "Task"), Ok(false));
    assert_eq!(filter_outcomes_match(&vec![], "Task"), Ok(true));
    assert_eq!(filter_outcomes_match(&vec![vec![]], "Task"), Ok(false));
}

#[test]
fn filter_outcomes_report_the_first_failing_filter() {
    let not_bool = vec![vec![outcome("custom:1", FilterOutcome::NotBool("Int(3)".to_string())), outcome("b", FilterOutcome::Matched)]];
    assert_eq!(
        filter_outcomes_match(&not_bool, "Task"),
        Err(TaskPageQueryError::Filter {
            source: "custom:1".to_string(),
            message: "CEL query must return bool, got Int(3)".to_string(),
        })
    );
    let failed = vec![vec![outcome("b", FilterOutcome::Matched)], vec![outcome("custom:2", FilterOutcome::Failed("No such key: x".to_string()))]];
    assert_eq!(
        filter_outcomes_match(&failed, "Done"),
        Err(TaskPageQueryError::Filter {
            source: "custom:2".to_string(),
            message: "cannot evaluate CEL query for 'Done': No such key: x".to_string(),
        })
    );
}

#[test]
fn filter_groups_refuse_a_filter_that_does_not_compile_first() {
    let vars = variables("Task");
    let groups = vec![group(&[("a", "true")]), group(&[("custom:9", "title ==")])];
    match filter_groups_match(&groups, &vars, "Task") {
        Err(TaskPageQueryError::Filter { source, message }) => {
            assert_eq!(source, "custom:9");
            assert!(message.starts_with("invalid CEL query: "), "{message}");
        }
        other => panic!("unexpected {other:?}"),
    }
}

#[test]
fn pre_focus_first_cursors_are_rejected() {
    let facts = vec![page_fact("/ws/tasks.plumb", "tasks", 0), page_fact("/ws/other.plumb", "other", 0)];
    let first = query_task_page(&facts, &vec![0, 1], &query(vec![TaskSortOrder::Source], 1, None)).unwrap();
    let cursor = first.next_cursor.unwrap();
    assert!(cursor.starts_with("v2:"));
    let stale = cursor.replacen("v2:", "v1:", 1);
    assert!(matches!(
        query_task_page(&facts, &vec![0, 1], &query(vec![TaskSortOrder::Source], 1, Some(stale))),
        Err(TaskPageQueryError::Cursor(_))
    ));
}

#[test]
fn candidate_pushdown_preserves_nullable_error_and_short_circuit_order() {
    for expression in ["state == 'done' && priority > 0", "priority > 0 && state == 'done'"] {
        let filtered = fixture_query(vec![group(&[(expression, expression)])]);
        match select_tasks(&filtered, &fixture()) {
            Err(TaskPageQueryError::Filter { source, message }) => {
                assert_eq!(source, expression);
                assert!(message.contains("Done"), "{message}");
            }
            other => panic!("unexpected {other:?}"),
        }
    }
    let leading = vec![group(&[("leading", "state == 'done' && priority > 0")])];
    assert!(query_candidate_predicate(&leading, false).unwrap().is_some());
    let unsafe_order = vec![group(&[("unsafe", "priority > 0 && state == 'done'")])];
    assert!(query_candidate_predicate(&unsafe_order, false).unwrap().is_none());
}

#[test]
fn waiting_state_candidate_matches_memory_at_the_query_instant() {
    let query_millis = 1_787_918_400_000;
    let mut tasks = Vec::new();
    for (id, wait) in [("waiting", 1_788_004_800_000i64), ("ready", 1_787_832_000_000i64)] {
        let mut f = facts("tasks.plumb", id, id, None);
        f.wait = Some(wait);
        let (state, reasons) = workflow_state_at(TaskClosure::Open, Some(wait), false, query_millis);
        f.state = state;
        f.wait_reasons = reasons;
        f.actionable = state == TaskWorkflowState::Ready;
        tasks.push(f);
    }
    let filtered = fixture_query(vec![group(&[("waiting", "state == 'waiting'")])]);
    let selected = select_tasks(&filtered, &tasks).unwrap();
    assert_eq!(selected.len(), 1);
    assert_eq!(tasks[selected[0].0].id.as_deref(), Some("waiting"));
}

#[test]
fn nullable_not_equal_candidate_matches_cel_null_semantics() {
    let mut filtered = fixture_query(vec![group(&[("not-three", "priority != 3")])]);
    filtered.sort = vec![TaskSortOrder::Source];
    let selected = select_tasks(&filtered, &fixture()).unwrap();
    assert_eq!(selected.iter().map(|(i, _)| *i).collect::<Vec<_>>(), vec![0, 1, 2, 3]);
    assert!(query_candidate_predicate(&filtered.filter_groups, false).is_ok());
}

#[test]
fn invalid_focus_history_is_not_silently_treated_as_unfocused() {
    let mut open = facts("tasks.plumb", "open", "Open", None);
    open.focused = true;
    open.focused_since = Some(1_789_869_600_000);
    let invalid = facts("tasks.plumb", "invalid", "Invalid", None);
    let unfocused = select_tasks(&fixture_query(vec![group(&[("focus", "!focused")])]), &vec![open, invalid]).unwrap();
    assert_eq!(unfocused.iter().map(|(i, _)| *i).collect::<Vec<_>>(), vec![1]);

    let mut focused = shortlist_fact(0);
    focused.focused = true;
    focused.focused_since_millis = Some(1_789_869_600_000);
    let mut broken = shortlist_fact(100);
    broken.focus_valid = false;
    let next = query_next(&vec![focused, broken], "", 3, &None, 11, query_now_millis()).unwrap();
    assert_eq!(next.skipped_invalid, vec![1]);
    assert!(!next.candidates.contains(&1) && !next.focused.contains(&1));
}

fn query_now_millis() -> i64 {
    1_787_918_400_000
}

fn shortlist_fact(start: usize) -> ShortlistFact {
    ShortlistFact {
        closure: TaskClosure::Open,
        wait_millis: None,
        priority: None,
        parent: None,
        open_dependencies: vec![],
        focus_valid: true,
        focused: false,
        focused_since_millis: None,
        path: "tasks.plumb".to_string(),
        start,
    }
}
