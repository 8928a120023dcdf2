use plumb_workspace::query::WorkspaceQueryError;
use plumb_workspace::refs::TaskRef;
use plumb_workspace::search::{
    finish_search, fuzzy_match, fuzzy_score, search_kind_order, search_score, SearchRecord, WorkspaceSearchError,
};
use plumb_workspace::workflow::SearchRecordKind;
use plumb_workspace::filters::{note_filter_variables, select_search_records, SearchCandidate};

fn task(path: &str, start: usize, depth: usize, id: Option<&str>, priority: Option<i32>) -> SearchRecord {
    SearchRecord {
        kind: SearchRecordKind::Task,
        title: format!("task at {start}"),
        path: path.to_string(),
        relative_path: path.trim_start_matches('/').to_string(),
        range: start..start + 5,
        revision: 1,
        id: id.map(|s| s.to_string()),
        task_state: None,
        wait_reasons: None,
        due: None,
        priority,
        effective_priority: None,
        blocked: None,
        actionable: None,
        depth: Some(depth),
        at: None,
        start: None,
        end: None,
        tasks: None,
    }
}

fn note(path: &str, start: usize) -> SearchRecord {
    SearchRecord { kind: SearchRecordKind::Note, depth: None, ..task(path, start, 0, None, None) }
}

#[test]
fn fuzzy_match_is_a_case_blind_subsequence_test() {
    assert!(fuzzy_match("Hello World", "hw"));
    assert!(!fuzzy_match("abc", "acb"));
    assert!(fuzzy_match("x", ""));
    assert!(!fuzzy_match("", "a"));
}

#[test]
fn fuzzy_scores_reward_close_and_leading_matches() {
    assert_eq!(fuzzy_score("abc", "abc"), Some(1100));
    assert_eq!(fuzzy_score("abcd", "ab"), Some(565));
    assert_eq!(fuzzy_score("x-yz", "y"), Some(28));
    assert_eq!(fuzzy_score("xab", "AB"), Some(54));
    assert_eq!(fuzzy_score("abc", "d"), None);
    assert_eq!(fuzzy_score("anything", ""), Some(0));
}

#[test]
fn search_score_takes_the_best_field() {
    let fields = vec!["xab".to_string(), "abcd".to_string()];
    assert_eq!(search_score("ab", &fields), Some(565));
    assert_eq!(search_score("", &fields), Some(0));
    assert_eq!(search_score("zz", &fields), None);
}

#[test]
fn notes_rank_before_tasks_before_events() {
    assert!(search_kind_order(SearchRecordKind::Note) < search_kind_order(SearchRecordKind::Task));
    assert!(search_kind_order(SearchRecordKind::Task) < search_kind_order(SearchRecordKind::Event));
}

#[test]
fn priority_flows_to_parents_and_dependencies() {
    let a = task("/d.plumb", 0, 0, Some("a"), Some(1));
    let a1 = task("/d.plumb", 10, 1, Some("a1"), Some(5));
    let b = task("/d.plumb", 20, 0, Some("b"), Some(7));
    let c = task("/e.plumb", 0, 0, Some("c"), Some(2));
    let dep = TaskRef { path: "/e.plumb".to_string(), id: Some("c".to_string()) };
    let matches = vec![(1, c), (10, a1), (5, b), (10, a)];
    let dependencies = vec![vec![], vec![], vec![dep], vec![]];
    let results = finish_search(matches, &dependencies, 10);
    assert!(results.complete);
    let order: Vec<(&str, usize)> = results.items.iter().map(|r| (r.relative_path.as_str(), r.range.start)).collect();
    assert_eq!(order, vec![("d.plumb", 0), ("d.plumb", 10), ("d.plumb", 20), ("e.plumb", 0)]);
    let effective: Vec<Option<i32>> = results.items.iter().map(|r| r.effective_priority).collect();
    assert_eq!(effective, vec![Some(5), Some(5), Some(7), Some(7)]);
}

#[test]
fn search_results_are_cut_at_the_limit() {
    let matches = vec![(3, note("/a.plumb", 0)), (2, note("/b.plumb", 0)), (1, note("/c.plumb", 0))];
    let dependencies = vec![vec![], vec![], vec![]];
    let results = finish_search(matches, &dependencies, 2);
    assert!(!results.complete);
    assert_eq!(results.items.len(), 2);
    assert_eq!(results.items[0].relative_path, "a.plumb");
    assert_eq!(results.items[1].effective_priority, None);
}

#[test]
fn search_errors_have_text() {
    assert_eq!(WorkspaceSearchError::Filter("bad filter".to_string()).message(), "bad filter");
    assert_eq!(
        WorkspaceSearchError::Query(WorkspaceQueryError::Incomplete).message(),
        "workspace query result is incomplete"
    );
}

#[test]
fn a_record_scores_exactly_when_a_field_holds_the_query_in_order() {
    let fields = |v: &[&str]| v.iter().map(|s| s.to_string()).collect::<Vec<_>>();
    assert!(search_score("abc", &fields(&["xAyBzC"])).is_some());
    assert!(search_score("abc", &fields(&["acb", "ab"])).is_none());
    assert!(search_score("abc", &fields(&["acb", "a-b-c"])).is_some());
    assert_eq!(search_score("abc", &fields(&[])), None);
    assert_eq!(search_score("", &fields(&[])), Some(0));
}

fn candidate(record: SearchRecord, stored: bool) -> SearchCandidate {
    let variables = note_filter_variables("/ws", &record.path, &record.title, &vec![], &vec![]);
    SearchCandidate { record, variables, stored }
}

fn titled(mut record: SearchRecord, title: &str) -> SearchRecord {
    record.title = title.to_string();
    record
}

#[test]
fn search_selection_keeps_kind_score_filter_and_open_precedence() {
    let candidates = vec![
        candidate(titled(note("/ws/a.plumb", 0), "Alpha notes"), false),
        candidate(titled(task("/ws/a.plumb", 10, 0, Some("t1"), None), "Write alpha"), false),
        candidate(titled(task("/ws/b.plumb", 0, 0, None, None), "Other"), false),
        candidate(titled(note("/ws/a.plumb", 0), "Alpha stale"), true),
        candidate(titled(note("/ws/c.plumb", 0), "Alpha stored"), true),
    ];
    let open = vec!["/ws/a.plumb".to_string(), "/ws/b.plumb".to_string()];
    let all = select_search_records(&candidates, None, "alpha", &None, &open).unwrap();
    assert_eq!(all.iter().map(|(_, i)| *i).collect::<Vec<_>>(), vec![0, 1, 4]);
    let tasks = select_search_records(&candidates, Some(SearchRecordKind::Task), "", &None, &open).unwrap();
    assert_eq!(tasks, vec![(0, 1), (0, 2)]);
    let filtered = select_search_records(&candidates, None, "", &Some("title.startsWith('Alpha')".to_string()), &open).unwrap();
    assert_eq!(filtered.iter().map(|(_, i)| *i).collect::<Vec<_>>(), vec![0, 4]);
    match select_search_records(&candidates, None, "", &Some("title ==".to_string()), &open) {
        Err(WorkspaceSearchError::Filter(m)) => assert!(m.starts_with("invalid CEL query: "), "{m}"),
        other => panic!("unexpected {other:?}"),
    }
    match select_search_records(&candidates, None, "", &Some("title".to_string()), &open) {
        Err(WorkspaceSearchError::Filter(m)) => assert_eq!(m, "CEL query must return bool, got String(\"Alpha notes\")"),
        other => panic!("unexpected {other:?}"),
    }
}

#[test]
fn notes_are_filtered_before_they_are_scored_and_tasks_after() {
    let candidates = vec![
        candidate(titled(note("/ws/a.plumb", 0), "Zeta"), false),
        candidate(titled(task("/ws/a.plumb", 10, 0, None, None), "Zeta"), false),
    ];
    // The filter fails on every record it runs on: the note meets it before
    // its (failing) score is known; the task is dropped by its score first.
    match select_search_records(&candidates, None, "qqq", &Some("title".to_string()), &vec![]) {
        Err(WorkspaceSearchError::Filter(m)) => assert_eq!(m, "CEL query must return bool, got String(\"Zeta\")"),
        other => panic!("unexpected {other:?}"),
    }
    let only_task = vec![candidate(titled(task("/ws/a.plumb", 10, 0, None, None), "Zeta"), false)];
    assert_eq!(select_search_records(&only_task, None, "qqq", &Some("title".to_string()), &vec![]).unwrap(), vec![]);
}
