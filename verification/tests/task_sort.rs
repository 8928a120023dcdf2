use plumb_workspace::task_sort::{aggregate_order, optional_order, TaskSortFacts, TaskSortOrder};
use plumb_workspace::time::Timestamp;
use std::cmp::Ordering;
use plumb_workspace::task_tree::{sort_task_records, sort_task_records_by};

fn facts(document: &str, source_start: usize, depth: usize, focused: bool, priority: i32) -> TaskSortFacts {
    TaskSortFacts {
        document: document.to_string(),
        source_start,
        depth,
        focused,
        priority: Some(priority),
        due: None,
        relevance: None,
    }
}

fn sorted(items: Vec<(&'static str, TaskSortFacts)>, orders: &[TaskSortOrder]) -> Vec<&'static str> {
    let facts: Vec<TaskSortFacts> = items.iter().map(|(_, f)| f.clone()).collect();
    let mut names: Vec<&'static str> = items.iter().map(|(n, _)| *n).collect();
    sort_task_records_by(&mut names, &orders.to_vec(), &facts);
    names
}

#[test]
fn direct_focus_promotes_the_task_and_its_subtree() {
    let records = vec![
        ("A", facts("d", 0, 0, false, 0)),
        ("A1", facts("d", 10, 1, false, 0)),
        ("B", facts("d", 20, 0, false, 0)),
        ("B1", facts("d", 30, 1, false, 0)),
        ("B2", facts("d", 40, 1, true, 0)),
    ];
    assert_eq!(sorted(records, &[TaskSortOrder::Source]), ["B", "B2", "B1", "A", "A1"]);
}

#[test]
fn deep_focused_descendant_promotes_every_ancestor_subtree() {
    let records = vec![
        ("A", facts("d", 0, 0, false, 0)),
        ("A1", facts("d", 10, 1, false, 0)),
        ("A2", facts("d", 20, 2, false, 0)),
        ("A3", facts("d", 30, 3, true, 0)),
        ("B", facts("d", 40, 0, false, 100)),
    ];
    let all: Vec<TaskSortFacts> = records.iter().map(|(_, f)| f.clone()).collect();
    let mut items: Vec<(&'static str, TaskSortFacts)> = records.clone();
    sort_task_records_by(&mut items, &vec![TaskSortOrder::Priority], &all);
    assert_eq!(items.iter().map(|(n, _)| *n).collect::<Vec<_>>(), ["A", "A1", "A2", "A3", "B"]);
    for name in ["A", "A1", "A2"] {
        let record = items.iter().find(|(n, _)| *n == name).unwrap();
        assert!(!record.1.focused, "{name} must not be marked focused by aggregation");
    }
}

#[test]
fn focused_descendant_promotes_the_cross_document_group() {
    let records = vec![
        ("A", facts("a.plumb", 0, 0, false, 100)),
        ("Z", facts("z.plumb", 0, 0, false, 0)),
        ("Z1", facts("z.plumb", 10, 1, true, 0)),
    ];
    assert_eq!(sorted(records, &[TaskSortOrder::Priority]), ["Z", "Z1", "A"]);
}

#[test]
fn focused_sibling_subtrees_use_the_secondary_sort() {
    let records = vec![
        ("A", facts("d", 0, 0, false, 1)),
        ("A1", facts("d", 10, 1, false, 0)),
        ("A2", facts("d", 20, 1, true, 0)),
        ("B", facts("d", 30, 0, false, 5)),
        ("B1", facts("d", 40, 1, true, 0)),
        ("B2", facts("d", 50, 1, false, 0)),
    ];
    assert_eq!(sorted(records, &[TaskSortOrder::Priority]), ["B", "B1", "B2", "A", "A2", "A1"]);
}

#[test]
fn filtered_out_tasks_do_not_promote_but_folded_hidden_ones_do() {
    let filtered = vec![
        ("A", facts("d", 0, 0, false, 1)),
        ("A1", facts("d", 10, 1, false, 0)),
        ("B", facts("d", 20, 0, false, 5)),
        ("B1", facts("d", 30, 1, false, 0)),
    ];
    assert_eq!(sorted(filtered, &[TaskSortOrder::Priority]), ["B", "B1", "A", "A1"]);

    let folded = vec![
        ("A", facts("d", 0, 0, false, 1)),
        ("A1", facts("d", 10, 1, false, 0)),
        ("A2", facts("d", 20, 2, true, 0)),
        ("B", facts("d", 30, 0, false, 5)),
    ];
    assert_eq!(sorted(folded, &[TaskSortOrder::Priority]), ["A", "A1", "A2", "B"]);
}

#[test]
fn focus_first_survives_cleared_and_reordered_sort_keys() {
    let records = || {
        vec![
            ("A", facts("d", 0, 0, false, 9)),
            ("A1", facts("d", 10, 1, false, 9)),
            ("B", facts("d", 20, 0, false, 1)),
            ("B1", facts("d", 30, 1, true, 1)),
        ]
    };
    assert_eq!(sorted(records(), &[]), ["B", "B1", "A", "A1"]);
    assert_eq!(
        sorted(records(), &[TaskSortOrder::Due, TaskSortOrder::Priority]),
        ["B", "B1", "A", "A1"]
    );
}

#[test]
fn documents_come_in_path_order_and_tasks_in_source_order() {
    let records = vec![
        ("z2", facts("z.plumb", 20, 0, false, 0)),
        ("a1", facts("a.plumb", 5, 0, false, 0)),
        ("z1", facts("z.plumb", 10, 0, false, 0)),
    ];
    assert_eq!(sorted(records, &[TaskSortOrder::Source]), ["a1", "z1", "z2"]);
}

#[test]
fn priority_order_falls_back_to_due() {
    let mut early = facts("d", 10, 0, false, 3);
    early.due = Some(plumb_workspace::time::Timestamp { seconds: 100, nanos: 0, offset_seconds: 0 });
    let mut late = facts("d", 0, 0, false, 3);
    late.due = Some(plumb_workspace::time::Timestamp { seconds: 200, nanos: 0, offset_seconds: 0 });
    let all = vec![late.clone(), early.clone()];
    let mut names = vec!["late", "early"];
    sort_task_records(&mut names, TaskSortOrder::Priority, &all);
    assert_eq!(names, ["early", "late"]);
}

#[test]
fn aggregates_compare_focus_first_then_each_key() {
    let early = Timestamp { seconds: 10, nanos: 0, offset_seconds: 0 };
    let late = Timestamp { seconds: 20, nanos: 0, offset_seconds: 3600 };
    let orders = vec![TaskSortOrder::Priority, TaskSortOrder::Due, TaskSortOrder::Relevance];
    assert_eq!(aggregate_order(true, false, 0, 9, None, None, None, None, &orders), Ordering::Less);
    assert_eq!(aggregate_order(false, true, 9, 0, None, None, None, None, &orders), Ordering::Greater);
    assert_eq!(aggregate_order(false, false, 5, 3, None, None, None, None, &orders), Ordering::Less);
    assert_eq!(aggregate_order(false, false, 3, 3, Some(&late), Some(&early), None, None, &orders), Ordering::Greater);
    assert_eq!(aggregate_order(false, false, 3, 3, None, None, Some(1), Some(7), &orders), Ordering::Greater);
    assert_eq!(aggregate_order(false, false, 3, 3, None, None, Some(1), None, &orders), Ordering::Equal);
    assert_eq!(aggregate_order(false, false, 1, 9, None, None, None, None, &vec![TaskSortOrder::Source]), Ordering::Equal);
    assert_eq!(optional_order(Some(&early), None), Ordering::Less);
    assert_eq!(optional_order(None, None), Ordering::Equal);
}

#[test]
fn records_of_one_document_stay_together() {
    let records = vec![
        ("a1", facts("a.plumb", 0, 0, false, 1)),
        ("b1", facts("b.plumb", 0, 0, false, 50)),
        ("a2", facts("a.plumb", 10, 0, false, 90)),
        ("b2", facts("b.plumb", 10, 0, true, 0)),
        ("a3", facts("a.plumb", 20, 1, false, 5)),
    ];
    let order = sorted(records, &[TaskSortOrder::Priority]);
    let docs: Vec<char> = order.iter().map(|n| n.chars().next().unwrap()).collect();
    let switches = docs.windows(2).filter(|w| w[0] != w[1]).count();
    assert_eq!(switches, 1, "{order:?}");
    assert_eq!(order[0], "b2");
}
