use plumb_workspace::accounting::{
    accounting_identity, assemble_agenda, event_accounting, AccountedEvent, AccountingTarget, CategoryFacts, ReferenceTarget,
    ReportEvent, ShareAllocation, group_shares,
};
use plumb_workspace::agenda::{issue, location, AgendaItem};

fn no_category() -> CategoryFacts {
    CategoryFacts { values: vec![], invalid: false, declared_at: None }
}

fn event(override_tasks: bool, category: CategoryFacts) -> AccountedEvent {
    AccountedEvent { source: location("/ws/log.plumb", 0..10), tasks_override: override_tasks, category }
}

fn item(path: &str, id: Option<&str>) -> Option<AgendaItem> {
    Some(AgendaItem { path: path.to_string(), id: id.map(|s| s.to_string()) })
}

fn targets() -> Vec<AccountingTarget> {
    let categorized = CategoryFacts {
        values: vec!["work".to_string(), "deep".to_string()],
        invalid: false,
        declared_at: Some(location("/ws/a.plumb", 5..9)),
    };
    vec![
        AccountingTarget {
            identity: item("/ws/a.plumb", Some("x")),
            spelling: "a.plumb#x".to_string(),
            source: location("/ws/log.plumb", 2..11),
            found: true,
            is_task: true,
            category: categorized.clone(),
        },
        AccountingTarget {
            identity: item("/ws/a.plumb", Some("x")),
            spelling: "./a.plumb#x".to_string(),
            source: location("/ws/log.plumb", 12..23),
            found: true,
            is_task: true,
            category: categorized,
        },
        AccountingTarget {
            identity: None,
            spelling: "bogus".to_string(),
            source: location("/ws/log.plumb", 24..29),
            found: false,
            is_task: false,
            category: no_category(),
        },
    ]
}

#[test]
fn references_resolve_to_items() {
    let from = "/ws/notes/a.plumb";
    assert_eq!(accounting_identity(from, &ReferenceTarget::Internal { id: "t".to_string() }), item(from, Some("t")));
    assert_eq!(
        accounting_identity(from, &ReferenceTarget::External { path: "../b.plumb".to_string(), id: "u".to_string() }),
        item("/ws/b.plumb", Some("u"))
    );
    assert_eq!(
        accounting_identity(from, &ReferenceTarget::Document { path: "c.plumb".to_string() }),
        item("/ws/notes/c.plumb", None)
    );
    assert_eq!(accounting_identity(from, &ReferenceTarget::Invalid), None);
}

#[test]
fn repeated_items_count_once_and_inherit_categories() {
    let (shares, issues) = event_accounting(&event(false, no_category()), &targets());
    let summary: Vec<(Option<String>, usize, usize)> =
        shares.iter().map(|s| (s.category.clone(), s.share_count, s.category_count)).collect();
    assert_eq!(
        summary,
        vec![(Some("work".to_string()), 2, 2), (Some("deep".to_string()), 2, 2), (None, 2, 1)]
    );
    assert_eq!(shares[0].item, item("/ws/a.plumb", Some("x")));
    assert_eq!(shares[0].category_source, Some(location("/ws/a.plumb", 5..9)));
    assert_eq!(shares[2].item, None);
    assert_eq!(issues.len(), 1);
    assert_eq!(issues[0].code, "agenda.invalid-item");
    assert_eq!(issues[0].message, "cannot resolve accounting item 'bogus'");
    assert_eq!(issues[0].source, location("/ws/log.plumb", 24..29));
}

#[test]
fn an_event_category_overrides_item_categories() {
    let declared = CategoryFacts {
        values: vec!["meeting".to_string()],
        invalid: false,
        declared_at: Some(location("/ws/log.plumb", 20..25)),
    };
    let (shares, _) = event_accounting(&event(false, declared), &targets());
    assert_eq!(shares.len(), 2);
    assert!(shares.iter().all(|s| s.category.as_deref() == Some("meeting")));
    assert!(shares.iter().all(|s| s.category_source == Some(location("/ws/log.plumb", 20..25))));
}

#[test]
fn a_malformed_event_category_leaves_shares_uncategorized() {
    let malformed = CategoryFacts {
        values: vec!["x".to_string()],
        invalid: true,
        declared_at: Some(location("/ws/log.plumb", 20..25)),
    };
    let (shares, issues) = event_accounting(&event(false, malformed), &targets());
    assert!(shares.iter().all(|s| s.category.is_none()));
    assert_eq!(issues.last().unwrap().code, "agenda.invalid-category");
    assert_eq!(
        issues.last().unwrap().message,
        "event category must be a nonempty scalar or list of plain categories"
    );
}

#[test]
fn an_empty_explicit_task_list_is_reported() {
    let (shares, issues) = event_accounting(&event(true, no_category()), &vec![]);
    assert_eq!(shares.len(), 1);
    assert_eq!((shares[0].item.clone(), shares[0].share_count, shares[0].category_count), (None, 1, 1));
    assert_eq!(issues.len(), 1);
    assert_eq!(issues[0].message, "explicit tasks declaration is empty");
}

#[test]
fn explicit_task_lists_accept_only_tasks() {
    let mut document = targets().remove(0);
    document.is_task = false;
    let (_, issues) = event_accounting(&event(true, no_category()), &vec![document]);
    assert_eq!(issues.len(), 1);
    assert_eq!(issues[0].message, "cannot resolve accounting item 'a.plumb#x'");
}

fn report_events() -> Vec<ReportEvent> {
    vec![
        ReportEvent { at: None, start: Some(10), end: Some(40), event: event(false, no_category()), targets: targets() },
        ReportEvent { at: None, start: None, end: None, event: event(false, no_category()), targets: vec![] },
        ReportEvent { at: Some(50), start: None, end: None, event: event(false, no_category()), targets: vec![] },
    ]
}

#[test]
fn agenda_report_accounting_switch_keeps_the_timeline_and_drops_shares() {
    let invalid = vec![issue("agenda.invalid-document", "document has no current valid semantic output".to_string(), location("/ws/bad.plumb", 0..0))];
    let on = assemble_agenda(0, 100, &report_events(), true, true, invalid.clone()).unwrap();
    let off = assemble_agenda(0, 100, &report_events(), false, true, invalid).unwrap();
    assert_eq!(on.window.placements, off.window.placements);
    assert_eq!(on.window.allocated, vec![0]);
    assert_eq!(off.window.points, vec![2]);
    assert_eq!(on.window.timeline.covered, 30);
    assert_eq!(off.window.timeline.covered, 30);
    assert!(!on.shares[0].is_empty());
    assert!(off.shares[0].is_empty());
    let off_codes: Vec<&str> = off.issues.iter().map(|i| i.code.as_str()).collect();
    assert_eq!(off_codes, vec!["agenda.invalid-document", "agenda.invalid-time"]);
    assert!(on.issues.len() > off.issues.len());
    assert_eq!(on.issues[0].code, "agenda.invalid-document");
    assert!(!on.complete && !off.complete);
    let clean = assemble_agenda(0, 100, &vec![report_events().remove(2)], false, true, vec![]).unwrap();
    assert!(clean.complete);
    assert_eq!(assemble_agenda(5, 5, &vec![], true, true, vec![]).unwrap_err(), "--to must be later than --from");
}

fn share(item: Option<AgendaItem>, is_task: bool, category: Option<&str>) -> ShareAllocation {
    ShareAllocation { item, is_task, category: category.map(|c| c.to_string()), category_source: None, share_count: 1, category_count: 1 }
}

#[test]
fn shares_group_by_category_item_and_task_in_key_order() {
    let shares = vec![
        share(item("/ws/b.plumb", None), false, Some("work")),
        share(item("/ws/a.plumb", Some("x")), true, None),
        share(None, false, Some("deep")),
        share(item("/ws/a.plumb", Some("x")), true, Some("work")),
        share(item("/ws/a.plumb", None), false, Some("deep")),
    ];
    let groups = group_shares(&shares);
    assert_eq!(groups.categories, vec![None, Some("deep".to_string()), Some("work".to_string())]);
    assert_eq!(groups.category_shares, vec![vec![1], vec![2, 4], vec![0, 3]]);
    assert_eq!(groups.items, vec![item("/ws/a.plumb", None).unwrap(), item("/ws/a.plumb", Some("x")).unwrap(), item("/ws/b.plumb", None).unwrap()]);
    assert_eq!(groups.item_shares, vec![vec![4], vec![1, 3], vec![0]]);
    assert_eq!(groups.tasks, vec![item("/ws/a.plumb", Some("x")).unwrap()]);
    assert_eq!(groups.task_shares, vec![vec![1, 3]]);
}

#[test]
fn issues_without_accounting_are_among_those_with_it() {
    let on = assemble_agenda(0, 100, &report_events(), true, true, vec![]).unwrap();
    let off = assemble_agenda(0, 100, &report_events(), false, true, vec![]).unwrap();
    for issue in &off.issues {
        let count = |list: &Vec<plumb_workspace::agenda::AgendaIssue>| {
            list.iter().filter(|i| i.code == issue.code && i.message == issue.message && i.source == issue.source).count()
        };
        assert!(count(&off.issues) <= count(&on.issues));
    }
}
