use plumb_workspace::agenda::{
    agenda_timeline, agenda_window, check_event_categories, issue, location, place_event, placement_issue, AgendaLocation,
    EventCategoryFacts, EventPlacement, RangeKey,
};

#[test]
fn range_keys_and_locations_keep_the_span() {
    assert_eq!(RangeKey::from(3..7), RangeKey { start: 3, end: 7 });
    let loc = location("notes/a.plumb", 1..4);
    assert_eq!(loc, AgendaLocation { path: "notes/a.plumb".to_string(), range: RangeKey { start: 1, end: 4 } });
    let found = issue("agenda.invalid-item", "bad".to_string(), loc.clone());
    assert_eq!(found.code, "agenda.invalid-item");
    assert_eq!(found.message, "bad");
    assert_eq!(found.source, loc);
}

#[test]
fn events_are_placed_in_the_window() {
    assert_eq!(place_event(Some(5), None, None, 0, 10), EventPlacement::Point);
    assert_eq!(place_event(Some(10), None, None, 0, 10), EventPlacement::Outside);
    assert_eq!(place_event(None, Some(1), None, 0, 10), EventPlacement::NoInterval);
    assert_eq!(place_event(None, Some(5), Some(5), 0, 10), EventPlacement::EndNotAfterStart);
    assert_eq!(place_event(None, Some(-5), Some(3), 0, 10), EventPlacement::Clipped { start: 0, end: 3 });
    assert_eq!(place_event(None, Some(8), Some(20), 0, 10), EventPlacement::Clipped { start: 8, end: 10 });
    assert_eq!(place_event(None, Some(10), Some(12), 0, 10), EventPlacement::Outside);
    assert_eq!(place_event(None, Some(-3), Some(0), 0, 10), EventPlacement::Outside);
}

#[test]
fn invalid_times_raise_issues() {
    let loc = location("a.plumb", 0..2);
    let found = placement_issue(EventPlacement::NoInterval, loc.clone()).unwrap();
    assert_eq!(found.code, "agenda.invalid-time");
    assert_eq!(found.message, "event has no valid finite interval");
    let found = placement_issue(EventPlacement::EndNotAfterStart, loc.clone()).unwrap();
    assert_eq!(found.message, "event end must follow start");
    assert!(placement_issue(EventPlacement::Point, loc.clone()).is_none());
    assert!(placement_issue(EventPlacement::Clipped { start: 0, end: 1 }, loc).is_none());
}

#[test]
fn timeline_finds_gaps_overlaps_and_covered_time() {
    let timeline = agenda_timeline(0, 100, &vec![(10, 30), (20, 40), (60, 70)]);
    let gaps: Vec<(i64, i64)> = timeline.gaps.iter().map(|s| (s.start, s.end)).collect();
    assert_eq!(gaps, vec![(0, 10), (40, 60), (70, 100)]);
    assert!(timeline.gaps.iter().all(|s| s.events.is_empty()));
    assert_eq!(timeline.overlaps.len(), 1);
    assert_eq!((timeline.overlaps[0].start, timeline.overlaps[0].end), (20, 30));
    assert_eq!(timeline.overlaps[0].events, vec![0, 1]);
    assert_eq!(timeline.covered, 40);
    assert_eq!(timeline.accumulated, 50);
}

#[test]
fn gaps_and_covered_time_fill_the_window() {
    let windows: Vec<(i64, i64, Vec<(i64, i64)>)> = vec![
        (0, 100, vec![]),
        (0, 100, vec![(0, 100)]),
        (-50, 50, vec![(-50, -10), (-20, 5), (30, 50)]),
        (5, 9, vec![(5, 6), (5, 6), (8, 9)]),
    ];
    for (from, to, intervals) in windows {
        let timeline = agenda_timeline(from, to, &intervals);
        let gap_total: i64 = timeline.gaps.iter().map(|s| s.end - s.start).sum();
        assert_eq!(gap_total + timeline.covered as i64, to - from);
    }
}

#[test]
fn an_empty_window_part_is_one_gap() {
    let timeline = agenda_timeline(0, 100, &vec![]);
    assert_eq!(timeline.gaps.len(), 1);
    assert_eq!((timeline.gaps[0].start, timeline.gaps[0].end), (0, 100));
    assert_eq!(timeline.covered, 0);
    assert!(timeline.overlaps.is_empty());
}

fn facts(name: &str, empty: bool, invalid: bool, uncategorized: bool) -> EventCategoryFacts {
    EventCategoryFacts {
        source: location(name, 0..1),
        declared_empty: empty,
        declared_invalid: invalid,
        share_uncategorized: uncategorized,
        accounting_issues: vec![issue("agenda.invalid-item", format!("item of {name}"), location(name, 2..3))],
    }
}

#[test]
fn explicit_category_checks_read_the_event_declaration() {
    let events = vec![facts("a", false, false, true), facts("b", true, false, false), facts("c", false, true, false)];
    let report = check_event_categories(true, true, &events);
    assert_eq!(report.checked, 3);
    let missing: Vec<&str> = report.missing.iter().map(|l| l.path.as_str()).collect();
    assert_eq!(missing, vec!["b", "c"]);
    assert_eq!(report.issues.len(), 1);
    assert_eq!(report.issues[0].code, "agenda.invalid-category");
    assert_eq!(report.issues[0].message, "invalid event category");
    assert_eq!(report.issues[0].source.path, "c");
    assert!(!report.complete);
}

#[test]
fn inherited_category_checks_read_the_accounting_shares() {
    let events = vec![facts("a", false, false, true), facts("b", true, true, false)];
    let report = check_event_categories(true, false, &events);
    let missing: Vec<&str> = report.missing.iter().map(|l| l.path.as_str()).collect();
    assert_eq!(missing, vec!["a"]);
    let messages: Vec<&str> = report.issues.iter().map(|i| i.message.as_str()).collect();
    assert_eq!(messages, vec!["item of a", "item of b"]);
    assert!(!report.complete);
}

#[test]
fn a_clean_check_is_complete_only_when_the_selection_was() {
    let mut clean = facts("a", false, false, false);
    clean.accounting_issues.clear();
    assert!(check_event_categories(true, true, &vec![clean.clone()]).complete);
    assert!(!check_event_categories(false, true, &vec![clean]).complete);
}

#[test]
fn agenda_window_refuses_a_window_that_does_not_advance() {
    let refused = agenda_window(10, 10, &vec![]).unwrap_err();
    assert_eq!(refused, "--to must be later than --from");
    assert_eq!(agenda_window(20, 10, &vec![(Some(15), None, None)]).unwrap_err(), "--to must be later than --from");
}

#[test]
fn agenda_window_places_events_and_covers_the_clipped_intervals() {
    let events = vec![
        (None, Some(-5), Some(20)),
        (Some(50), None, None),
        (None, Some(10), Some(30)),
        (None, Some(30), Some(30)),
        (None, None, None),
        (None, Some(200), Some(300)),
    ];
    let window = agenda_window(0, 100, &events).unwrap();
    assert_eq!(
        window.placements,
        vec![
            EventPlacement::Clipped { start: 0, end: 20 },
            EventPlacement::Point,
            EventPlacement::Clipped { start: 10, end: 30 },
            EventPlacement::EndNotAfterStart,
            EventPlacement::NoInterval,
            EventPlacement::Outside,
        ]
    );
    assert_eq!(window.points, vec![1]);
    assert_eq!(window.allocated, vec![0, 2]);
    let gaps: Vec<(i64, i64)> = window.timeline.gaps.iter().map(|s| (s.start, s.end)).collect();
    assert_eq!(gaps, vec![(30, 100)]);
    assert_eq!(window.timeline.overlaps.len(), 1);
    assert_eq!((window.timeline.overlaps[0].start, window.timeline.overlaps[0].end), (10, 20));
    assert_eq!(window.timeline.covered, 30);
    assert_eq!(window.timeline.accumulated, 40);
}
