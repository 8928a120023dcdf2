use plumb_workspace::event_pages::{events_page, stored_event_limit};
use plumb_workspace::query::WorkspaceEventCursor;

fn event(sort_millis: Option<i64>, path: &str, start: usize) -> WorkspaceEventCursor {
    WorkspaceEventCursor { sort_millis, path: path.to_string(), start }
}

fn open() -> Vec<WorkspaceEventCursor> {
    vec![
        event(Some(200), "/ws/b.plumb", 0),
        event(None, "/ws/a.plumb", 3),
        event(Some(100), "/ws/a.plumb", 9),
        event(Some(100), "/ws/a.plumb", 2),
    ]
}

fn stored() -> Vec<WorkspaceEventCursor> {
    vec![event(Some(150), "/ws/c.plumb", 0)]
}

#[test]
fn event_pages_order_timed_events_first_then_by_path_and_start() {
    let page = events_page(&open(), &stored(), &None, true, 10);
    assert_eq!(
        page,
        vec![
            event(Some(100), "/ws/a.plumb", 2),
            event(Some(100), "/ws/a.plumb", 9),
            event(Some(150), "/ws/c.plumb", 0),
            event(Some(200), "/ws/b.plumb", 0),
            event(None, "/ws/a.plumb", 3),
        ]
    );
}

#[test]
fn event_pages_after_a_cursor_keep_the_first_events() {
    let cursor = Some(event(Some(100), "/ws/a.plumb", 9));
    let page = events_page(&open(), &stored(), &cursor, true, 2);
    assert_eq!(page, vec![event(Some(150), "/ws/c.plumb", 0), event(Some(200), "/ws/b.plumb", 0)]);
}

#[test]
fn event_pages_before_a_cursor_keep_the_last_events() {
    let cursor = Some(event(Some(200), "/ws/b.plumb", 0));
    let page = events_page(&open(), &stored(), &cursor, false, 2);
    assert_eq!(page, vec![event(Some(100), "/ws/a.plumb", 9), event(Some(150), "/ws/c.plumb", 0)]);
    let nested_paths = events_page(
        &vec![event(Some(1), "/ws/a/z.plumb", 0), event(Some(1), "/ws/a.plumb", 0)],
        &vec![],
        &None,
        false,
        5,
    );
    assert_eq!(nested_paths[0].path, "/ws/a/z.plumb");
}

#[test]
fn stored_event_limits_saturate() {
    assert_eq!(stored_event_limit(5, 3), 8);
    assert_eq!(stored_event_limit(usize::MAX, 3), usize::MAX);
}
