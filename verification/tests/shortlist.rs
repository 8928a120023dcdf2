use plumb_workspace::cursor::TaskPageQueryError;
use plumb_workspace::shortlist::{
    encode_next_cursor, next_cursor_signature, query_next, order_key_of, parse_i64, ShortlistFact,
    NEXT_FOCUSED_PAGE,
};
use plumb_workspace::workflow::{TaskClosure, TaskWaitReason, TaskWorkflowState};
use sha2::Digest;

fn fact(path: &str, start: usize) -> ShortlistFact {
    ShortlistFact {
        closure: TaskClosure::Open,
        wait_millis: None,
        priority: None,
        parent: None,
        open_dependencies: vec![],
        focus_valid: true,
        focused: false,
        focused_since_millis: None,
        path: path.to_string(),
        start,
    }
}

fn chars(s: &str) -> Vec<char> {
    s.chars().collect()
}

#[test]
fn shortlist_sections_states_and_priorities() {
    let mut ready_low = fact("/ws/a.plumb", 10);
    ready_low.priority = Some(1);
    let mut focused_blocked = fact("/ws/a.plumb", 20);
    focused_blocked.priority = Some(5);
    focused_blocked.open_dependencies = vec![2];
    focused_blocked.focused = true;
    focused_blocked.focused_since_millis = Some(100);
    let dependency = fact("/ws/b.plumb", 0);
    let mut done = fact("/ws/c.plumb", 0);
    done.closure = TaskClosure::Done;
    let mut invalid = fact("/ws/d.plumb", 0);
    invalid.focus_valid = false;
    let mut waiting = fact("/ws/e.plumb", 0);
    waiting.wait_millis = Some(2000);
    waiting.priority = Some(9);
    let facts = vec![ready_low, focused_blocked, dependency, done, invalid, waiting];
    let shortlist = query_next(&facts, "/ws", 0, &None, 7, 1000).unwrap();
    assert_eq!(
        shortlist.states,
        vec![
            TaskWorkflowState::Ready,
            TaskWorkflowState::Blocked,
            TaskWorkflowState::Ready,
            TaskWorkflowState::Done,
            TaskWorkflowState::Ready,
            TaskWorkflowState::Waiting,
        ]
    );
    assert_eq!(shortlist.wait_reasons[1], vec![TaskWaitReason::Dependency]);
    assert_eq!(shortlist.wait_reasons[5], vec![TaskWaitReason::Time]);
    assert_eq!(shortlist.effective_priorities, vec![1, 5, 5, 0, 0, 9]);
    assert_eq!(shortlist.focused, vec![1]);
    assert_eq!(shortlist.focused_total, 1);
    assert!(shortlist.focused_complete);
    assert_eq!(shortlist.focused_next_cursor, None);
    assert_eq!(shortlist.candidate_limit, 1);
    assert_eq!(shortlist.candidates, vec![2]);
    assert!(!shortlist.candidates_complete);
    assert_eq!(shortlist.skipped_invalid, vec![4]);
}

#[test]
fn shortlist_candidates_by_priority_then_path_then_start() {
    let mut a = fact("/ws/b.plumb", 5);
    a.priority = Some(2);
    let mut b = fact("/ws/a.plumb", 9);
    b.priority = Some(2);
    let mut c = fact("/ws/a.plumb", 1);
    c.priority = Some(2);
    let mut d = fact("/ws/z.plumb", 0);
    d.priority = Some(3);
    let mut child = fact("/ws/q.plumb", 4);
    child.priority = Some(8);
    child.parent = Some(5);
    child.closure = TaskClosure::Canceled;
    let parent = fact("/ws/q.plumb", 0);
    let facts = vec![a, b, c, d, child, parent];
    let shortlist = query_next(&facts, "/ws", 99, &None, 1, 0).unwrap();
    assert_eq!(shortlist.candidate_limit, 10);
    assert_eq!(shortlist.candidates, vec![5, 3, 2, 1, 0]);
    assert!(shortlist.candidates_complete);
    assert_eq!(shortlist.effective_priorities[5], 8);
}

#[test]
fn shortlist_in_flight_order_and_paging_by_cursor() {
    let mut facts = Vec::new();
    for n in 0..52 {
        let mut f = fact("/p", n);
        f.focused = true;
        f.focused_since_millis = Some(100 - n as i64);
        facts.push(f);
    }
    let mut unknown_start = fact("/p", 999);
    unknown_start.focused = true;
    facts.push(unknown_start);
    let first = query_next(&facts, "/root", 3, &None, 7, 0).unwrap();
    assert_eq!(first.focused_total, 53);
    assert_eq!(first.focused.len(), NEXT_FOCUSED_PAGE);
    assert_eq!(first.focused[0], 52);
    assert_eq!(first.focused[1], 51);
    assert!(!first.focused_complete);
    let cursor = first.focused_next_cursor.clone().unwrap();
    let signature = next_cursor_signature("/root");
    let sig_hex: String = signature.iter().map(|b| format!("{b:02x}")).collect();
    assert_eq!(cursor, format!("v1:7:{sig_hex}:97:2f70:3"));
    let second = query_next(&facts, "/root", 3, &Some(cursor), 7, 0).unwrap();
    assert_eq!(second.focused, vec![2, 1, 0]);
    assert!(second.focused_complete);
    assert_eq!(second.focused_next_cursor, None);
    assert_eq!(second.focused_total, 53);
}

#[test]
fn shortlist_cursor_errors() {
    let mut f = fact("/p", 3);
    f.focused = true;
    f.focused_since_millis = Some(-5);
    let facts = vec![f];
    let good = encode_next_cursor(7, "/root", Some(-5), "/p", 3);
    assert!(good.contains(":-5:2f70:3"));
    let ok = query_next(&facts, "/root", 1, &Some(good.clone()), 7, 0).unwrap();
    assert!(ok.focused.is_empty());
    let cases = [
        ("v1:7:x".to_string(), "next cursor is malformed"),
        (format!("{good}:extra"), "next cursor is malformed"),
        (good.replacen("v1:7:", "v1:8:", 1), "next cursor is stale or does not match this query"),
        (good.replacen(":-5:", ":five:", 1), "next cursor is stale or does not match this query"),
        (encode_next_cursor(7, "/other", Some(-5), "/p", 3), "next cursor is stale or does not match this query"),
        (encode_next_cursor(7, "/root", Some(-5), "/p", 4), "next cursor no longer identifies a result task"),
        (encode_next_cursor(7, "/root", None, "/p", 3), "next cursor no longer identifies a result task"),
    ];
    for (cursor, message) in cases {
        match query_next(&facts, "/root", 1, &Some(cursor), 7, 0) {
            Err(TaskPageQueryError::Cursor(m)) => assert_eq!(m, message),
            other => panic!("unexpected {other:?}"),
        }
    }
}

#[test]
fn shortlist_signature_and_path_key() {
    let mut message = b"plumb-next-shortlist-v1".to_vec();
    message.extend_from_slice(&(5u64).to_le_bytes());
    message.extend_from_slice(b"/root");
    let expected = sha2::Sha256::digest(&message).to_vec();
    assert_eq!(next_cursor_signature("/root"), expected);
    assert_eq!(order_key_of("/p"), "2f70");
    assert_eq!(order_key_of("é"), "c3a9");
}

#[test]
fn shortlist_parses_signed_values() {
    assert_eq!(parse_i64(&chars("+5")), Some(5));
    assert_eq!(parse_i64(&chars("-0")), Some(0));
    assert_eq!(parse_i64(&chars("-9223372036854775808")), Some(i64::MIN));
    assert_eq!(parse_i64(&chars("9223372036854775807")), Some(i64::MAX));
    assert_eq!(parse_i64(&chars("9223372036854775808")), None);
    assert_eq!(parse_i64(&chars("-")), None);
    assert_eq!(parse_i64(&chars("")), None);
    assert_eq!(parse_i64(&chars("-+1")), None);
    assert_eq!(parse_i64(&chars("1a")), None);
}

const NOW: i64 = 1_787_918_400_000;
const SEPTEMBER_FIRST_NINE: i64 = 1_788_253_200_000;
const DAY: i64 = 86_400_000;

fn focused_at(path: &str, start: usize, day: i64) -> ShortlistFact {
    let mut f = fact(path, start);
    f.focused = true;
    f.focused_since_millis = Some(SEPTEMBER_FIRST_NINE + (day - 1) * DAY);
    f
}

/// The shortlist fixture: three tasks in flight (one waiting), a finished
/// focus history, two ready tasks and one with invalid focus data.
fn shortlist_facts() -> Vec<ShortlistFact> {
    let newest = focused_at("focus.plumb", 0, 20);
    let mut waiting = focused_at("focus.plumb", 100, 19);
    waiting.wait_millis = Some(4_070_908_800_000);
    let oldest = focused_at("focus.plumb", 200, 18);
    let mut finished = fact("focus.plumb", 300);
    finished.priority = Some(5);
    let mut low = fact("focus.plumb", 400);
    low.priority = Some(1);
    let mut high = fact("focus.plumb", 500);
    high.priority = Some(9);
    let mut invalid = fact("focus.plumb", 600);
    invalid.focus_valid = false;
    vec![newest, waiting, oldest, finished, low, high, invalid]
}

#[test]
fn next_splits_in_flight_from_candidates_without_touching_state() {
    let result = query_next(&shortlist_facts(), "", 3, &None, 11, NOW).unwrap();
    assert_eq!(result.focused, vec![2, 1, 0]);
    assert_eq!(result.focused_total, 3);
    assert!(result.focused_complete);
    assert!(result.focused_next_cursor.is_none());
    assert_eq!(result.candidate_limit, 3);
    assert!(result.candidates_complete);
    assert_eq!(result.candidates, vec![5, 3, 4]);
    assert_eq!(result.states[1], TaskWorkflowState::Waiting);
    assert_eq!(result.skipped_invalid, vec![6]);
    assert!(!result.candidates.contains(&6) && !result.focused.contains(&6));
}

#[test]
fn next_candidate_limit_is_strict_and_independent_of_in_flight() {
    let result = query_next(&shortlist_facts(), "", 1, &None, 11, NOW).unwrap();
    assert_eq!(result.candidates, vec![5]);
    assert!(!result.candidates_complete);
    assert_eq!(result.focused.len(), 3);
    assert_eq!(result.focused_total, 3);
}

#[test]
fn next_propagates_priority_from_focused_subtasks_before_filtering() {
    let parent = fact("focus.plumb", 0);
    let mut child = focused_at("focus.plumb", 50, 20);
    child.parent = Some(0);
    child.priority = Some(50);
    let mut other = fact("focus.plumb", 200);
    other.priority = Some(9);
    let result = query_next(&vec![parent, child, other], "", 3, &None, 11, NOW).unwrap();
    assert_eq!(result.focused, vec![1]);
    assert_eq!(result.candidates, vec![0, 2]);
    assert_eq!(result.effective_priorities[0], 50);
}

#[test]
fn next_in_flight_section_pages_with_an_opaque_cursor() {
    let facts: Vec<ShortlistFact> = (0..NEXT_FOCUSED_PAGE + 1)
        .map(|index| focused_at("many.plumb", 20 + index * 80, (index % 28 + 1) as i64))
        .collect();
    let first = query_next(&facts, "", 3, &None, 11, NOW).unwrap();
    assert_eq!(first.focused_total, NEXT_FOCUSED_PAGE + 1);
    assert_eq!(first.focused.len(), NEXT_FOCUSED_PAGE);
    assert!(!first.focused_complete);
    let cursor = first.focused_next_cursor.clone().expect("continuation cursor");

    let second = query_next(&facts, "", 3, &Some(cursor.clone()), 11, NOW).unwrap();
    assert_eq!(second.focused.len(), 1);
    assert_eq!(second.focused_total, NEXT_FOCUSED_PAGE + 1);
    assert!(second.focused_complete);
    assert!(second.focused_next_cursor.is_none());

    assert!(matches!(query_next(&facts, "", 3, &Some(cursor), 12, NOW), Err(TaskPageQueryError::Cursor(_))));
}
