use plumb_workspace::completion::{
    anchor_target, complete_event_title, complete_link, link_documents, LinkCompletionContext, EVENT_TITLE_COMPLETION_LIMIT,
};

fn documents() -> Vec<(String, String)> {
    vec![
        ("/ws/notes/a.plumb".to_string(), "Self".to_string()),
        ("/ws/b.plumb".to_string(), "Beta [x]".to_string()),
        ("/ws/c.plumb".to_string(), String::new()),
    ]
}

#[test]
fn labelled_links_are_offered_by_title_and_sorted() {
    let context = LinkCompletionContext::Label { replace: 0..3, query: "b".to_string() };
    let candidates = complete_link("/ws/notes/./a.plumb", &context, &documents(), &vec![]);
    let labels: Vec<&str> = candidates.iter().map(|c| c.label.as_str()).collect();
    assert_eq!(labels, vec!["../c.plumb", "Beta [x]"]);
    assert_eq!(candidates[1].detail, "../b.plumb");
    assert_eq!(candidates[1].new_text, "`->[Beta `[x`]|../b.plumb]");
    assert_eq!(candidates[1].replace, 0..3);
    assert_eq!(candidates[0].new_text, "`->[../c.plumb|../c.plumb]");
}

#[test]
fn bare_paths_need_a_bare_value() {
    let bare = LinkCompletionContext::Path { replace: 4..5, query: String::new(), parsed: false };
    assert!(complete_link("/ws/notes/a.plumb", &bare, &documents(), &vec![]).is_empty());
    let parsed = LinkCompletionContext::Path { replace: 4..5, query: "beta".to_string(), parsed: true };
    let candidates = complete_link("/ws/notes/a.plumb", &parsed, &documents(), &vec![]);
    assert_eq!(candidates.len(), 1);
    assert_eq!(candidates[0].label, "../b.plumb");
    assert_eq!(candidates[0].detail, "Beta [x]");
    assert_eq!(candidates[0].new_text, "../b.plumb");
}

#[test]
fn autolink_paths_fall_back_to_a_verbatim_envelope() {
    let docs = vec![("/ws/b.plumb".to_string(), String::new()), ("/ws/b]c.plumb".to_string(), String::new())];
    let context = LinkCompletionContext::AutolinkPath {
        replace: 2..4,
        envelope: 0..10,
        quote_count: 0,
        suffix: "#x".to_string(),
        query: String::new(),
    };
    let candidates = complete_link("/ws/notes/a.plumb", &context, &docs, &vec![]);
    assert_eq!(candidates.len(), 2);
    assert_eq!(candidates[0].label, "../b.plumb");
    assert_eq!(candidates[0].new_text, "../b.plumb");
    assert_eq!(candidates[0].replace, 2..4);
    assert_eq!(candidates[1].label, "../b]c.plumb");
    assert_eq!(candidates[1].new_text, "`\"[../b]c.plumb#x]\"");
    assert_eq!(candidates[1].replace, 0..10);
}

#[test]
fn anchors_come_from_the_target_document() {
    let ids = vec!["intro".to_string(), "Install".to_string(), "other".to_string()];
    let context = LinkCompletionContext::Anchor { path: String::new(), replace: 7..9, query: "in".to_string() };
    let candidates = complete_link("/ws/notes/a.plumb", &context, &documents(), &ids);
    let labels: Vec<&str> = candidates.iter().map(|c| c.label.as_str()).collect();
    assert_eq!(labels, vec!["#Install", "#intro"]);
    assert_eq!(candidates[0].detail, "explicit anchor in /ws/notes/a.plumb");
    assert_eq!(candidates[0].new_text, "Install");
    assert_eq!(anchor_target("/ws/notes/a.plumb", "../b.plumb"), "/ws/b.plumb");
    assert_eq!(anchor_target("/ws/notes/a.plumb", ""), "/ws/notes/a.plumb");
}

#[test]
fn event_titles_merge_open_and_stored_counts() {
    let open = vec![
        "Standup".to_string(),
        "Standup".to_string(),
        "Lunch".to_string(),
        "Sta".to_string(),
        String::new(),
    ];
    let stored = vec![("Standup".to_string(), 3), ("Stats".to_string(), 1), ("Sta".to_string(), 9)];
    let candidates = complete_event_title("Sta", &(4..7), &open, &stored);
    let shown: Vec<(&str, &str)> = candidates.iter().map(|c| (c.label.as_str(), c.detail.as_str())).collect();
    assert_eq!(shown, vec![("Standup", "event title, 5 uses"), ("Stats", "event title, 1 uses")]);
    assert_eq!(candidates[0].new_text, "Standup");
    assert_eq!(candidates[0].replace, 4..7);
}

#[test]
fn event_titles_tie_by_title_and_empty_query_offers_all() {
    let open = vec!["beta".to_string(), "alpha".to_string(), "beta".to_string(), "gamma".to_string()];
    let stored = vec![("alpha".to_string(), 1)];
    let candidates = complete_event_title("", &(0..0), &open, &stored);
    let labels: Vec<&str> = candidates.iter().map(|c| c.label.as_str()).collect();
    assert_eq!(labels, vec!["alpha", "beta", "gamma"]);
    assert_eq!(candidates[2].detail, "event title, 1 uses");
}

#[test]
fn event_titles_are_capped() {
    let open: Vec<String> = (0..60).map(|n| format!("t{n:02}")).collect();
    let candidates = complete_event_title("t", &(0..1), &open, &vec![]);
    assert_eq!(candidates.len(), EVENT_TITLE_COMPLETION_LIMIT);
    assert_eq!(candidates[0].label, "t00");
    assert_eq!(candidates[49].label, "t49");
}

#[test]
fn link_completion_never_offers_the_document_itself() {
    for context in [
        LinkCompletionContext::Label { replace: 0..0, query: String::new() },
        LinkCompletionContext::Path { replace: 0..0, query: String::new(), parsed: true },
    ] {
        let candidates = complete_link("/ws/notes/a.plumb", &context, &documents(), &vec![]);
        assert_eq!(candidates.len(), 2);
        assert!(candidates.iter().all(|c| c.detail != "a.plumb" && c.label != "a.plumb" && c.label != "Self"));
        assert!(candidates.windows(2).all(|w| w[0].label <= w[1].label));
    }
}

#[test]
fn open_documents_shadow_their_stored_copies() {
    let open = vec![("/ws/a.plumb".to_string(), "Open A".to_string())];
    let open_paths = vec!["/ws/a.plumb".to_string(), "/ws/broken.plumb".to_string()];
    let stored = vec![
        ("/ws/a.plumb".to_string(), "Stored A".to_string()),
        ("/ws/b.plumb".to_string(), "Stored B".to_string()),
        ("/ws/broken.plumb".to_string(), "Stale".to_string()),
    ];
    let documents = link_documents(&open, &open_paths, &stored);
    assert_eq!(
        documents,
        vec![("/ws/a.plumb".to_string(), "Open A".to_string()), ("/ws/b.plumb".to_string(), "Stored B".to_string())]
    );
    let context = LinkCompletionContext::Label { replace: 0..0, query: String::new() };
    let labels: Vec<String> = complete_link("/ws/c.plumb", &context, &documents, &vec![]).into_iter().map(|c| c.label).collect();
    assert_eq!(labels, vec!["Open A", "Stored B"]);
}
