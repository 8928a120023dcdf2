use plumb_workspace::ids::{
    escape_parsed_text, format_inline_verbatim, slugify, unique_anchor_id, unique_id, unique_task_instance_id,
    valid_anchor_id, valid_autolink_completion_path, valid_bare_attribute_value, verbatim_payload_is_safe,
};

fn strings(items: &[&str]) -> Vec<String> {
    items.iter().map(|s| s.to_string()).collect()
}

#[test]
fn slugify_lowercases_and_joins_words_with_dashes() {
    assert_eq!(slugify("Hello, World!", "x"), "hello-world");
    assert_eq!(slugify("   ", "task"), "task");
    assert_eq!(slugify("A--B", "x"), "a--b");
    assert_eq!(slugify("Résumé 2024", "x"), "résumé-2024");
    assert_eq!(slugify("trailing -", "x"), "trailing");
}

#[test]
fn unique_id_appends_the_first_free_suffix() {
    assert_eq!(unique_id("a", &strings(&["a", "a-2"])), "a-3");
    assert_eq!(unique_id("b", &strings(&["a"])), "b");
    let reserved = strings(&["x", "x-2", "x-3"]);
    let id = unique_id("x", &reserved);
    assert!(!reserved.contains(&id));
}

#[test]
fn anchor_and_instance_ids_come_from_slugs() {
    assert_eq!(unique_anchor_id("My Block!", &vec![]), "my-block");
    assert_eq!(unique_anchor_id("", &strings(&["block"])), "block-2");
    assert_eq!(unique_task_instance_id("Pay rent", "2026-01-05T10:00:00Z", &vec![]), "pay-rent-2026-01-05");
    assert_eq!(unique_task_instance_id("Pay rent", "short", &vec![]), "pay-rent-instance");
}

#[test]
fn anchor_ids_and_bare_values_refuse_markup_characters() {
    assert!(valid_anchor_id("ok-id"));
    assert!(!valid_anchor_id("has space"));
    assert!(!valid_anchor_id("a.b"));
    assert!(!valid_anchor_id(""));
    assert!(valid_bare_attribute_value("notes/x"));
    assert!(!valid_bare_attribute_value("a.plumb"));
}

#[test]
fn autolink_paths_refuse_hashes_and_odd_whitespace() {
    assert!(valid_autolink_completion_path("a b/c.plumb"));
    assert!(!valid_autolink_completion_path("a#b"));
    assert!(!valid_autolink_completion_path("a\tb"));
    assert!(!valid_autolink_completion_path("a\\b"));
}

#[test]
fn escaping_marks_each_special_character() {
    assert_eq!(escape_parsed_text("a[b]|c`"), "a`[b`]`|c``");
    assert_eq!(escape_parsed_text("plain"), "plain");
}

#[test]
fn verbatim_spans_use_the_fewest_quotes() {
    assert!(!verbatim_payload_is_safe("x]\"y", 1));
    assert!(!verbatim_payload_is_safe("x]", 0));
    assert!(verbatim_payload_is_safe("xy", 0));
    assert_eq!(format_inline_verbatim("plain"), "`[plain]");
    assert_eq!(format_inline_verbatim("a]b"), "`\"[a]b]\"");
    assert_eq!(format_inline_verbatim("a]b]\"c"), "`\"\"[a]b]\"c]\"\"");
}
