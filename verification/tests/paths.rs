use plumb_workspace::paths::{
    display_workspace_path, extension_of, is_image_path, normalize, relative_path, resolve_relative,
};
use plumb_workspace::root::{discover_workspace_root, resolve_workspace_root_from, workspace_root_candidates};

#[test]
fn normalize_drops_current_and_folds_parent_components() {
    assert_eq!(normalize("/a/./b/../c"), "/a/c");
    assert_eq!(normalize("a/../../b"), "../b");
    assert_eq!(normalize("notes//x.plumb"), "notes/x.plumb");
    assert_eq!(normalize("/../a"), "/../a");
    assert_eq!(normalize(""), "");
}

#[test]
fn normalize_is_idempotent_on_examples() {
    for path in ["/ws/a/../b/./c.plumb", "x/y/../../z", "./a/b", "/"] {
        let once = normalize(path);
        assert_eq!(normalize(&once), once);
    }
}

#[test]
fn resolve_relative_joins_to_the_documents_directory() {
    assert_eq!(resolve_relative("/ws/notes/a.plumb", "../b.plumb"), "/ws/b.plumb");
    assert_eq!(resolve_relative("/ws/notes/a.plumb", "c/d.plumb"), "/ws/notes/c/d.plumb");
    assert_eq!(resolve_relative("/ws/a.plumb", "/x/./y"), "/x/y");
}

#[test]
fn relative_path_climbs_to_the_shared_directory() {
    assert_eq!(relative_path("/ws/notes/a.plumb", "/ws/b.plumb").as_deref(), Some("../b.plumb"));
    assert_eq!(relative_path("/ws/a.plumb", "/ws/sub/c.plumb").as_deref(), Some("sub/c.plumb"));
    assert_eq!(relative_path("/ws/a/x.plumb", "/ws/a/y.plumb").as_deref(), Some("y.plumb"));
}

#[test]
fn relative_then_resolve_comes_back_on_examples() {
    let from = "/ws/notes/daily/a.plumb";
    for target in ["/ws/b.plumb", "/ws/notes/daily/c.plumb", "/ws/other/d/e.plumb"] {
        let relative = relative_path(from, target).unwrap();
        assert_eq!(resolve_relative(from, &relative), target);
    }
}

#[test]
fn extensions_and_image_paths() {
    assert_eq!(extension_of("a/b.PNG"), Some(vec!['P', 'N', 'G']));
    assert_eq!(extension_of("a/b"), None);
    assert!(is_image_path("photo.JPG"));
    assert!(is_image_path("dir/pic.webp"));
    assert!(!is_image_path("doc.plumb"));
    assert!(!is_image_path("png"));
}

#[test]
fn workspace_paths_are_shown_relative_to_the_root() {
    assert_eq!(display_workspace_path("/ws", "/ws/a/b.plumb"), "a/b.plumb");
    assert_eq!(display_workspace_path("/ws", "/other/x.plumb"), "/other/x.plumb");
}

#[test]
fn root_candidates_start_at_the_files_directory() {
    assert_eq!(workspace_root_candidates("/ws/sub/file.plumb", true), vec!["/ws/sub", "/ws", "/"]);
    assert_eq!(workspace_root_candidates("/ws/sub", false), vec!["/ws/sub", "/ws", "/"]);
    assert_eq!(workspace_root_candidates("a/b", false), vec!["a/b", "a", ""]);
}

#[test]
fn discovery_takes_the_nearest_marked_directory() {
    assert_eq!(discover_workspace_root("/ws/sub/file.plumb", true, &vec![false, true, true]), "/ws");
    assert_eq!(discover_workspace_root("/ws/sub/file.plumb", true, &vec![false, false, false]), "/ws/sub");
    assert_eq!(discover_workspace_root("/ws/./sub", false, &vec![]), "/ws/sub");
}

#[test]
fn explicit_roots_are_joined_and_normalized() {
    assert_eq!(resolve_workspace_root_from(Some("rel/./x"), "/cur", false, &vec![]), "/cur/rel/x");
    assert_eq!(resolve_workspace_root_from(Some("/abs/../y"), "/cur", false, &vec![]), "/y");
    assert_eq!(resolve_workspace_root_from(None, "/cur/dir", false, &vec![false, false, true]), "/");
}

#[test]
fn normalising_twice_is_normalising_once() {
    for p in ["/ws/./a/../b", "../..", "..", "/..", "a/../../b", "./x/./y/", "/", "", "a/b/c"] {
        let once = normalize(p);
        assert_eq!(normalize(&once), once, "{p}");
    }
    assert_eq!(normalize("../.."), "");
    assert_eq!(normalize("/.."), "/..");
    assert_eq!(normalize("a/b/c"), "a/b/c");
}

#[test]
fn normalising_keeps_absoluteness_and_plain_paths() {
    assert!(normalize("/a/../..").starts_with('/'));
    assert_eq!(normalize("/a/../.."), "/..");
    assert!(!normalize("a/../..").starts_with('/'));
    assert_eq!(normalize("a/../.."), "..");
    assert_eq!(normalize("x/./y/../z"), "x/z");
    assert_eq!(normalize("a//b/"), "a/b");
    assert_eq!(normalize("/ws/notes/a.plumb"), "/ws/notes/a.plumb");
}
