use rustelier::labels::{file_status_label, shorten_path};
use rustelier::rail::{
    already_open_status, close_workspace, is_next_workspace_chord, move_workspace, next_workspace,
    open_root, selects_workspace, RootOpen, GRAVE_KEY_CODE,
};

#[test]
fn status_labels() {
    assert_eq!(file_status_label("/a/README.MD", "Rust"), "Markdown");
    assert_eq!(file_status_label("notes.txt", "text"), "Plain Text");
    assert_eq!(file_status_label("data.json", "Text"), "JSON");
    assert_eq!(file_status_label("main.rs", "Rust"), "Rust");
    assert_eq!(file_status_label("Makefile", "text"), "text");
}

#[test]
fn repository_paths_are_shortened() {
    assert_eq!(shorten_path("/Users/me/code/app", "/Users/me"), "~/code/app");
    assert_eq!(shorten_path("/Users/me/a/b/c/d", "/Users/me"), ".../b/c/d");
    assert_eq!(shorten_path("/opt/x/y", ""), "/opt/x/y");
    assert_eq!(shorten_path("/opt/a/b/c/d", "/Users/me"), ".../b/c/d");
    assert_eq!(shorten_path("/Users/me", "/Users/me"), "~");
}

fn roots(names: &[&str]) -> Vec<String> {
    names.iter().map(|n| n.to_string()).collect()
}

#[test]
fn moving_a_workspace_keeps_the_active_one_active() {
    let mut rail = roots(&["/a", "/b", "/c"]);
    let active = move_workspace(&mut rail, 1, 0, 2);
    assert_eq!(rail, roots(&["/b", "/c", "/a"]));
    assert_eq!(active, 0);
    let active = move_workspace(&mut rail, active, 2, 9);
    assert_eq!(rail, roots(&["/b", "/c", "/a"]));
    assert_eq!(active, 0);
    let active = move_workspace(&mut rail, 0, 0, 0);
    assert_eq!(active, 0);
    let active = move_workspace(&mut rail, 0, 5, 1);
    assert_eq!(active, 0);
}

#[test]
fn closing_a_workspace_moves_the_active_index() {
    let mut rail = roots(&["/a", "/b", "/c"]);
    assert_eq!(close_workspace(&mut rail, 2, 0), 1);
    assert_eq!(rail, roots(&["/b", "/c"]));
    assert_eq!(close_workspace(&mut rail, 1, 1), 0);
    assert_eq!(rail, roots(&["/b"]));
    assert_eq!(close_workspace(&mut rail, 0, 0), 0);
    assert_eq!(rail, roots(&["/b"]));
}

#[test]
fn the_next_workspace_wraps() {
    assert_eq!(next_workspace(0, 3), 1);
    assert_eq!(next_workspace(2, 3), 0);
    assert_eq!(next_workspace(0, 1), 0);
}

#[test]
fn only_a_bare_cmd_grave_cycles_workspaces() {
    assert!(is_next_workspace_chord(GRAVE_KEY_CODE, true, false, false, false));
    assert!(!is_next_workspace_chord(GRAVE_KEY_CODE, true, true, false, false));
    assert!(!is_next_workspace_chord(GRAVE_KEY_CODE, false, false, false, false));
    assert!(!is_next_workspace_chord(12, true, false, false, false));
}

#[test]
fn a_folder_open_already_is_selected_not_added() {
    let mut roots = vec!["/p/a".to_string(), "/p/b".to_string()];
    assert_eq!(open_root(&mut roots, "/p/b/"), RootOpen::AlreadyOpen(1));
    assert_eq!(open_root(&mut roots, "/p/c"), RootOpen::Added(2));
    assert_eq!(roots.len(), 3);
    assert_eq!(already_open_status("/p/b"), "/p/b is already open");
    assert!(selects_workspace(1, 3, 0));
    assert!(!selects_workspace(0, 3, 0));
    assert!(!selects_workspace(3, 3, 0));
}

#[test]
fn a_move_reorders_the_roots_and_the_active_one_follows() {
    let mut roots: Vec<String> = ["/a", "/b", "/c", "/d"].iter().map(|s| s.to_string()).collect();
    let active = move_workspace(&mut roots, 2, 0, 9);
    assert_eq!(roots, vec!["/b", "/c", "/d", "/a"]);
    assert_eq!(roots[active], "/c");
    let active = move_workspace(&mut roots, active, 3, 1);
    assert_eq!(roots, vec!["/b", "/a", "/c", "/d"]);
    assert_eq!(roots[active], "/c");
    let mut sorted = roots.clone();
    sorted.sort();
    assert_eq!(sorted, vec!["/a", "/b", "/c", "/d"]);
}
