use rustelier::session::{
    kept_tab_state, restored_active, restored_mode, restored_selection, SidebarTabState, TabClass,
};
use rustelier::file_index::indexed_file;
use rustelier::workspace::{
    initial_mode, inventory_admits_entry, is_html_path, is_image_path, is_video_path,
    toggled_mode, FileMode, InventoryState, ScanState, Visibility,
};

#[test]
fn media_paths_are_recognised_by_extension_in_any_case() {
    assert!(is_image_path("/a/photo.PNG"));
    assert!(is_image_path("icon.ico"));
    assert!(!is_image_path("notes.md"));
    assert!(is_video_path("clip.MOV"));
    assert!(!is_video_path("clip"));
    assert!(is_html_path("index.htm"));
    assert!(is_html_path("/site/INDEX.HTML"));
    assert!(!is_html_path(".html"));
}

#[test]
fn markdown_opens_rendered_and_toggles_only_with_a_preview() {
    assert_eq!(initial_mode("README.md"), FileMode::Preview);
    assert_eq!(initial_mode("notes.markdown"), FileMode::Preview);
    assert_eq!(initial_mode("main.rs"), FileMode::Source);
    assert_eq!(toggled_mode(FileMode::Source, true, "a.md"), FileMode::Preview);
    assert_eq!(toggled_mode(FileMode::Preview, true, "a.md"), FileMode::Source);
    assert_eq!(toggled_mode(FileMode::Source, false, "a.rs"), FileMode::Source);
    assert_eq!(toggled_mode(FileMode::Source, false, "page.html"), FileMode::Preview);
}

#[test]
fn a_rescan_asked_for_mid_walk_is_folded_into_the_next() {
    let mut scan = ScanState::default();
    assert_eq!(scan.request(false, false), None);
    assert_eq!(scan.request(true, false), Some((true, false)));
    assert_eq!(scan.request(false, true), None);
    assert_eq!(scan.request(true, false), None);
    assert!(scan.running);
    assert_eq!(scan.finish(), Some((true, true)));
    assert!(scan.running);
    assert_eq!(scan.finish(), None);
    assert!(!scan.running);
}

#[test]
fn a_superseded_inventory_is_refused() {
    let mut state = InventoryState::new();
    let first = state.take_request("/repo").expect("a request is owed");
    assert_eq!(first.root, "/repo");
    assert_eq!(first.generation, 1);
    assert_eq!(first.root(), "/repo");
    assert_eq!(first.generation(), 1);
    assert!(state.take_request("/repo").is_none());
    state.invalidate();
    assert!(first.is_cancelled());
    assert!(!state.accept(first.generation));
    let second = state.take_request("/repo").expect("a new request is owed");
    assert_eq!(second.generation, 3);
    assert!(!second.is_cancelled());
    assert!(state.accept(second.generation));
    assert_eq!(state.generation(), 3);
}

#[test]
fn inventory_skips_ignored_and_guarded_folders() {
    assert!(!inventory_admits_entry("node_modules", 3, false));
    assert!(!inventory_admits_entry("Desktop", 1, true));
    assert!(inventory_admits_entry("Desktop", 2, true));
    assert!(inventory_admits_entry("Desktop", 1, false));
    assert!(inventory_admits_entry("src", 1, true));
}

#[test]
fn sessions_keep_file_tabs_only() {
    let kept = kept_tab_state(TabClass::File(FileMode::Preview), "/r/a.md").unwrap();
    assert_eq!(kept.path, "/r/a.md");
    assert!(kept.preview);
    let image = kept_tab_state(TabClass::Image, "/r/a.png").unwrap();
    assert!(!image.preview);
    assert!(kept_tab_state(TabClass::Terminal, "").is_none());
    assert!(kept_tab_state(TabClass::Diff, "/r/a.rs").is_none());
    assert_eq!(SidebarTabState::default(), SidebarTabState::Explorer);
}

#[test]
fn a_restored_session_selects_the_saved_tab() {
    assert_eq!(restored_mode(true, true, "a.md"), FileMode::Preview);
    assert_eq!(restored_mode(true, false, "a.md"), FileMode::Source);
    assert_eq!(restored_mode(true, false, "a.html"), FileMode::Preview);
    assert_eq!(restored_mode(false, true, "a.md"), FileMode::Source);

    let paths = vec![None, Some("/r/a.rs".to_string()), Some("/r/b.rs".to_string())];
    let terminals = vec![true, false, false];
    assert_eq!(
        restored_selection(&paths, &terminals, &Some("/r/b.rs".to_string())),
        Some(2)
    );
    assert_eq!(
        restored_selection(&paths, &terminals, &Some("/r/gone.rs".to_string())),
        Some(0)
    );
    assert_eq!(restored_selection(&paths, &terminals, &None), Some(0));
    assert_eq!(restored_selection(&Vec::new(), &Vec::new(), &None), None);

    assert_eq!(restored_active(1, 3), 1);
    assert_eq!(restored_active(5, 3), 2);
}

#[test]
fn paths_outside_the_index_are_ignored_once_it_lands() {
    let mut v = Visibility::new();
    assert!(!v.is_ignored("/w/target/x"));
    let files = vec![indexed_file("/w", "/w/src/main.rs").unwrap()];
    v.set_index(&files);
    assert!(!v.is_ignored("/w/src/main.rs"));
    assert!(!v.is_ignored("/w/src/"));
    assert!(!v.is_ignored("/w"));
    assert!(!v.is_ignored("/"));
    assert!(v.is_ignored("/w/target"));
    assert!(v.is_ignored("/w/src/other.rs"));
    v.set_index(&Vec::new());
    assert!(v.is_ignored("/w/src/main.rs"));
}

#[test]
fn one_inventory_walk_at_a_time() {
    let mut state = InventoryState::new();
    let first = state.take_request("/repo").expect("owed");
    for _ in 0..3 {
        assert!(state.take_request("/repo").is_none());
        assert!(!state.accept(first.generation.wrapping_add(7)));
    }
    assert!(state.take_request("/repo").is_none());
    assert!(state.accept(first.generation));
    assert!(state.take_request("/repo").is_none());
    state.invalidate();
    assert!(state.take_request("/repo").is_some());
}
