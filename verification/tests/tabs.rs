use rustelier::session::FileTabState;
use rustelier::tabs::{diff_surface, DiffSurface, Placement, TabKind, Tabs};
use rustelier::workspace::FileMode;

fn titles(t: &Tabs) -> Vec<String> {
    t.tabs().iter().map(|tab| tab.title.clone()).collect()
}

fn with_terminal() -> Tabs {
    let mut t = Tabs::new();
    t.open_terminal();
    t
}

#[test]
fn a_file_opens_once_and_is_selected_again() {
    let mut t = with_terminal();
    assert_eq!(t.open_file("/w/src/main.rs", false), Placement::Added(1));
    assert_eq!(t.open_file("/w/README.md", false), Placement::Added(2));
    assert_eq!(t.open_file("/w/src/./main.rs", false), Placement::Selected(1));
    assert_eq!(t.selected(), 1);
    assert_eq!(titles(&t), vec!["zsh", "main.rs", "README.md"]);
    match &t.tabs()[2].kind {
        TabKind::File { mode, has_preview, .. } => {
            assert_eq!(*mode, FileMode::Preview);
            assert!(*has_preview);
        }
        other => panic!("unexpected {other:?}"),
    }
    assert_eq!(t.tabs()[1].id, 2);
}

#[test]
fn single_click_replaces_the_preview_tab() {
    let mut t = with_terminal();
    assert_eq!(t.open_file("/w/a.rs", true), Placement::Added(1));
    assert_eq!(t.open_file("/w/b.rs", true), Placement::Replaced(1));
    assert_eq!(titles(&t), vec!["zsh", "b.rs"]);
    // A kept open of the preview file keeps it.
    assert_eq!(t.open_file("/w/b.rs", false), Placement::Selected(1));
    assert!(!t.tabs()[1].preview);
    assert_eq!(t.open_file("/w/c.rs", true), Placement::Added(2));
}

#[test]
fn images_and_videos_open_as_previews() {
    let mut t = with_terminal();
    t.open_file("/w/logo.PNG", false);
    t.open_file("/w/clip.mp4", false);
    assert!(matches!(t.tabs()[1].kind, TabKind::Image { .. }));
    assert!(matches!(t.tabs()[2].kind, TabKind::Video { .. }));
}

#[test]
fn back_then_forward_returns_to_the_file() {
    let mut t = with_terminal();
    t.open_file("/w/a.rs", false);
    t.open_file("/w/b.rs", false);
    let to = t.pop_history(true);
    assert_eq!(to.as_deref(), Some("/w/a.rs"));
    t.arrive("/w/a.rs", true);
    assert_eq!(t.selected_path().as_deref(), Some("/w/a.rs"));
    let again = t.pop_history(false);
    assert_eq!(again.as_deref(), Some("/w/b.rs"));
    t.arrive("/w/b.rs", false);
    assert_eq!(t.selected_path().as_deref(), Some("/w/b.rs"));
    assert_eq!(t.pop_history(false), None);
    assert_eq!(t.pop_history(true).as_deref(), Some("/w/a.rs"));
}

#[test]
fn a_plain_open_forgets_what_was_backed_out_of() {
    let mut t = with_terminal();
    t.open_file("/w/a.rs", false);
    t.open_file("/w/b.rs", false);
    let to = t.pop_history(true).unwrap();
    t.arrive(&to, true);
    t.open_file("/w/c.rs", false);
    assert_eq!(t.pop_history(false), None);
    assert_eq!(t.pop_history(true).as_deref(), Some("/w/a.rs"));
}

#[test]
fn the_last_terminal_stays_open() {
    let mut t = with_terminal();
    t.open_file("/w/a.rs", false);
    assert!(!t.close_tab(0));
    assert_eq!(t.tabs().len(), 2);
    t.open_terminal();
    assert!(t.close_tab(0));
    assert_eq!(t.terminal_count(), 1);
    assert!(!t.close_tab(5));
}

#[test]
fn closing_keeps_the_selected_tab() {
    let mut t = with_terminal();
    t.open_file("/w/a.rs", false);
    t.open_file("/w/b.rs", false);
    t.open_file("/w/c.rs", false);
    t.select(2);
    assert!(t.close_tab(1));
    assert_eq!(t.selected(), 1);
    assert_eq!(t.selected_path().as_deref(), Some("/w/b.rs"));
    t.select(2);
    assert!(t.close_tab(2));
    assert_eq!(t.selected(), 1);
}

#[test]
fn markdown_toggles_and_plain_text_does_not() {
    let mut t = with_terminal();
    t.open_file("/w/notes.md", false);
    t.toggle_mode();
    assert!(matches!(t.tabs()[1].kind, TabKind::File { mode: FileMode::Source, .. }));
    t.open_file("/w/a.rs", false);
    t.toggle_mode();
    assert!(matches!(t.tabs()[2].kind, TabKind::File { mode: FileMode::Source, .. }));
    t.open_file("/w/page.html", false);
    t.toggle_mode();
    assert!(matches!(t.tabs()[3].kind, TabKind::File { mode: FileMode::Preview, .. }));
}

#[test]
fn diff_tabs_are_one_per_change_and_side() {
    let mut t = with_terminal();
    assert_eq!(t.open_text_diff("src/lib.rs", false), Placement::Added(1));
    assert_eq!(t.open_text_diff("src/lib.rs", true), Placement::Added(2));
    assert_eq!(t.open_text_diff("src/lib.rs", false), Placement::Refreshed(1));
    assert_eq!(titles(&t)[1], "lib.rs (diff)");
    assert_eq!(
        t.open_image_diff("img/a.png", None, Some("/w/img/a.png".to_string())),
        Placement::Added(3)
    );
    assert_eq!(
        t.open_image_diff("img/a.png", Some("/tmp/head.png".to_string()), None),
        Placement::Refreshed(3)
    );
    match &t.tabs()[3].kind {
        TabKind::ImageDiff { head, working, .. } => {
            assert_eq!(head.as_deref(), Some("/tmp/head.png"));
            assert_eq!(*working, None);
        }
        other => panic!("unexpected {other:?}"),
    }
    assert_eq!(t.open_video_change("v/clip.mov", "/w/v/clip.mov"), Placement::Added(4));
    assert_eq!(titles(&t)[4], "clip.mov");
    assert_eq!(t.open_video_change("v/clip.mov", "/w/v/clip.mov"), Placement::Selected(4));
}

#[test]
fn changes_open_on_their_surface() {
    assert_eq!(diff_surface("a.mp4", true), DiffSurface::Player);
    assert_eq!(diff_surface("a.mp4", false), DiffSurface::Text);
    assert_eq!(diff_surface("a.jpeg", false), DiffSurface::ImageSides);
    assert_eq!(diff_surface("a.rs", true), DiffSurface::Text);
}

#[test]
fn a_session_keeps_files_with_their_mode() {
    let mut t = with_terminal();
    t.open_file("/w/notes.md", false);
    t.open_file("/w/a.rs", false);
    t.open_file("/w/pic.gif", false);
    t.open_text_diff("a.rs", false);
    assert_eq!(
        t.session_files(),
        vec![
            FileTabState { path: "/w/notes.md".to_string(), preview: true },
            FileTabState { path: "/w/a.rs".to_string(), preview: false },
            FileTabState { path: "/w/pic.gif".to_string(), preview: false },
        ]
    );
    t.open_file("/w/x.md", false);
    t.restore_last_mode(false);
    assert!(matches!(t.tabs()[5].kind, TabKind::File { mode: FileMode::Source, .. }));
    t.show_source();
    assert_eq!(t.first_terminal(), Some(0));
}

#[test]
fn opening_another_file_clears_forward_and_remembers_the_file_left() {
    let mut t = Tabs::new();
    t.open_file("/r/a.rs", false);
    t.open_file("/r/b.rs", false);
    assert_eq!(t.selected_path(), Some("/r/b.rs".to_string()));
    let mut stepped = Tabs::new();
    stepped.open_file("/r/a.rs", false);
    stepped.open_file("/r/b.rs", false);
    assert_eq!(stepped.pop_history(false), None);
    assert_eq!(stepped.pop_history(true), Some("/r/a.rs".to_string()));
    t.open_file("/r/b.rs", false);
    assert_eq!(t.pop_history(true), Some("/r/a.rs".to_string()));
    assert_eq!(t.pop_history(true), None);
}
