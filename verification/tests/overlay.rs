use rustelier::commands::Command;
use rustelier::overlay::{search_scroll_item, Activation, Overlay, OverlayState, Refresh};
use rustelier::repository_search::RepositoryResult;
use rustelier::search::{Batch, Hit};

fn hit(relative: &str, line: u64) -> Hit {
    Hit {
        relative: relative.to_string(),
        absolute: format!("/w/{relative}"),
        line,
        text: "x".to_string(),
        match_start: 0,
        match_end: 1,
    }
}

fn batch(relative: &str, lines: &[u64]) -> Batch {
    Batch { relative: relative.to_string(), hits: lines.iter().map(|l| hit(relative, *l)).collect() }
}

#[test]
fn the_palette_filters_by_title_ignoring_case() {
    let mut o = OverlayState::new();
    o.open(Overlay::Palette);
    assert!(matches!(o.refresh(""), Refresh::Done));
    assert_eq!(o.commands().len(), 11);
    o.refresh("TOGGLE s");
    assert_eq!(o.commands(), &vec![Command::ToggleSidebar, Command::TogglePreview]);
    o.refresh("nothing like it");
    assert!(o.commands().is_empty());
    assert!(o.activation().is_none());
    o.refresh("save");
    assert!(matches!(o.activation(), Some(Activation::Run(Command::Save))));
}

#[test]
fn a_short_query_does_not_search() {
    let mut o = OverlayState::new();
    o.open(Overlay::Search);
    let g = o.generation();
    assert!(matches!(o.refresh("a"), Refresh::Done));
    assert_eq!(o.generation(), g + 1);
    // Two bytes, one character.
    match o.refresh("é") {
        Refresh::Search { generation, .. } => assert_eq!(generation, g + 3),
        _ => panic!("expected a search"),
    }
    assert!(o.searching());
}

#[test]
fn superseded_batches_are_dropped() {
    let mut o = OverlayState::new();
    o.open(Overlay::Search);
    let first = match o.refresh("fn") {
        Refresh::Search { generation, cancel } => {
            assert!(!cancel.is_cancelled());
            (generation, cancel)
        }
        _ => panic!("expected a search"),
    };
    assert!(o.receive_batch(first.0, batch("a.rs", &[1, 2])));
    assert_eq!(o.total(), 2);
    let second = match o.refresh("fn m") {
        Refresh::Search { generation, .. } => generation,
        _ => panic!("expected a search"),
    };
    assert!(first.1.is_cancelled());
    assert_eq!(o.total(), 0);
    assert!(!o.receive_batch(first.0, batch("b.rs", &[3])));
    assert!(o.receive_batch(second, batch("b.rs", &[3])));
    assert_eq!(o.footer(), "1 matches - searching");
    o.finish_search(first.0);
    assert!(o.searching());
    o.finish_search(second);
    assert_eq!(o.footer(), "1 matches");
    o.close();
    assert!(!o.receive_batch(second, batch("c.rs", &[1])));
    assert_eq!(o.kind(), None);
}

#[test]
fn quick_open_keeps_only_its_latest_results() {
    let mut o = OverlayState::new();
    o.open(Overlay::QuickOpen);
    let g = match o.refresh("") {
        Refresh::Quick { generation, .. } => generation,
        _ => panic!("expected a quick search"),
    };
    assert_eq!(o.footer(), "Searching files, symbols, and commits...");
    let results = vec![
        RepositoryResult::Symbol {
            name: "main".to_string(),
            declaration: "fn main".to_string(),
            relative: "src/main.rs".to_string(),
            absolute: "/w/src/main.rs".to_string(),
            line: 12,
        },
        RepositoryResult::Commit {
            short_hash: "abc1234".to_string(),
            subject: "Fix it".to_string(),
            author: "me".to_string(),
        },
    ];
    assert!(!o.receive_quick(g + 1, results.clone()));
    assert!(o.receive_quick(g, results));
    assert_eq!(o.footer(), "Up / Down / Return / click outside to close");
    match o.activation() {
        Some(Activation::OpenSource { absolute, reveal }) => {
            assert_eq!(absolute, "/w/src/main.rs");
            assert_eq!(reveal, Some(11));
        }
        _ => panic!("expected a source open"),
    }
    assert_eq!(o.move_selection(1), Some(1));
    match o.activation() {
        Some(Activation::ShowCommit { status }) => assert_eq!(status, "commit abc1234 - Fix it"),
        _ => panic!("expected a commit"),
    }
}

#[test]
fn the_selection_wraps_and_scrolls_past_headers() {
    let mut o = OverlayState::new();
    o.open(Overlay::Search);
    let g = match o.refresh("needle") {
        Refresh::Search { generation, .. } => generation,
        _ => panic!("expected a search"),
    };
    o.receive_batch(g, batch("a.rs", &[4, 9]));
    o.receive_batch(g, batch("b.rs", &[1]));
    assert_eq!(o.move_selection(-1), Some(4));
    assert_eq!(o.selected(), 2);
    match o.activation() {
        Some(Activation::OpenHit { absolute, reveal }) => {
            assert_eq!(absolute, "/w/b.rs");
            assert_eq!(reveal, 0);
        }
        _ => panic!("expected a hit"),
    }
    assert_eq!(o.move_selection(1), Some(1));
    assert_eq!(o.selected(), 0);
    assert_eq!(o.move_selection(1), Some(2));
    assert_eq!(o.move_selection(-1), Some(1));
}

#[test]
fn an_empty_list_keeps_the_first_row() {
    let mut o = OverlayState::new();
    o.open(Overlay::Search);
    assert_eq!(o.move_selection(1), None);
    assert_eq!(o.selected(), 0);
}

#[test]
fn scroll_rows_count_one_header_per_batch() {
    let batches = vec![batch("a.rs", &[1, 2, 3]), batch("b.rs", &[1]), batch("c.rs", &[7, 8])];
    assert_eq!(search_scroll_item(&batches, 0), 1);
    assert_eq!(search_scroll_item(&batches, 2), 3);
    assert_eq!(search_scroll_item(&batches, 3), 5);
    assert_eq!(search_scroll_item(&batches, 5), 8);
    assert_eq!(search_scroll_item(&batches, 9), 12);
    assert_eq!(search_scroll_item(&Vec::new(), 4), 4);
}
