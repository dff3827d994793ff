use rustelier::git::{split_status, ChangeKind, Commit, Change, IndexChange, StatusItem, WorktreeEntry};
use rustelier::git_panel::{
    armed_status, discard_status, folder_key, subtree_items, Click, DiscardGuard,
};
use rustelier::inspector::{
    branch_line, changes_summary, identity, initial, recent_authors, Subject,
};
use rustelier::labels::relative_to;
use rustelier::rail::{rail_menu, RailMenu};
use rustelier::status_bar::{status_bar, Surface};
use rustelier::tabs::{StripEntry, TabGlyph, Tabs};
use rustelier::workspace::FileMode;

fn commit(author: &str) -> Commit {
    Commit {
        short_hash: "abc1234".to_string(),
        subject: "s".to_string(),
        author: author.to_string(),
        seconds: 0,
    }
}

#[test]
fn a_status_walk_splits_into_sorted_sides() {
    let items = vec![
        StatusItem::Modified { path: "src/b.rs".to_string(), entry: WorktreeEntry::Other },
        StatusItem::Index { path: "z.rs".to_string(), change: IndexChange::Addition },
        StatusItem::Untracked { path: "new".to_string(), is_directory: true },
        StatusItem::Untracked { path: "new/a.txt".to_string(), is_directory: false },
        StatusItem::Modified { path: "c.rs".to_string(), entry: WorktreeEntry::Conflict },
        StatusItem::Index { path: "a.rs".to_string(), change: IndexChange::Rewrite },
        StatusItem::Renamed { path: "m.rs".to_string() },
        StatusItem::Modified { path: "i.rs".to_string(), entry: WorktreeEntry::IntentToAdd },
    ];
    let (staged, unstaged) = split_status(items);
    let s: Vec<(String, ChangeKind)> = staged.iter().map(|c| (c.path.clone(), c.kind)).collect();
    assert_eq!(
        s,
        vec![("a.rs".to_string(), ChangeKind::Renamed), ("z.rs".to_string(), ChangeKind::Added)]
    );
    assert!(staged.iter().all(|c| c.staged));
    let u: Vec<(String, ChangeKind)> = unstaged.iter().map(|c| (c.path.clone(), c.kind)).collect();
    assert_eq!(
        u,
        vec![
            ("c.rs".to_string(), ChangeKind::Conflicted),
            ("i.rs".to_string(), ChangeKind::Added),
            ("m.rs".to_string(), ChangeKind::Renamed),
            ("new/a.txt".to_string(), ChangeKind::Untracked),
            ("src/b.rs".to_string(), ChangeKind::Modified),
        ]
    );
}

#[test]
fn the_inspector_describes_the_selected_tab() {
    let file = identity(&Subject::File {
        relative: "src/main.rs".to_string(),
        bytes: 1200,
        lines: 40,
        language: "Rust".to_string(),
        unsaved: true,
    });
    assert_eq!(file.section, "FILE");
    assert_eq!(file.rows[1], ("Bytes".to_string(), "1200".to_string()));
    assert_eq!(file.rows[4], ("Unsaved".to_string(), "yes".to_string()));
    let diff = identity(&Subject::Diff {
        text: "--- a/x\n+++ b/x\n@@ -1 +1 @@\n-old\n+new\n+more\n context".to_string(),
    });
    assert_eq!(
        diff.rows,
        vec![
            ("Additions".to_string(), "3".to_string()),
            ("Deletions".to_string(), "2".to_string()),
            ("Hunks".to_string(), "1".to_string()),
        ]
    );
    let sides = identity(&Subject::ImageDiff { head: false, working: true });
    assert_eq!(sides.rows[0].1, "absent");
    assert_eq!(sides.rows[1].1, "present");
    let term = identity(&Subject::Terminal { root: "/w".to_string(), exited: false });
    assert_eq!(term.section, "TERMINAL");
    assert_eq!(term.rows[0].1, "/bin/zsh -l");
}

#[test]
fn recent_authors_are_three_distinct() {
    let commits: Vec<Commit> =
        ["ann", "bo", "ann", "cy", "dee"].iter().map(|a| commit(a)).collect();
    assert_eq!(recent_authors(&commits), vec!["ann", "bo", "cy"]);
    assert_eq!(recent_authors(&Vec::new()), Vec::<String>::new());
    assert_eq!(initial("émile"), "É");
    assert_eq!(initial(""), "?");
    assert_eq!(changes_summary(0), "Working tree clean");
    assert_eq!(changes_summary(4), "4 changed files");
    assert_eq!(branch_line("main", "abc1234"), "main  abc1234");
}

#[test]
fn relative_paths_drop_the_root() {
    assert_eq!(relative_to("/w/src/main.rs", "/w"), "src/main.rs");
    assert_eq!(relative_to("/w/src/main.rs", "/w/"), "src/main.rs");
    assert_eq!(relative_to("/other/x", "/w"), "/other/x");
}

#[test]
fn a_discard_takes_two_clicks_on_one_row() {
    let mut g = DiscardGuard::new();
    let a = folder_key("Changes", "src");
    assert_eq!(a, "Changes-dir-src");
    assert_eq!(g.click(&a), Click::Armed);
    assert!(g.is_armed(&a));
    assert_eq!(g.click("Changes-dir-docs"), Click::Armed);
    assert!(!g.expire(&a));
    assert!(g.is_armed("Changes-dir-docs"));
    assert_eq!(g.click("Changes-dir-docs"), Click::Discard);
    assert!(!g.is_armed("Changes-dir-docs"));
    assert_eq!(g.click(&a), Click::Armed);
    assert!(g.expire(&a));
    assert_eq!(g.click(&a), Click::Armed);
    assert_eq!(armed_status(), "click revert again to discard");
    assert_eq!(discard_status(None), "discarded");
    assert_eq!(discard_status(Some("boom".to_string())), "boom");
}

#[test]
fn a_folder_row_acts_on_its_subtree() {
    let changes = vec![
        Change { path: "src/a.rs".to_string(), kind: ChangeKind::Modified, staged: false },
        Change { path: "srcs/b.rs".to_string(), kind: ChangeKind::Modified, staged: false },
        Change { path: "src/x/n.rs".to_string(), kind: ChangeKind::Untracked, staged: false },
    ];
    assert_eq!(
        subtree_items(&changes, "src"),
        vec![("src/a.rs".to_string(), false), ("src/x/n.rs".to_string(), true)]
    );
}

#[test]
fn the_status_bar_describes_the_workspace() {
    let file = Surface::File {
        path: "/w/notes.md".to_string(),
        language: "Text".to_string(),
        mode: FileMode::Preview,
        previewable: true,
        line_ending: "LF".to_string(),
        bytes: 4003,
    };
    let wide = status_bar(true, "main", "abc1234", 2, false, Some("saved"), Some(&file));
    assert_eq!(wide.branch, "main");
    assert_eq!(wide.changed.as_deref(), Some("2 changed"));
    assert_eq!(wide.status.as_deref(), Some("saved"));
    assert_eq!(wide.surface.as_deref(), Some("Markdown"));
    assert_eq!(wide.document_mode.as_deref(), Some("Preview"));
    assert_eq!(wide.line_ending.as_deref(), Some("LF"));
    assert_eq!(wide.git_state, Some((false, "Working Tree Dirty".to_string())));
    assert_eq!(wide.tokens.as_deref(), Some("~1000 tokens"));
    let narrow = status_bar(false, "main", "", 0, true, Some("saved"), Some(&Surface::Diff {
        path: "src/lib.rs".to_string(),
    }));
    assert_eq!(narrow.branch, "no repository");
    assert_eq!(narrow.changed, None);
    assert_eq!(narrow.status, None);
    assert_eq!(narrow.surface.as_deref(), Some("RS Diff"));
    assert_eq!(narrow.git_state, None);
    assert_eq!(narrow.tokens, None);
    let clean = status_bar(true, "dev", "", 0, true, None, None);
    assert_eq!(clean.git_state, Some((true, "Clean".to_string())));
    assert_eq!(clean.surface, None);
}

#[test]
fn the_rail_menu_disables_what_cannot_happen() {
    assert_eq!(
        rail_menu(0, 3, true),
        RailMenu { activate: false, move_up: None, move_down: Some(1), close: true }
    );
    assert_eq!(
        rail_menu(2, 3, false),
        RailMenu { activate: true, move_up: Some(1), move_down: None, close: true }
    );
    assert_eq!(
        rail_menu(0, 1, true),
        RailMenu { activate: false, move_up: None, move_down: None, close: false }
    );
}

#[test]
fn the_strip_closes_a_terminal_only_beside_another() {
    let mut t = Tabs::new();
    t.open_terminal();
    t.open_file("/w/README.md", false);
    t.open_text_diff("a.rs", true);
    let strip = t.strip();
    assert_eq!(
        strip[0],
        StripEntry { title: "zsh".to_string(), preview: false, glyph: TabGlyph::Terminal, closable: false }
    );
    assert_eq!(strip[1].glyph, TabGlyph::File("README.md".to_string()));
    assert_eq!(strip[2].glyph, TabGlyph::Change);
    assert!(strip[2].closable);
    t.open_terminal();
    assert!(t.strip()[0].closable);
    t.select(1);
    assert_eq!(t.preview_state(), (true, true));
    t.select(2);
    assert_eq!(t.preview_state(), (false, false));
}
