use rustelier::watch::{
    event_effect, is_structural, is_watchable, EventClass, Registry, RootChange, WatchEvent,
    WatchRoot,
};

fn registry() -> Registry {
    let mut registry = Registry::new();
    registry.add_root(WatchRoot::new("/repo", vec!["*.log".to_string(), "build/".to_string()]));
    registry.add_root(WatchRoot::new("/repo/vendor/lib", Vec::new()));
    registry
}

#[test]
fn reads_change_nothing_and_writes_are_not_structural() {
    assert_eq!(event_effect(EventClass::Access), None);
    assert_eq!(event_effect(EventClass::ModifyOther), Some(false));
    assert_eq!(event_effect(EventClass::Create), Some(true));
    assert!(is_structural(EventClass::Other));
    assert!(!is_structural(EventClass::ModifyOther));
}

#[test]
fn a_write_into_an_existing_file_asks_for_git_only() {
    let root = WatchRoot::new("/repo", Vec::new());
    assert_eq!(root.effect("src/main.rs", false), Some((false, true)));
    assert_eq!(root.effect("src/new.rs", true), Some((true, true)));
}

#[test]
fn ignored_paths_ask_for_nothing() {
    let root = WatchRoot::new("/repo", vec!["*.log".to_string(), "build/".to_string()]);
    assert_eq!(root.effect("target/debug/app", true), None);
    assert_eq!(root.effect("web/node_modules/x.js", true), None);
    assert_eq!(root.effect("run.log", true), None);
    assert_eq!(root.effect("build/out.o", true), None);
    assert_eq!(root.effect("src/lib.rs", true), Some((true, true)));
}

#[test]
fn git_metadata_refreshes_git_and_objects_do_not() {
    let root = WatchRoot::new("/repo", Vec::new());
    assert_eq!(root.effect(".git/HEAD", false), Some((false, true)));
    assert_eq!(root.effect(".git/refs/heads/main", true), Some((false, true)));
    assert_eq!(root.effect(".git/objects/ab/cdef", true), None);
}

#[test]
fn a_path_belongs_to_its_deepest_root() {
    let registry = registry();
    assert!(registry.contains_root("/repo"));
    assert!(!registry.contains_root("/other"));
    assert_eq!(registry.root_index_for("/repo/vendor/lib/a.c"), Some(1));
    assert_eq!(registry.root_index_for("/repo/src/a.rs"), Some(0));
    assert_eq!(registry.root_index_for("/elsewhere/a.rs"), None);
}

#[test]
fn changes_fold_per_root() {
    let registry = registry();
    let mut out: Vec<RootChange> = Vec::new();
    assert_eq!(registry.fold_path("/repo/src/a.rs", false, &mut out), None);
    assert_eq!(registry.fold_path("/repo/src/b.rs", true, &mut out), None);
    assert_eq!(registry.fold_path("/repo/vendor/lib/x.c", false, &mut out), None);
    assert_eq!(registry.fold_path("/elsewhere/x", true, &mut out), None);
    assert_eq!(
        out,
        vec![
            RootChange {
                root: "/repo".to_string(),
                index: true,
                git: true,
            },
            RootChange {
                root: "/repo/vendor/lib".to_string(),
                index: false,
                git: true,
            },
        ]
    );
}

#[test]
fn a_rewritten_gitignore_is_reloaded_and_rebuilds() {
    let mut registry = registry();
    let mut out: Vec<RootChange> = Vec::new();
    assert_eq!(registry.fold_path("/repo/.gitignore", false, &mut out), Some(0));
    assert_eq!(out, vec![RootChange { root: "/repo".to_string(), index: true, git: true }]);
    registry.reload_ignore(0, vec!["*.rs".to_string()]);
    let mut out: Vec<RootChange> = Vec::new();
    assert_eq!(registry.fold_path("/repo/src/a.rs", true, &mut out), None);
    assert!(out.is_empty());
}

#[test]
fn a_rescan_asks_every_root_for_everything() {
    let registry = registry();
    let mut out = vec![RootChange::empty("/repo")];
    registry.rescan(&mut out);
    assert_eq!(
        out,
        vec![
            RootChange {
                root: "/repo".to_string(),
                index: true,
                git: true,
            },
            RootChange {
                root: "/repo/vendor/lib".to_string(),
                index: true,
                git: true,
            },
        ]
    );
}

#[test]
fn home_and_the_filesystem_root_are_never_watched() {
    assert!(!is_watchable("/", Some("/Users/me")));
    assert!(!is_watchable("/Users/me", Some("/Users/me")));
    assert!(!is_watchable("/Users/me/", Some("/Users/me")));
    assert!(is_watchable("/Users/me/code", Some("/Users/me")));
    assert!(is_watchable("/Users/me", None));
}

#[test]
fn a_later_path_never_clears_an_earlier_flag() {
    let registry = registry();
    let mut out: Vec<RootChange> = Vec::new();
    registry.fold_path("/repo/src/new.rs", true, &mut out);
    registry.fold_path("/repo/src/new.rs", false, &mut out);
    registry.fold_path("/repo/vendor/lib/y.c", false, &mut out);
    assert_eq!(out[0], RootChange { root: "/repo".to_string(), index: true, git: true });
    assert_eq!(out.len(), 2);
    assert_eq!(out[1].root, "/repo/vendor/lib");
}

#[test]
fn an_event_folds_its_paths_and_stops_for_a_rewritten_gitignore() {
    let mut registry = registry();
    let event = WatchEvent {
        need_rescan: false,
        kind: EventClass::ModifyOther,
        paths: vec![
            "/repo/src/a.rs".to_string(),
            "/repo/.gitignore".to_string(),
            "/repo/src/b.rs".to_string(),
        ],
    };
    let mut out: Vec<RootChange> = Vec::new();
    assert_eq!(registry.fold_event(&event, 0, &mut out), Some((0, 2)));
    assert_eq!(out, vec![RootChange { root: "/repo".to_string(), index: true, git: true }]);
    registry.reload_ignore(0, vec!["*.rs".to_string()]);
    let mut later: Vec<RootChange> = Vec::new();
    assert_eq!(registry.fold_event(&event, 2, &mut later), None);
    assert!(later.is_empty());

    let read = WatchEvent { need_rescan: false, kind: EventClass::Access, paths: vec!["/repo/x".to_string()] };
    assert_eq!(registry.fold_event(&read, 0, &mut later), None);
    assert!(later.is_empty());

    let dropped = WatchEvent { need_rescan: true, kind: EventClass::Other, paths: Vec::new() };
    assert_eq!(registry.fold_event(&dropped, 0, &mut later), None);
    assert_eq!(later.len(), 2);
}
