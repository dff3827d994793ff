use rustelier::fs_tree::{is_hard_ignored, is_tcc_protected, order_listing, Entry, FileTree};

fn entry(path: &str, is_dir: bool) -> Entry {
    Entry {
        path: path.to_string(),
        name: path.rsplit('/').next().unwrap().to_string(),
        is_dir,
    }
}

fn row_paths(tree: &FileTree) -> Vec<(String, usize, bool)> {
    tree.rows
        .iter()
        .map(|row| (row.entry.path.clone(), row.depth, row.expanded))
        .collect()
}

#[test]
fn listings_put_folders_first_then_names_ignoring_case() {
    let ordered = order_listing(vec![
        entry("/r/b.txt", false),
        entry("/r/Zeta", true),
        entry("/r/A.txt", false),
        entry("/r/.git", true),
        entry("/r/alpha", true),
    ]);
    let names: Vec<&str> = ordered.iter().map(|e| e.name.as_str()).collect();
    assert_eq!(names, vec!["alpha", "Zeta", "A.txt", "b.txt"]);
}

#[test]
fn hard_ignores_and_guarded_folders() {
    assert!(is_hard_ignored(".git"));
    assert!(is_hard_ignored("node_modules"));
    assert!(is_hard_ignored("DerivedData"));
    assert!(!is_hard_ignored("src"));
    assert!(is_tcc_protected("Documents"));
    assert!(!is_tcc_protected("code"));
}

#[test]
fn the_tree_reads_a_folder_only_when_it_opens() {
    let mut tree = FileTree::new("/r".to_string());
    assert_eq!(tree.root(), "/r");
    assert!(tree.rows.is_empty());
    assert_eq!(tree.pending_listings(), vec!["/r".to_string()]);

    tree.load("/r", vec![entry("/r/src", true), entry("/r/README.md", false)]);
    assert!(tree.pending_listings().is_empty());
    assert_eq!(
        row_paths(&tree),
        vec![("/r/src".to_string(), 0, false), ("/r/README.md".to_string(), 0, false)]
    );

    tree.toggle("/r/src");
    assert!(tree.is_expanded("/r/src"));
    assert_eq!(tree.pending_listings(), vec!["/r/src".to_string()]);
    tree.load("/r/src", vec![entry("/r/src/main.rs", false)]);
    assert_eq!(
        row_paths(&tree),
        vec![
            ("/r/src".to_string(), 0, true),
            ("/r/src/main.rs".to_string(), 1, false),
            ("/r/README.md".to_string(), 0, false),
        ]
    );

    tree.toggle("/r/src");
    assert!(!tree.is_expanded("/r/src"));
    assert_eq!(row_paths(&tree).len(), 2);
}

#[test]
fn a_second_listing_of_a_folder_is_ignored() {
    let mut tree = FileTree::new("/r".to_string());
    tree.load("/r", vec![entry("/r/a", false)]);
    tree.load("/r", vec![entry("/r/b", false)]);
    assert_eq!(row_paths(&tree), vec![("/r/a".to_string(), 0, false)]);
}

#[test]
fn reveal_expands_every_folder_on_the_way() {
    let mut tree = FileTree::new("/r".to_string());
    tree.reveal_path("/r/a/b/c.txt");
    assert!(tree.is_expanded("/r"));
    assert!(tree.is_expanded("/r/a"));
    assert!(tree.is_expanded("/r/a/b"));
    assert!(!tree.is_expanded("/r/a/b/c.txt"));
    tree.reveal_path("/elsewhere/x");
    assert!(!tree.is_expanded("/elsewhere"));
}

#[test]
fn refresh_forgets_listings_and_keeps_expansion() {
    let mut tree = FileTree::new("/r".to_string());
    tree.load("/r", vec![entry("/r/src", true)]);
    tree.toggle("/r/src");
    tree.load("/r/src", vec![entry("/r/src/lib.rs", false)]);
    tree.refresh();
    assert!(tree.rows.is_empty());
    assert!(tree.is_expanded("/r/src"));
    assert_eq!(
        tree.pending_listings(),
        vec!["/r".to_string(), "/r/src".to_string()]
    );
}

#[test]
fn toggling_an_open_folder_twice_restores_the_rows() {
    let mut tree = FileTree::new("/r".to_string());
    tree.load("/r", vec![entry("/r/a", true), entry("/r/b", true)]);
    tree.toggle("/r/a");
    tree.toggle("/r/b");
    tree.load("/r/a", vec![entry("/r/a/x", false)]);
    tree.load("/r/b", vec![entry("/r/b/y", false)]);
    let before = row_paths(&tree);
    tree.toggle("/r/a");
    assert!(!tree.is_expanded("/r/a"));
    tree.toggle("/r/a");
    assert!(tree.is_expanded("/r/a"));
    assert!(tree.is_expanded("/r/b"));
    assert_eq!(row_paths(&tree), before);
}

#[test]
fn a_refreshed_tree_is_a_fresh_tree_reopened() {
    let mut tree = FileTree::new("/r".to_string());
    tree.load("/r", vec![entry("/r/a", true), entry("/r/b", true)]);
    tree.toggle("/r/b");
    tree.toggle("/r/a");
    tree.refresh();
    let mut fresh = FileTree::new("/r".to_string());
    fresh.toggle("/r/b");
    fresh.toggle("/r/a");
    assert_eq!(tree.pending_listings(), fresh.pending_listings());
    assert_eq!(row_paths(&tree), row_paths(&fresh));
    for tree in [&mut tree, &mut fresh] {
        tree.load("/r", vec![entry("/r/a", true), entry("/r/b", true)]);
        tree.load("/r/a", vec![entry("/r/a/x", false)]);
        tree.load("/r/b", vec![entry("/r/b/y", false)]);
    }
    assert_eq!(row_paths(&tree), row_paths(&fresh));
}
