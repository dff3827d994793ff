use std::cmp::Ordering;

use rustelier::explorer::{compare_explorer_paths, explorer_rows, filtered_inventory_rows};
use rustelier::fs_tree::{Entry, Row};
use rustelier::workspace::ExplorerInventoryEntry;

#[test]
fn filter_finds_inventory_file_outside_the_lazy_tree() {
    let root = "/repo".to_string();
    let inventory = vec![
        ExplorerInventoryEntry {
            path: "/repo/ignored".to_string(),
            is_dir: true,
        },
        ExplorerInventoryEntry {
            path: "/repo/ignored/huge.bin".to_string(),
            is_dir: false,
        },
    ];

    let rows = filtered_inventory_rows(&root, &inventory, &Vec::new(), "huge");
    let paths: Vec<_> = rows.iter().map(|row| row.path.clone()).collect();
    assert_eq!(
        paths,
        vec!["/repo/ignored".to_string(), "/repo/ignored/huge.bin".to_string()]
    );
    assert!(rows.first().is_some_and(|row| row.expanded));
}

#[test]
fn case_insensitive_sort_has_a_stable_tie_break() {
    let root = "/repo";
    let directories: Vec<String> = Vec::new();
    let left = "/repo/README.md";
    let right = "/repo/Readme.md";

    let ordering = compare_explorer_paths(left, right, root, &directories);
    assert_ne!(ordering, Ordering::Equal);
    assert_eq!(
        ordering,
        compare_explorer_paths(right, left, root, &directories).reverse()
    );
}

#[test]
fn folders_sort_before_files_and_names_ignore_case() {
    let directories = vec!["/repo/zeta".to_string()];
    assert_eq!(
        compare_explorer_paths("/repo/zeta", "/repo/alpha.md", "/repo", &directories),
        Ordering::Less
    );
    assert_eq!(
        compare_explorer_paths("/repo/Beta.md", "/repo/alpha.md", "/repo", &directories),
        Ordering::Greater
    );
    assert_eq!(
        compare_explorer_paths("/repo/a.md", "/repo/a.md", "/repo", &directories),
        Ordering::Equal
    );
}

#[test]
fn an_empty_query_keeps_the_tree_rows() {
    let tree_rows = vec![Row {
        entry: Entry {
            path: "/repo/src".to_string(),
            name: "src".to_string(),
            is_dir: true,
        },
        depth: 0,
        expanded: false,
    }];
    let rows = explorer_rows("/repo", &tree_rows, &Vec::new(), "");
    assert_eq!(rows.len(), 1);
    assert_eq!(rows[0].path, "/repo/src");
    assert_eq!(rows[0].name, "src");
    assert!(rows[0].is_dir);
    assert!(!rows[0].expanded);
}

#[test]
fn a_query_matching_nothing_shows_nothing() {
    let inventory = vec![ExplorerInventoryEntry {
        path: "/repo/a.txt".to_string(),
        is_dir: false,
    }];
    let rows = filtered_inventory_rows("/repo", &inventory, &Vec::new(), "zzz");
    assert!(rows.is_empty());
}

#[test]
fn filtered_rows_are_the_matches_and_the_open_folders_above_them() {
    let inventory: Vec<ExplorerInventoryEntry> = [
        ("/r/a/b/deep.txt", false),
        ("/r/a/other.txt", false),
        ("/r/z.txt", false),
    ]
    .iter()
    .map(|(p, d)| ExplorerInventoryEntry { path: p.to_string(), is_dir: *d })
    .collect();
    let rows = filtered_inventory_rows("/r", &inventory, &Vec::new(), "deep");
    let shown: Vec<(String, usize, bool, bool)> = rows
        .iter()
        .map(|r| (r.path.clone(), r.depth, r.is_dir, r.expanded))
        .collect();
    assert_eq!(
        shown,
        vec![
            ("/r/a".to_string(), 0, true, true),
            ("/r/a/b".to_string(), 1, true, true),
            ("/r/a/b/deep.txt".to_string(), 2, false, false),
        ]
    );
}
