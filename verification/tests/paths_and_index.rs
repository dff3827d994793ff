use rustelier::file_index::{admits, indexed_file, sort_index, wraps, IndexedFile, WordWrap, MAX_TEXT_BYTES};
use rustelier::paths::{
    join_name, path_components, path_extension, path_file_name, paths_equal, starts_with_path,
};

fn text(v: Vec<char>) -> String {
    v.into_iter().collect()
}

#[test]
fn components_normalise_like_std_path() {
    let comps: Vec<String> = path_components("/a//b/./c/").into_iter().map(text).collect();
    assert_eq!(comps, vec!["a", "b", "c"]);
    let comps: Vec<String> = path_components("./x/../y").into_iter().map(text).collect();
    assert_eq!(comps, vec![".", "x", "..", "y"]);
    assert!(paths_equal("/a/b/", "/a/./b"));
    assert!(!paths_equal("/a/b", "a/b"));
}

#[test]
fn prefixes_are_whole_components() {
    assert!(starts_with_path("/a/b/c", "/a/b"));
    assert!(!starts_with_path("/a/bc", "/a/b"));
    assert!(starts_with_path("/a/b", "/a/b/"));
}

#[test]
fn names_and_extensions() {
    assert_eq!(path_file_name("/a/b.txt"), Some("b.txt".to_string()));
    assert_eq!(path_file_name("/a/.."), None);
    assert_eq!(path_file_name("/"), None);
    assert_eq!(path_extension("a/b.tar.gz").map(text), Some("gz".to_string()));
    assert_eq!(path_extension(".bashrc"), None);
    assert_eq!(path_extension("a/file."), Some(Vec::new()));
    let name: Vec<char> = "c.rs".chars().collect();
    assert_eq!(join_name("/a/b", &name), "/a/b/c.rs");
}

#[test]
fn the_index_keeps_small_regular_files() {
    assert!(admits(true, Some(10)));
    assert!(admits(true, Some(MAX_TEXT_BYTES)));
    assert!(!admits(true, Some(MAX_TEXT_BYTES + 1)));
    assert!(!admits(true, None));
    assert!(!admits(false, Some(1)));
}

#[test]
fn index_entries_are_relative_to_the_root() {
    let file = indexed_file("/repo", "/repo/Src/Main.rs").unwrap();
    assert_eq!(file.absolute, "/repo/Src/Main.rs");
    assert_eq!(file.relative, "Src/Main.rs");
    assert_eq!(file.name, "Main.rs");
    assert_eq!(file.haystack, "src/main.rs");
    assert!(indexed_file("/repo", "/other/a.rs").is_none());
}

fn file(relative: &str, absolute: &str) -> IndexedFile {
    IndexedFile {
        absolute: absolute.to_string(),
        relative: relative.to_string(),
        name: String::new(),
        haystack: relative.to_lowercase(),
    }
}

#[test]
fn the_index_is_ordered_by_relative_path() {
    let sorted = sort_index(vec![file("b", "1"), file("B", "2"), file("a/c", "3"), file("b", "4")]);
    let got: Vec<(String, String)> = sorted
        .iter()
        .map(|f| (f.relative.clone(), f.absolute.clone()))
        .collect();
    assert_eq!(
        got,
        vec![
            ("B".to_string(), "2".to_string()),
            ("a/c".to_string(), "3".to_string()),
            ("b".to_string(), "1".to_string()),
            ("b".to_string(), "4".to_string()),
        ]
    );
}

#[test]
fn wrapping_is_off_until_chosen() {
    assert!(!wraps(None));
    assert!(wraps(Some(WordWrap(true))));
    assert!(!wraps(Some(WordWrap(false))));
}
