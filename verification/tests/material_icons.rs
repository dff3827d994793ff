use rustelier::material_icons::{
    file_icon, folder_icon, icon_resource, merged, normalized, table_lookup, Appearance, Theme,
};

fn pairs(items: &[(&str, &str)]) -> Vec<(String, String)> {
    items
        .iter()
        .map(|(a, b)| (a.to_string(), b.to_string()))
        .collect()
}

fn theme() -> Theme {
    Theme::new(
        pairs(&[
            ("rust", "./../icons/rust.svg"),
            ("ts-test", "icons/test-ts.svg"),
            ("typescript", "x/icons/typescript.svg"),
            ("file", "icons/file.svg"),
            ("folder", "icons/folder.svg"),
            ("folder-open", "icons/folder-open.svg"),
            ("folder-src", "icons/folder-src.svg"),
            ("readme", "icons/readme.svg"),
            ("readme-light", "icons/readme_light.svg"),
            ("broken", "nowhere.svg"),
        ]),
        Appearance {
            file_extensions: pairs(&[("rs", "rust"), ("test.ts", "ts-test"), ("ts", "typescript")]),
            file_names: pairs(&[("README.md", "readme")]),
            folder_names: pairs(&[("src", "folder-src")]),
            folder_names_expanded: pairs(&[("src", "folder-src")]),
        },
        Some(Appearance {
            file_extensions: Vec::new(),
            file_names: pairs(&[("readme.md", "readme-light")]),
            folder_names: Vec::new(),
            folder_names_expanded: Vec::new(),
        }),
        "file".to_string(),
        "folder".to_string(),
        "folder-open".to_string(),
    )
}

#[test]
fn resources_start_at_the_last_icons_folder() {
    assert_eq!(
        icon_resource("./../icons/rust.svg"),
        Some("material-icons/icons/rust.svg".to_string())
    );
    assert_eq!(
        icon_resource("a/icons/b/icons/c.svg"),
        Some("material-icons/icons/c.svg".to_string())
    );
    assert_eq!(icon_resource("nowhere.svg"), None);
}

#[test]
fn tables_lowercase_names_and_later_entries_win() {
    let table = normalized(pairs(&[("A", "1"), ("a", "2")]));
    assert_eq!(table, pairs(&[("a", "1"), ("a", "2")]));
    let key: Vec<char> = "a".chars().collect();
    assert_eq!(table_lookup(&table, &key), Some("2".to_string()));
    let overlay = merged(&pairs(&[("x", "1"), ("y", "2")]), Some(pairs(&[("Y", "3")])));
    let y: Vec<char> = "y".chars().collect();
    let x: Vec<char> = "x".chars().collect();
    assert_eq!(table_lookup(&overlay, &y), Some("3".to_string()));
    assert_eq!(table_lookup(&overlay, &x), Some("1".to_string()));
}

#[test]
fn file_icons_by_name_then_longest_extension_then_default() {
    let theme = theme();
    assert_eq!(file_icon(Some(&theme), "main.RS", false), "material-icons/icons/rust.svg");
    assert_eq!(file_icon(Some(&theme), "app.test.ts", false), "material-icons/icons/test-ts.svg");
    assert_eq!(file_icon(Some(&theme), "app.ts", false), "material-icons/icons/typescript.svg");
    assert_eq!(file_icon(Some(&theme), "README.md", false), "material-icons/icons/readme.svg");
    assert_eq!(file_icon(Some(&theme), "README.md", true), "material-icons/icons/readme_light.svg");
    assert_eq!(file_icon(Some(&theme), "data.bin", false), "material-icons/icons/file.svg");
    assert_eq!(file_icon(None, "main.rs", false), "material-icons/icons/file.svg");
}

#[test]
fn folder_icons_by_name_and_state() {
    let theme = theme();
    assert_eq!(folder_icon(Some(&theme), "SRC", false, false), "material-icons/icons/folder-src.svg");
    assert_eq!(folder_icon(Some(&theme), "docs", false, false), "material-icons/icons/folder.svg");
    assert_eq!(folder_icon(Some(&theme), "docs", true, true), "material-icons/icons/folder-open.svg");
    assert_eq!(folder_icon(None, "docs", true, false), "material-icons/icons/folder-open.svg");
    assert_eq!(folder_icon(None, "docs", false, false), "material-icons/icons/folder.svg");
}
