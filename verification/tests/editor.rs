use rustelier::editor::{
    byte_to_col, col_to_byte, ordered, token_range, EditorBuffer, TokenClicks, DOUBLE_CLICK_NANOS,
};

fn buffer(text: &str) -> EditorBuffer {
    EditorBuffer::new(text)
}

#[test]
fn columns_and_bytes() {
    assert_eq!(col_to_byte("héllo", 2), 3);
    assert_eq!(col_to_byte("héllo", 9), 6);
    assert_eq!(byte_to_col("héllo", 3), 2);
    assert_eq!(byte_to_col("héllo", 2), 2);
    assert_eq!(ordered((2, 0), (1, 5)), ((1, 5), (2, 0)));
    assert_eq!(ordered((1, 1), (1, 5)), ((1, 1), (1, 5)));
}

#[test]
fn tokens_grow_from_the_caret() {
    assert_eq!(token_range("let foo_bar = 1;", 6), Some(4..11));
    assert_eq!(token_range("let foo_bar = 1;", 10), Some(4..11));
    assert_eq!(token_range("let foo_bar = 1;", 11), None);
    assert_eq!(token_range("a.b", 1), Some(2..3));
    assert_eq!(token_range("a. ", 1), Some(0..1));
    assert_eq!(token_range("a b", 1), None);
    assert_eq!(token_range("abc", 99), Some(0..3));
    assert_eq!(token_range("", 0), None);
}

#[test]
fn typing_and_newlines() {
    let mut b = buffer("hello\nworld");
    assert_eq!(b.line_count(), 2);
    b.move_cursor("end", false);
    b.insert("!");
    assert_eq!(b.text(), "hello!\nworld");
    assert_eq!(b.cursor(), (0, 6));
    b.insert("a\nb");
    assert_eq!(b.text(), "hello!a\nb\nworld");
    assert_eq!(b.cursor(), (1, 1));
    assert_eq!(b.cursor_line(), 2);
    b.newline();
    assert_eq!(b.text(), "hello!a\nb\n\nworld");
    assert_eq!(b.cursor(), (2, 0));
}

#[test]
fn backspace_removes_a_character_or_joins_lines() {
    let mut b = buffer("hé\nx");
    b.move_cursor("end", false);
    b.backspace();
    assert_eq!(b.text(), "h\nx");
    assert_eq!(b.cursor(), (0, 1));
    b.move_cursor("down", false);
    assert_eq!(b.cursor(), (1, 1));
    b.move_cursor("home", false);
    b.backspace();
    assert_eq!(b.text(), "hx");
    assert_eq!(b.cursor(), (0, 1));
}

#[test]
fn caret_moves_step_over_characters_and_wrap() {
    let mut b = buffer("aé\nbc");
    b.move_cursor("right", false);
    b.move_cursor("right", false);
    assert_eq!(b.cursor(), (0, 3));
    b.move_cursor("right", false);
    assert_eq!(b.cursor(), (1, 0));
    b.move_cursor("left", false);
    assert_eq!(b.cursor(), (0, 3));
    b.move_cursor("left", false);
    assert_eq!(b.cursor(), (0, 1));
    b.move_cursor("up", false);
    assert_eq!(b.cursor(), (0, 1));
    b.move_cursor("down", false);
    assert_eq!(b.cursor(), (1, 1));
}

#[test]
fn selections_copy_and_delete() {
    let mut b = buffer("one\ntwo\nthree");
    b.move_cursor("right", false);
    b.move_cursor("down", true);
    b.move_cursor("down", true);
    assert_eq!(b.selection(), Some(((0, 1), (2, 1))));
    assert_eq!(b.selected_string(), Some("ne\ntwo\nt".to_string()));
    assert!(b.delete_selection());
    assert_eq!(b.text(), "ohree");
    assert_eq!(b.cursor(), (0, 1));
    assert!(!b.delete_selection());
}

#[test]
fn select_all_copies_the_document() {
    let mut b = buffer("a\nbc");
    b.select_all();
    assert_eq!(b.selected_string(), Some("a\nbc".to_string()));
    assert_eq!(b.apply_key("x", false, true), Some("a\nbc".to_string()));
    assert_eq!(b.text(), "");
}

#[test]
fn keys_dispatch_to_edits() {
    let mut b = buffer("ab");
    b.apply_key("end", false, false);
    b.apply_key("tab", false, false);
    assert_eq!(b.text(), "ab    ");
    b.apply_key("enter", false, false);
    b.apply_key("backspace", false, false);
    assert_eq!(b.text(), "ab    ");
    b.apply_key("home", true, false);
    assert_eq!(b.apply_key("c", false, true), Some("ab    ".to_string()));
    assert_eq!(b.apply_key("q", false, false), None);
}

#[test]
fn double_clicks_select_tokens_and_clicks_collapse() {
    let mut b = buffer("let value = 1;");
    assert!(!b.press(0, 6, true));
    assert_eq!(b.selection(), Some(((0, 4), (0, 9))));
    assert!(b.press(0, 2, false));
    b.release();
    assert_eq!(b.anchor(), None);
    assert!(b.press(0, 0, false));
    b.drag_to(0, 3);
    b.release();
    assert_eq!(b.selected_string(), Some("let".to_string()));
    b.reveal_line(9);
    assert_eq!(b.cursor(), (0, 0));
    assert_eq!(b.line(0), "let value = 1;");
}

#[test]
fn two_single_clicks_on_a_token_make_a_double_click() {
    let mut c = TokenClicks::new();
    assert!(!c.click(1_000, 3, Some((4, 9)), 1));
    assert!(c.click(1_000 + DOUBLE_CLICK_NANOS, 3, Some((4, 9)), 1));
    // A double click forgets, so the next single click starts over.
    assert!(!c.click(2_000_000_000, 3, Some((4, 9)), 1));
    assert!(!c.click(2_000_000_000 + DOUBLE_CLICK_NANOS + 1, 3, Some((4, 9)), 1));
    assert!(!c.click(4_000_000_000, 2, Some((4, 9)), 1));
    assert!(!c.click(4_000_000_001, 3, Some((4, 9)), 1));
    assert!(c.click(0, 3, Some((0, 1)), 2));
    assert!(!c.click(5, 3, None, 1));
    assert!(!c.click(6, 3, Some((0, 1)), 1));
}

#[test]
fn keys_are_checked_before_they_edit() {
    let mut b = buffer("héllo\nworld");
    assert!(b.key_allowed("enter", false));
    assert!(b.key_allowed("tab", false));
    assert!(b.can_insert("a\nb"));
    b.press(0, 2, false);
    b.release();
    assert!(!b.key_allowed("backspace", false));
    assert!(!b.key_allowed("enter", false));
    assert!(!b.key_allowed("tab", false));
    assert!(!b.can_insert_flat("x"));
    assert!(b.key_allowed("left", false));
    b.press(0, 3, false);
    b.release();
    assert!(b.key_allowed("backspace", false));
    assert!(b.can_newline());
    assert!(b.can_delete());
}
