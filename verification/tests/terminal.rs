use rustelier::terminal_input::{
    encode, mouse_button_code, mouse_report, paste_payload, Keystroke, Modifiers, MouseButton,
    MouseEncoding, TermSize,
};
use rustelier::terminal_search::{find_in_lines, plain_link_at, GridMatch, PlainLink, PlainLinkMatch};

fn key(name: &str, control: bool, alt: bool, shift: bool) -> Keystroke {
    Keystroke {
        key: name.to_string(),
        modifiers: Modifiers { control, alt, shift },
    }
}

#[test]
fn plain_keys_encode_to_their_control_bytes() {
    assert_eq!(encode(&key("enter", false, false, false), false), Some(b"\r".to_vec()));
    assert_eq!(encode(&key("enter", false, false, true), false), Some(b"\n".to_vec()));
    assert_eq!(encode(&key("tab", false, false, true), false), Some(b"\x1b[Z".to_vec()));
    assert_eq!(encode(&key("backspace", false, true, false), false), Some(b"\x1b\x7f".to_vec()));
    assert_eq!(encode(&key("escape", false, false, false), false), Some(b"\x1b".to_vec()));
}

#[test]
fn cursor_keys_follow_modifiers_and_application_mode() {
    assert_eq!(encode(&key("up", false, false, false), false), Some(b"\x1b[A".to_vec()));
    assert_eq!(encode(&key("up", false, false, false), true), Some(b"\x1bOA".to_vec()));
    assert_eq!(encode(&key("up", false, false, true), true), Some(b"\x1b[1;2A".to_vec()));
    assert_eq!(encode(&key("left", true, true, true), false), Some(b"\x1b[1;8D".to_vec()));
}

#[test]
fn tilde_and_function_keys() {
    assert_eq!(encode(&key("delete", false, false, false), false), Some(b"\x1b[3~".to_vec()));
    assert_eq!(encode(&key("pageup", true, false, false), false), Some(b"\x1b[5;5~".to_vec()));
    assert_eq!(encode(&key("f1", false, false, false), false), Some(b"\x1bOP".to_vec()));
    assert_eq!(encode(&key("f12", false, false, false), false), Some(b"\x1b[24~".to_vec()));
}

#[test]
fn control_letters_and_printable_text() {
    assert_eq!(encode(&key("c", true, false, false), false), Some(vec![3]));
    assert_eq!(encode(&key("A", true, false, false), false), Some(vec![1]));
    assert_eq!(encode(&key("[", true, false, false), false), Some(vec![27]));
    assert_eq!(encode(&key("space", true, false, false), false), Some(vec![0]));
    assert_eq!(encode(&key("1", true, false, false), false), None);
    assert_eq!(encode(&key("a", false, false, false), false), None);
}

#[test]
fn pasted_text_is_bracketed_or_carriage_returned() {
    assert_eq!(paste_payload("a\nb", true), "\x1b[200~a\nb\x1b[201~");
    assert_eq!(paste_payload("a\r\nb\nc", false), "a\rb\rc");
    assert_eq!(paste_payload("x\x1b[201~y", true), "\x1b[200~xy\x1b[201~");
}

#[test]
fn mouse_reports_in_each_encoding() {
    let none = Modifiers {
        control: false,
        alt: false,
        shift: false,
    };
    let sgr = MouseEncoding {
        sgr: true,
        utf8: false,
    };
    let normal = MouseEncoding {
        sgr: false,
        utf8: false,
    };
    assert_eq!(mouse_report(sgr, 4, 9, 0, false, false, none), b"\x1b[<0;5;10M".to_vec());
    assert_eq!(mouse_report(sgr, 4, 9, 0, true, false, none), b"\x1b[<0;5;10m".to_vec());
    assert_eq!(
        mouse_report(normal, 0, 0, 2, false, false, none),
        vec![0x1b, b'[', b'M', 34, 33, 33]
    );
    assert_eq!(
        mouse_report(normal, 500, 0, 0, true, false, none),
        vec![0x1b, b'[', b'M', 35, 255, 33]
    );
    assert_eq!(mouse_button_code(MouseButton::Right), Some(2));
    assert_eq!(mouse_button_code(MouseButton::Navigate), None);
}

#[test]
fn terminal_size_is_clamped() {
    let size = TermSize::clamped(0, 0);
    assert_eq!((size.cols, size.lines), (2, 1));
    let size = TermSize::for_test(80, 24);
    assert_eq!((size.cols, size.lines), (80, 24));
}

#[test]
fn search_is_case_insensitive_without_capitals() {
    let lines = vec![(0, "Foo foo".to_string()), (3, "é foo".to_string())];
    assert_eq!(
        find_in_lines(&lines, "foo"),
        vec![
            GridMatch { line: 0, start: 0, end: 3 },
            GridMatch { line: 0, start: 4, end: 7 },
            GridMatch { line: 3, start: 2, end: 5 },
        ]
    );
    assert_eq!(
        find_in_lines(&lines, "Foo"),
        vec![GridMatch { line: 0, start: 0, end: 3 }]
    );
    assert!(find_in_lines(&lines, "").is_empty());
}

#[test]
fn links_under_a_cell() {
    assert_eq!(
        plain_link_at("see (https://x.io/a).", 8),
        Some(PlainLinkMatch {
            start: 5,
            end: 19,
            target: PlainLink::Url("https://x.io/a".to_string()),
        })
    );
    assert_eq!(
        plain_link_at("open src/main.rs now", 6),
        Some(PlainLinkMatch {
            start: 5,
            end: 16,
            target: PlainLink::Path("src/main.rs".to_string()),
        })
    );
    assert_eq!(plain_link_at("plain word", 2), None);
    assert_eq!(plain_link_at("a b", 1), None);
    assert_eq!(plain_link_at("ab", 5), None);
}
