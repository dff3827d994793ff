//! Bytes a terminal session receives: key encoding, mouse reports, pastes,
//! plus the grid geometry and link-suffix helpers.
use vstd::prelude::*;

use crate::text::{
    ascii_lower, chars_eq, chars_of, decimal, lower_ascii_char, push_decimal, replace_all,
    replaced,
};

verus! {

/// Modifier keys held during a keystroke.
#[derive(Clone, Copy, Debug, PartialEq, Eq)]
pub struct Modifiers {
    pub control: bool,
    pub alt: bool,
    pub shift: bool,
}

/// A key press: the key's name (`"enter"`, `"up"`, `"a"`, ...) and modifiers.
#[derive(Clone, Debug, PartialEq, Eq)]
pub struct Keystroke {
    pub key: String,
    pub modifiers: Modifiers,
}

pub open spec fn bit(b: bool) -> nat {
    if b {
        1
    } else {
        0
    }
}

/// The xterm modifier parameter: 1 plus shift, alt and control bits.
pub open spec fn modifier_param(m: Modifiers) -> nat {
    1 + bit(m.shift) + 2 * bit(m.alt) + 4 * bit(m.control)
}

pub open spec fn is_modified(m: Modifiers) -> bool {
    m.shift || m.alt || m.control
}

/// Arrow, home and end keys: `CSI 1;m X`, `SS3 X` in application cursor mode,
/// `CSI X` otherwise.
pub open spec fn cursor_key(code: char, m: Modifiers, app_cursor: bool) -> Seq<u8> {
    if is_modified(m) {
        seq![0x1b, 0x5b, 0x31, 0x3b, (48 + modifier_param(m)) as u8, code as u8]
    } else if app_cursor {
        seq![0x1b, 0x4f, code as u8]
    } else {
        seq![0x1b, 0x5b, code as u8]
    }
}

/// Editing and function keys in the `CSI n ~` family.
pub open spec fn tilde_key(code: nat, m: Modifiers) -> Seq<u8> {
    if is_modified(m) {
        seq![0x1b, 0x5b] + decimal(code) + seq![0x3b, (48 + modifier_param(m)) as u8, 0x7e]
    } else {
        seq![0x1b, 0x5b] + decimal(code) + seq![0x7e]
    }
}

/// F1 to F4: `SS3 X`, or `CSI 1;m X` when modified.
pub open spec fn function_key(code: char, m: Modifiers) -> Seq<u8> {
    if is_modified(m) {
        seq![0x1b, 0x5b, 0x31, 0x3b, (48 + modifier_param(m)) as u8, code as u8]
    } else {
        seq![0x1b, 0x4f, code as u8]
    }
}

/// Control plus a single ASCII key.
pub open spec fn control_key(c: char) -> Option<Seq<u8>> {
    let ch = ascii_lower(c);
    if 'a' <= ch <= 'z' {
        Some(seq![((ch as u32) - 96) as u8])
    } else if ch == '[' {
        Some(seq![27u8])
    } else if ch == '\\' {
        Some(seq![28u8])
    } else if ch == ']' {
        Some(seq![29u8])
    } else {
        None
    }
}

/// The PTY bytes for a keystroke, or `None` when the key produces nothing
/// here (printable text arrives through the input method instead).
pub open spec fn encoded(k: Seq<char>, m: Modifiers, app_cursor: bool) -> Option<Seq<u8>> {
    if k == "enter"@ && m.shift {
        Some(seq![0x0au8])
    } else if k == "enter"@ {
        Some(seq![0x0du8])
    } else if k == "tab"@ && m.shift {
        Some(seq![0x1bu8, 0x5b, 0x5a])
    } else if k == "tab"@ {
        Some(seq![0x09u8])
    } else if k == "backspace"@ && m.alt {
        Some(seq![0x1bu8, 0x7f])
    } else if k == "backspace"@ {
        Some(seq![0x7fu8])
    } else if k == "insert"@ {
        Some(tilde_key(2, m))
    } else if k == "delete"@ {
        Some(tilde_key(3, m))
    } else if k == "escape"@ {
        Some(seq![0x1bu8])
    } else if k == "up"@ {
        Some(cursor_key('A', m, app_cursor))
    } else if k == "down"@ {
        Some(cursor_key('B', m, app_cursor))
    } else if k == "right"@ {
        Some(cursor_key('C', m, app_cursor))
    } else if k == "left"@ {
        Some(cursor_key('D', m, app_cursor))
    } else if k == "home"@ {
        Some(cursor_key('H', m, app_cursor))
    } else if k == "end"@ {
        Some(cursor_key('F', m, app_cursor))
    } else if k == "pageup"@ {
        Some(tilde_key(5, m))
    } else if k == "pagedown"@ {
        Some(tilde_key(6, m))
    } else if k == "f1"@ {
        Some(function_key('P', m))
    } else if k == "f2"@ {
        Some(function_key('Q', m))
    } else if k == "f3"@ {
        Some(function_key('R', m))
    } else if k == "f4"@ {
        Some(function_key('S', m))
    } else if k == "f5"@ {
        Some(tilde_key(15, m))
    } else if k == "f6"@ {
        Some(tilde_key(17, m))
    } else if k == "f7"@ {
        Some(tilde_key(18, m))
    } else if k == "f8"@ {
        Some(tilde_key(19, m))
    } else if k == "f9"@ {
        Some(tilde_key(20, m))
    } else if k == "f10"@ {
        Some(tilde_key(21, m))
    } else if k == "f11"@ {
        Some(tilde_key(23, m))
    } else if k == "f12"@ {
        Some(tilde_key(24, m))
    } else if k == "space"@ && m.control {
        Some(seq![0u8])
    } else if m.control && k.len() == 1 && (k[0] as u32) < 128 {
        control_key(k[0])
    } else {
        None
    }
}

fn key_is(k: &[char], name: &str) -> (r: bool)
    ensures
        r == (k@ == name@),
{
    let n = chars_of(name);
    chars_eq(k, &n)
}

fn modifier_byte(m: Modifiers) -> (r: u8)
    ensures
        r == 48 + modifier_param(m),
{
    let mut v: u8 = 49;
    if m.shift {
        v = v + 1;
    }
    if m.alt {
        v = v + 2;
    }
    if m.control {
        v = v + 4;
    }
    v
}

fn cursor_bytes(code: char, m: Modifiers, app_cursor: bool) -> (r: Vec<u8>)
    requires
        (code as u32) < 128,
    ensures
        r@ == cursor_key(code, m, app_cursor),
{
    let c = code as u8;
    if m.shift || m.alt || m.control {
        vec![0x1b, 0x5b, 0x31, 0x3b, modifier_byte(m), c]
    } else if app_cursor {
        vec![0x1b, 0x4f, c]
    } else {
        vec![0x1b, 0x5b, c]
    }
}

fn tilde_bytes(code: u64, m: Modifiers) -> (r: Vec<u8>)
    ensures
        r@ == tilde_key(code as nat, m),
{
    let mut out: Vec<u8> = vec![0x1b, 0x5b];
    push_decimal(&mut out, code);
    if m.shift || m.alt || m.control {
        out.push(0x3b);
        out.push(modifier_byte(m));
    }
    out.push(0x7e);
    proof {
        if is_modified(m) {
            assert(out@ =~= tilde_key(code as nat, m));
        } else {
            assert(out@ =~= tilde_key(code as nat, m));
        }
    }
    out
}

fn function_bytes(code: char, m: Modifiers) -> (r: Vec<u8>)
    requires
        (code as u32) < 128,
    ensures
        r@ == function_key(code, m),
{
    let c = code as u8;
    if m.shift || m.alt || m.control {
        vec![0x1b, 0x5b, 0x31, 0x3b, modifier_byte(m), c]
    } else {
        vec![0x1b, 0x4f, c]
    }
}

/// Encodes a keystroke for the PTY. `app_cursor` is the terminal's
/// application cursor mode.
pub fn encode(keystroke: &Keystroke, app_cursor: bool) -> (r: Option<Vec<u8>>)
    ensures
        match r {
            Some(bytes) => encoded(keystroke.key@, keystroke.modifiers, app_cursor) == Some(
                bytes@,
            ),
            None => encoded(keystroke.key@, keystroke.modifiers, app_cursor) is None,
        },
{
    let m = keystroke.modifiers;
    let k = chars_of(keystroke.key.as_str());
    if key_is(&k, "enter") && m.shift {
        Some(vec![0x0a])
    } else if key_is(&k, "enter") {
        Some(vec![0x0d])
    } else if key_is(&k, "tab") && m.shift {
        Some(vec![0x1b, 0x5b, 0x5a])
    } else if key_is(&k, "tab") {
        Some(vec![0x09])
    } else if key_is(&k, "backspace") && m.alt {
        Some(vec![0x1b, 0x7f])
    } else if key_is(&k, "backspace") {
        Some(vec![0x7f])
    } else if key_is(&k, "insert") {
        Some(tilde_bytes(2, m))
    } else if key_is(&k, "delete") {
        Some(tilde_bytes(3, m))
    } else if key_is(&k, "escape") {
        Some(vec![0x1b])
    } else if key_is(&k, "up") {
        Some(cursor_bytes('A', m, app_cursor))
    } else if key_is(&k, "down") {
        Some(cursor_bytes('B', m, app_cursor))
    } else if key_is(&k, "right") {
        Some(cursor_bytes('C', m, app_cursor))
    } else if key_is(&k, "left") {
        Some(cursor_bytes('D', m, app_cursor))
    } else if key_is(&k, "home") {
        Some(cursor_bytes('H', m, app_cursor))
    } else if key_is(&k, "end") {
        Some(cursor_bytes('F', m, app_cursor))
    } else if key_is(&k, "pageup") {
        Some(tilde_bytes(5, m))
    } else if key_is(&k, "pagedown") {
        Some(tilde_bytes(6, m))
    } else if key_is(&k, "f1") {
        Some(function_bytes('P', m))
    } else if key_is(&k, "f2") {
        Some(function_bytes('Q', m))
    } else if key_is(&k, "f3") {
        Some(function_bytes('R', m))
    } else if key_is(&k, "f4") {
        Some(function_bytes('S', m))
    } else if key_is(&k, "f5") {
        Some(tilde_bytes(15, m))
    } else if key_is(&k, "f6") {
        Some(tilde_bytes(17, m))
    } else if key_is(&k, "f7") {
        Some(tilde_bytes(18, m))
    } else if key_is(&k, "f8") {
        Some(tilde_bytes(19, m))
    } else if key_is(&k, "f9") {
        Some(tilde_bytes(20, m))
    } else if key_is(&k, "f10") {
        Some(tilde_bytes(21, m))
    } else if key_is(&k, "f11") {
        Some(tilde_bytes(23, m))
    } else if key_is(&k, "f12") {
        Some(tilde_bytes(24, m))
    } else if key_is(&k, "space") && m.control {
        Some(vec![0])
    } else if m.control && k.len() == 1 && (k[0] as u32) < 128 {
        let ch = lower_ascii_char(k[0]);
        if 'a' <= ch && ch <= 'z' {
            let v = (ch as u32 - 96) as u8;
            Some(vec![v])
        } else if ch == '[' {
            Some(vec![27])
        } else if ch == '\\' {
            Some(vec![28])
        } else if ch == ']' {
            Some(vec![29])
        } else {
            None
        }
    } else {
        None
    }
}

/// `str::replace` applied to a paste: the text the PTY receives. With
/// bracketed paste the body is wrapped in `ESC[200~ .. ESC[201~` and any
/// embedded end marker is removed; otherwise `\r\n` and `\n` become `\r`.
pub open spec fn paste_text(text: Seq<char>, bracketed: bool) -> Seq<char> {
    if bracketed {
        seq!['\x1b', '[', '2', '0', '0', '~'] + replaced(
            text,
            seq!['\x1b', '[', '2', '0', '1', '~'],
            seq![],
        ) + seq!['\x1b', '[', '2', '0', '1', '~']
    } else {
        replaced(replaced(text, seq!['\r', '\n'], seq!['\r']), seq!['\n'], seq!['\r'])
    }
}

/// The payload written to the PTY for pasted text.
pub fn paste_payload(text: &str, bracketed: bool) -> (r: String)
    ensures
        r@ == paste_text(text@, bracketed),
{
    let t = chars_of(text);
    if bracketed {
        let end_marker: Vec<char> = vec!['\x1b', '[', '2', '0', '1', '~'];
        let empty: Vec<char> = Vec::new();
        assert(end_marker@ == seq!['\x1b', '[', '2', '0', '1', '~']);
        assert(empty@ =~= seq![]);
        let body = replace_all(&t, &end_marker, &empty);
        let mut out: Vec<char> = vec!['\x1b', '[', '2', '0', '0', '~'];
        assert(out@ == seq!['\x1b', '[', '2', '0', '0', '~']);
        crate::text::append_chars(&mut out, &body);
        crate::text::append_chars(&mut out, &end_marker);
        assert(out@ =~= paste_text(text@, bracketed));
        crate::text::string_of(&out)
    } else {
        let crlf: Vec<char> = vec!['\r', '\n'];
        let lf: Vec<char> = vec!['\n'];
        let cr: Vec<char> = vec!['\r'];
        assert(crlf@ == seq!['\r', '\n']);
        assert(lf@ == seq!['\n']);
        assert(cr@ == seq!['\r']);
        let once = replace_all(&t, &crlf, &cr);
        let twice = replace_all(&once, &lf, &cr);
        assert(twice@ =~= paste_text(text@, bracketed));
        crate::text::string_of(&twice)
    }
}

/// Which mouse button was pressed.
#[derive(Clone, Copy, Debug, PartialEq, Eq)]
pub enum MouseButton {
    Left,
    Middle,
    Right,
    Navigate,
}

/// The xterm button code of a mouse button; navigation buttons have none.
pub fn mouse_button_code(button: MouseButton) -> (r: Option<u8>)
    ensures
        r == match button {
            MouseButton::Left => Some(0u8),
            MouseButton::Middle => Some(1u8),
            MouseButton::Right => Some(2u8),
            MouseButton::Navigate => None::<u8>,
        },
{
    match button {
        MouseButton::Left => Some(0),
        MouseButton::Middle => Some(1),
        MouseButton::Right => Some(2),
        MouseButton::Navigate => None,
    }
}

/// How the terminal wants mouse reports encoded.
#[derive(Clone, Copy, Debug, PartialEq, Eq)]
pub struct MouseEncoding {
    /// SGR (`CSI < b;x;y M`) reports.
    pub sgr: bool,
    /// UTF-8 extended coordinates.
    pub utf8: bool,
}

/// The button byte with modifier and motion bits added.
pub open spec fn report_button(button: u8, m: Modifiers, motion: bool) -> nat {
    button as nat + 4 * bit(m.shift) + 8 * bit(m.alt) + 16 * bit(m.control) + 32 * bit(motion)
}

pub open spec fn sat_add_one(v: usize) -> nat {
    if v == usize::MAX {
        v as nat
    } else {
        (v + 1) as nat
    }
}

/// UTF-8 bytes of a code point below 0x800.
pub open spec fn utf8_small(v: int) -> Seq<u8> {
    if v < 0x80 {
        seq![v as u8]
    } else {
        seq![(0xC0 + v / 64) as u8, (0x80 + v % 64) as u8]
    }
}

pub open spec fn min_nat(a: int, b: int) -> int {
    if a < b {
        a
    } else {
        b
    }
}

/// The mouse report for a cell (0-based column and row).
pub open spec fn mouse_bytes(
    enc: MouseEncoding,
    col: usize,
    row: usize,
    button: u8,
    release: bool,
    motion: bool,
    m: Modifiers,
) -> Seq<u8> {
    let b = report_button(button, m, motion);
    let x = sat_add_one(col);
    let y = sat_add_one(row);
    let bi = b as int;
    let xi = x as int;
    let yi = y as int;
    if enc.sgr {
        seq![0x1b, 0x5b, 0x3c] + decimal(b) + seq![0x3b] + decimal(x) + seq![0x3b] + decimal(y)
            + seq![if release { 0x6du8 } else { 0x4du8 }]
    } else {
        let b2: int = if release {
            3
        } else {
            bi
        };
        if enc.utf8 {
            seq![0x1b, 0x5b, 0x4d] + utf8_small(min_nat(b2 + 32, 0x7ff)) + utf8_small(
                min_nat(xi + 32, 0x7ff),
            ) + utf8_small(min_nat(yi + 32, 0x7ff))
        } else {
            seq![
                0x1b,
                0x5b,
                0x4d,
                min_nat(b2 + 32, 255) as u8,
                (min_nat(xi, 223) + 32) as u8,
                (min_nat(yi, 223) + 32) as u8,
            ]
        }
    }
}

fn push_small_utf8(out: &mut Vec<u8>, v: u32)
    requires
        v < 0x800,
    ensures
        final(out)@ == old(out)@ + utf8_small(v as int),
{
    if v < 0x80 {
        out.push(v as u8);
    } else {
        out.push((0xC0 + v / 64) as u8);
        out.push((0x80 + v % 64) as u8);
    }
    assert(out@ =~= old(out)@ + utf8_small(v as int));
}

/// Encodes one mouse event for the PTY. Button codes above 195 would
/// overflow the modifier arithmetic, and UTF-8 coordinates must stay below
/// `u32::MAX - 32`.
pub fn mouse_report(
    enc: MouseEncoding,
    col: usize,
    row: usize,
    button: u8,
    release: bool,
    motion: bool,
    modifiers: Modifiers,
) -> (r: Vec<u8>)
    requires
        button <= 195,
        !enc.sgr && enc.utf8 ==> col < 0xFFFF_FF00 && row < 0xFFFF_FF00,
    ensures
        r@ == mouse_bytes(enc, col, row, button, release, motion, modifiers),
{
    let mut b: u8 = button;
    if modifiers.shift {
        b = b + 4;
    }
    if modifiers.alt {
        b = b + 8;
    }
    if modifiers.control {
        b = b + 16;
    }
    if motion {
        b = b + 32;
    }
    assert(b == report_button(button, modifiers, motion));
    let x = col.saturating_add(1);
    let y = row.saturating_add(1);
    if enc.sgr {
        sgr_report(b, x, y, release)
    } else {
        let b2: u8 = if release {
            3
        } else {
            b
        };
        if enc.utf8 {
            utf8_report(b2, x, y)
        } else {
            legacy_report(b2, x, y)
        }
    }
}

fn sgr_report(b: u8, x: usize, y: usize, release: bool) -> (r: Vec<u8>)
    ensures
        r@ == seq![0x1bu8, 0x5b, 0x3c] + decimal(b as nat) + seq![0x3bu8] + decimal(x as nat)
            + seq![0x3bu8] + decimal(y as nat) + seq![if release { 0x6du8 } else { 0x4du8 }],
{
    let mut out: Vec<u8> = vec![0x1b, 0x5b, 0x3c];
    push_decimal(&mut out, b as u64);
    out.push(0x3b);
    push_decimal(&mut out, x as u64);
    out.push(0x3b);
    push_decimal(&mut out, y as u64);
    out.push(if release {
        0x6d
    } else {
        0x4d
    });
    assert(out@ =~= seq![0x1bu8, 0x5b, 0x3c] + decimal(b as nat) + seq![0x3bu8] + decimal(x as nat)
        + seq![0x3bu8] + decimal(y as nat) + seq![if release { 0x6du8 } else { 0x4du8 }]);
    out
}

fn utf8_report(b: u8, x: usize, y: usize) -> (r: Vec<u8>)
    requires
        x <= 0xFFFF_FF00,
        y <= 0xFFFF_FF00,
    ensures
        r@ == seq![0x1bu8, 0x5b, 0x4d] + utf8_small(min_nat(b + 32, 0x7ff)) + utf8_small(
            min_nat(x + 32, 0x7ff),
        ) + utf8_small(min_nat(y + 32, 0x7ff)),
{
    let mut out: Vec<u8> = vec![0x1b, 0x5b, 0x4d];
    let bv = b as u32 + 32;
    let xv = x as u32 + 32;
    let yv = y as u32 + 32;
    push_small_utf8(&mut out, if bv < 0x7ff { bv } else { 0x7ff });
    push_small_utf8(&mut out, if xv < 0x7ff { xv } else { 0x7ff });
    push_small_utf8(&mut out, if yv < 0x7ff { yv } else { 0x7ff });
    assert(out@ =~= seq![0x1bu8, 0x5b, 0x4d] + utf8_small(min_nat(b + 32, 0x7ff)) + utf8_small(
        min_nat(x + 32, 0x7ff),
    ) + utf8_small(min_nat(y + 32, 0x7ff)));
    out
}

fn legacy_report(b: u8, x: usize, y: usize) -> (r: Vec<u8>)
    ensures
        r@ == seq![
            0x1bu8,
            0x5b,
            0x4d,
            min_nat(b + 32, 255) as u8,
            (min_nat(x as int, 223) + 32) as u8,
            (min_nat(y as int, 223) + 32) as u8,
        ],
{
    let xs: usize = if x < 223 {
        x
    } else {
        223
    };
    let ys: usize = if y < 223 {
        y
    } else {
        223
    };
    let out: Vec<u8> = vec![0x1b, 0x5b, 0x4d, b.saturating_add(32), (xs as u8) + 32, (ys as u8) + 32];
    assert(out@ =~= seq![
        0x1bu8,
        0x5b,
        0x4d,
        min_nat(b + 32, 255) as u8,
        (min_nat(x as int, 223) + 32) as u8,
        (min_nat(y as int, 223) + 32) as u8,
    ]);
    out
}

/// Terminal grid geometry.
#[derive(Clone, Copy, Debug, PartialEq, Eq)]
pub struct TermSize {
    pub cols: usize,
    pub lines: usize,
}

impl TermSize {
    /// A grid of at least two columns and one line.
    pub fn clamped(cols: usize, lines: usize) -> (r: TermSize)
        ensures
            r.cols == if cols < 2 {
                2
            } else {
                cols
            },
            r.lines == if lines < 1 {
                1
            } else {
                lines
            },
    {
        TermSize { cols: if cols < 2 { 2 } else { cols }, lines: if lines < 1 { 1 } else { lines } }
    }

    /// The clamped constructor under the name the tests use.
    pub fn for_test(cols: usize, lines: usize) -> (r: TermSize)
        ensures
            r == TermSize::clamped_spec(cols, lines),
    {
        TermSize::clamped(cols, lines)
    }

    pub open spec fn clamped_spec(cols: usize, lines: usize) -> TermSize {
        TermSize {
            cols: if cols < 2 {
                2
            } else {
                cols
            },
            lines: if lines < 1 {
                1
            } else {
                lines
            },
        }
    }
}

} // verus!
