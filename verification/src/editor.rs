//! The source editor's text model: a buffer of lines, one caret given as a
//! row and a byte offset into its line, and an optional selection anchor.
//! Every edit, caret move and selection read of the editor lives here; the
//! window layer maps clicks and keys onto these calls.
use vstd::prelude::*;

use crate::markdown::join_with;
use crate::paths::views;
use crate::text::{
    alphanumeric_char, append_chars, byte_len, byte_length, byte_offset, byte_offsets, byte_slice,
    chars_before, chars_of, count_chars_before, get_byte_range, is_alphanumeric, is_boundary,
    is_whitespace, lemma_byte_len_concat, lemma_byte_offset_monotone, lemma_byte_offset_step,
    lemma_chars_before, slice_chars, split_char, split_on, string_of, whitespace,
};

verus! {

/// Character `k` of `s` starts strictly after character `j` for `j < k`.
pub proof fn lemma_offset_strict(s: Seq<char>, j: int, k: int)
    requires
        0 <= j < k <= s.len(),
    ensures
        byte_offset(s, j) < byte_offset(s, k),
{
    lemma_byte_offset_step(s, j);
    lemma_byte_offset_monotone(s, j + 1, k);
}

/// The start of every character, and the end, are boundaries, and the
/// characters before them are exactly the ones counted.
pub proof fn lemma_boundary_at(s: Seq<char>, k: int)
    requires
        0 <= k <= s.len(),
    ensures
        chars_before(s, byte_offset(s, k) as int) == k,
        is_boundary(s, byte_offset(s, k) as int),
{
    let b = byte_offset(s, k) as int;
    assert forall|j: int| 0 <= j < k implies byte_offset(s, j) < b by {
        lemma_offset_strict(s, j, k);
    }
    lemma_chars_before(s, b, k);
    lemma_byte_offset_monotone(s, k, s.len() as int);
    assert(s.take(s.len() as int) =~= s);
}

/// Byte offset of the `col`-th character of `line`, or the line's end when
/// it has fewer characters.
pub open spec fn col_byte(line: Seq<char>, col: int) -> nat {
    byte_offset(line, if col < line.len() {
        col
    } else {
        line.len() as int
    })
}

/// The byte offset of column `col` of a line, clamped to its end.
pub fn col_to_byte(line: &str, col: usize) -> (r: usize)
    requires
        byte_len(line@) <= usize::MAX,
    ensures
        r == col_byte(line@, col as int),
{
    let s = chars_of(line);
    let offsets = byte_offsets(&s);
    let k = if col < s.len() {
        col
    } else {
        s.len()
    };
    proof {
        lemma_byte_offset_monotone(s@, k as int, s@.len() as int);
        assert(s@.take(s@.len() as int) =~= s@);
    }
    offsets[k] as usize
}

/// The column of byte offset `byte` in a line: how many characters start
/// before it.
pub fn byte_to_col(line: &str, byte: usize) -> (r: usize)
    ensures
        r == chars_before(line@, byte as int),
{
    let s = chars_of(line);
    count_chars_before(&s, byte as u128)
}

/// Whether position `a` comes no later than `b`: by row, then by byte.
pub open spec fn position_le(a: (usize, usize), b: (usize, usize)) -> bool {
    a.0 < b.0 || (a.0 == b.0 && a.1 <= b.1)
}

/// Two positions, earlier first.
pub fn ordered(a: (usize, usize), b: (usize, usize)) -> (r: ((usize, usize), (usize, usize)))
    ensures
        r == (if position_le(a, b) {
            (a, b)
        } else {
            (b, a)
        }),
{
    if a.0 < b.0 || (a.0 == b.0 && a.1 <= b.1) {
        (a, b)
    } else {
        (b, a)
    }
}

/// Characters that make up an identifier token.
pub open spec fn token_char(c: char) -> bool {
    alphanumeric_char(c) || c == '_'
}

fn is_token_char(c: char) -> (r: bool)
    ensures
        r == token_char(c),
{
    is_alphanumeric(c) || c == '_'
}

/// The character a byte offset falls in, or the end: the index of the
/// character boundary at or before `b`.
pub open spec fn boundary_index(s: Seq<char>, b: int) -> int {
    if b >= byte_len(s) {
        s.len() as int
    } else {
        chars_before(s, b + 1) - 1
    }
}

/// The character a token is grown from, for a caret before character `j`:
/// that character when it belongs to a token, none on whitespace; on
/// punctuation the token to its right, else the one to its left.
pub open spec fn token_seed(s: Seq<char>, j: int) -> Option<int> {
    if j < s.len() {
        if token_char(s[j]) {
            Some(j)
        } else if whitespace(s[j]) {
            None
        } else if j + 1 < s.len() && token_char(s[j + 1]) {
            Some(j + 1)
        } else if j > 0 && token_char(s[j - 1]) {
            Some(j - 1)
        } else {
            None
        }
    } else if j > 0 && token_char(s[j - 1]) {
        Some(j - 1)
    } else {
        None
    }
}

/// The first character of the token run that ends before `k`.
pub open spec fn run_back(s: Seq<char>, k: int) -> int
    decreases k,
{
    if 0 < k <= s.len() && token_char(s[k - 1]) {
        run_back(s, k - 1)
    } else {
        k
    }
}

/// The end of the token run that starts at `k`.
pub open spec fn run_fwd(s: Seq<char>, k: int) -> int
    decreases s.len() - k,
{
    if 0 <= k < s.len() && token_char(s[k]) {
        run_fwd(s, k + 1)
    } else {
        k
    }
}

/// The byte range of the identifier token touching byte `b` of `s`.
pub open spec fn token_of(s: Seq<char>, b: int) -> Option<(int, int)> {
    match token_seed(s, boundary_index(s, b)) {
        None => None,
        Some(seed) => Some(
            (byte_offset(s, run_back(s, seed)) as int, byte_offset(s, run_fwd(s, seed)) as int),
        ),
    }
}

proof fn lemma_runs_bounded(s: Seq<char>, k: int)
    requires
        0 <= k <= s.len(),
    ensures
        0 <= run_back(s, k) <= k,
        k <= run_fwd(s, k) <= s.len(),
    decreases s.len() - k,
{
    lemma_run_back_bounded(s, k);
    if k < s.len() && token_char(s[k]) {
        lemma_runs_bounded(s, k + 1);
    }
}

proof fn lemma_run_back_bounded(s: Seq<char>, k: int)
    requires
        0 <= k <= s.len(),
    ensures
        0 <= run_back(s, k) <= k,
    decreases k,
{
    if 0 < k && token_char(s[k - 1]) {
        lemma_run_back_bounded(s, k - 1);
    }
}

/// The identifier token touching `byte` in a line: the caret's own token,
/// or on punctuation the token to its right, else to its left; none on
/// whitespace or between punctuation.
pub fn token_range(line: &str, byte: usize) -> (r: Option<std::ops::Range<usize>>)
    requires
        byte_len(line@) <= usize::MAX,
    ensures
        match token_of(line@, byte as int) {
            Some((a, b)) => r matches Some(x) && x.start == a && x.end == b,
            None => r is None,
        },
{
    let s = chars_of(line);
    let offsets = byte_offsets(&s);
    let n = s.len();
    let total = offsets[n];
    assert(s@.take(n as int) =~= s@);
    let j: usize = if (byte as u128) >= total {
        n
    } else {
        proof {
            crate::text::lemma_chars_before_bounds(s@, byte + 1, byte + 1);
            assert(byte_offset(s@, 0) == 0);
            assert(chars_before(s@, byte + 1) >= 1) by {
                if s@.len() > 0 {
                    assert(s@.take(0) =~= Seq::<char>::empty());
                    crate::text::lemma_chars_before_bounds(s@, 1, byte + 1);
                    lemma_chars_before_one(s@);
                }
            }
        }
        count_chars_before(&s, (byte as u128) + 1) - 1
    };
    assert(j as int == boundary_index(s@, byte as int));
    let seed: usize = if j < n {
        if is_token_char(s[j]) {
            j
        } else if is_whitespace(s[j]) {
            return None;
        } else if j + 1 < n && is_token_char(s[j + 1]) {
            j + 1
        } else if j > 0 && is_token_char(s[j - 1]) {
            j - 1
        } else {
            return None;
        }
    } else if j > 0 && is_token_char(s[j - 1]) {
        j - 1
    } else {
        return None;
    };
    let mut start = seed;
    while start > 0 && is_token_char(s[start - 1])
        invariant
            start <= seed < n,
            n == s@.len(),
            run_back(s@, start as int) == run_back(s@, seed as int),
        decreases start,
    {
        start -= 1;
    }
    let mut end = seed;
    while end < n && is_token_char(s[end])
        invariant
            seed <= end <= n,
            n == s@.len(),
            run_fwd(s@, end as int) == run_fwd(s@, seed as int),
        decreases n - end,
    {
        end += 1;
    }
    proof {
        lemma_byte_offset_monotone(s@, start as int, n as int);
        lemma_byte_offset_monotone(s@, end as int, n as int);
    }
    Some((offsets[start] as usize)..(offsets[end] as usize))
}

/// The first character always starts before byte 1.
proof fn lemma_chars_before_one(s: Seq<char>)
    requires
        s.len() > 0,
    ensures
        chars_before(s, 1) >= 1,
{
    assert forall|j: int| 0 <= j < 1 implies byte_offset(s, j) < 1 by {
        assert(s.take(0) =~= Seq::<char>::empty());
    }
    crate::text::lemma_chars_before_bounds(s, 1, 1);
    if chars_before(s, 1) == 0 {
        lemma_count_first(s);
    }
}

proof fn lemma_count_first(s: Seq<char>)
    requires
        s.len() > 0,
    ensures
        chars_before(s, 1) >= 1,
    decreases s.len(),
{
    if s.len() == 1 {
        assert(s.drop_last() =~= Seq::<char>::empty());
    } else {
        lemma_count_first(s.drop_last());
        crate::text::lemma_chars_before_bounds(s.drop_last(), 1, 1);
    }
}


/// The editor's text and caret as contracts see them: the lines, the
/// caret's row and byte offset, and the selection anchor.
pub struct BufferState {
    pub lines: Seq<Seq<char>>,
    pub row: usize,
    pub byte: usize,
    pub anchor: Option<(usize, usize)>,
}

/// A line buffer with one caret and an optional selection anchor. The
/// caret is a row and a byte offset into that row's line; the selection
/// runs from the anchor to the caret.
pub struct EditorBuffer {
    lines: Vec<Vec<char>>,
    cursor_row: usize,
    cursor_byte: usize,
    anchor: Option<(usize, usize)>,
}

impl View for EditorBuffer {
    type V = BufferState;

    closed spec fn view(&self) -> BufferState {
        BufferState {
            lines: views(self.lines@),
            row: self.cursor_row,
            byte: self.cursor_byte,
            anchor: self.anchor,
        }
    }
}

/// What every buffer keeps: at least one line (and no more than `usize`
/// counts), the caret on one of them, and every line's byte length within
/// `usize`.
pub open spec fn state_ok(s: BufferState) -> bool {
    &&& 1 <= s.lines.len() <= usize::MAX
    &&& s.row < s.lines.len()
    &&& forall|i: int| 0 <= i < s.lines.len() ==> byte_len(#[trigger] s.lines[i]) <= usize::MAX
}

/// Every piece of a split is no longer in bytes than the whole.
proof fn lemma_split_pieces_fit(t: Seq<char>, c: char)
    ensures
        forall|k: int|
            0 <= k < split_on(t, c).len() ==> byte_len(#[trigger] split_on(t, c)[k]) <= byte_len(t),
    decreases t.len(),
{
    if t.len() > 0 {
        let d = t.drop_last();
        lemma_split_pieces_fit(d, c);
        crate::text::lemma_split_on_nonempty(d, c);
        let r = split_on(d, c);
        assert(byte_len(t) == byte_len(d) + crate::text::char_width(t.last()));
        if t.last() != c {
            lemma_byte_len_concat(r.last(), seq![t.last()]);
            assert(r.last().push(t.last()) =~= r.last() + seq![t.last()]);
            assert(byte_len(seq![t.last()]) == crate::text::char_width(t.last())) by {
                assert(seq![t.last()].drop_last() =~= Seq::<char>::empty());
                assert(byte_len(Seq::<char>::empty()) == 0);
            }
        } else {
            assert(byte_len(Seq::<char>::empty()) == 0);
        }
    }
}

/// The selection, earlier end first, when the anchor is set apart from the
/// caret.
pub open spec fn selection_of(s: BufferState) -> Option<((usize, usize), (usize, usize))> {
    match s.anchor {
        None => None,
        Some(a) => if a == (s.row, s.byte) {
            None
        } else if position_le(a, (s.row, s.byte)) {
            Some((a, (s.row, s.byte)))
        } else {
            Some(((s.row, s.byte), a))
        },
    }
}

/// `line.get(a..b)`, or nothing when that is not a range of whole
/// characters.
pub open spec fn slice_or_empty(line: Seq<char>, a: int, b: int) -> Seq<char> {
    match byte_slice(line, a, b) {
        Some(x) => x,
        None => seq![],
    }
}

/// The selected text, its rows joined by newlines; none without a
/// selection or when it reaches past the last line.
pub open spec fn selected_text_of(s: BufferState) -> Option<Seq<char>> {
    match selection_of(s) {
        None => None,
        Some(((sr, sb), (er, eb))) => if sr >= s.lines.len() {
            None
        } else if sr == er {
            Some(slice_or_empty(s.lines[sr as int], sb as int, eb as int))
        } else if er >= s.lines.len() {
            None
        } else {
            Some(
                join_with(
                    seq![slice_or_empty(s.lines[sr as int], sb as int, byte_len(s.lines[sr as int]) as int)]
                        + s.lines.subrange(sr + 1, er as int) + seq![slice_or_empty(s.lines[er as int], 0, eb as int)],
                    '\n',
                ),
            )
        },
    }
}

/// The buffer with the whole document selected, caret at the end.
pub open spec fn all_selected(s: BufferState) -> BufferState {
    let last = (s.lines.len() - 1) as usize;
    BufferState {
        lines: s.lines,
        row: last,
        byte: byte_len(s.lines[last as int]) as usize,
        anchor: Some((0, 0)),
    }
}

/// `line.get(a..b)` over characters, or nothing when that is not a range of
/// whole characters.
fn slice_bytes(line: &Vec<char>, a: usize, b: usize) -> (r: Vec<char>)
    ensures
        r@ == slice_or_empty(line@, a as int, b as int),
{
    let offsets = byte_offsets(line);
    match get_byte_range(line, &offsets, a, b) {
        Some(x) => x,
        None => Vec::new(),
    }
}

impl EditorBuffer {
    /// What every buffer keeps.
    pub closed spec fn wf(&self) -> bool {
        state_ok(self@)
    }

    /// A buffer of `source`, split at newlines, caret at the start.
    pub fn new(source: &str) -> (r: EditorBuffer)
        requires
            byte_len(source@) <= usize::MAX,
        ensures
            r.wf(),
            r@ == (BufferState { lines: split_on(source@, '\n'), row: 0, byte: 0, anchor: None }),
    {
        let chars = chars_of(source);
        let lines = split_char(&chars, '\n');
        proof {
            crate::text::lemma_split_on_nonempty(source@, '\n');
            lemma_split_pieces_fit(source@, '\n');
            assert(views(lines@) =~= split_on(source@, '\n'));
        }
        let count = lines.len();
        assert(count == views(lines@).len());
        EditorBuffer { lines, cursor_row: 0, cursor_byte: 0, anchor: None }
    }

    /// The number of lines.
    pub fn line_count(&self) -> (r: usize)
        ensures
            r == self@.lines.len(),
    {
        self.lines.len()
    }

    /// The 1-based line the caret sits on.
    pub fn cursor_line(&self) -> (r: usize)
        requires
            self.wf(),
        ensures
            r == self@.row + 1,
    {
        let n = self.lines.len();
        assert(self.cursor_row < n);
        self.cursor_row + 1
    }

    /// The caret: its row and byte offset.
    pub fn cursor(&self) -> (r: (usize, usize))
        ensures
            r == (self@.row, self@.byte),
    {
        (self.cursor_row, self.cursor_byte)
    }

    /// The selection anchor.
    pub fn anchor(&self) -> (r: Option<(usize, usize)>)
        ensures
            r == self@.anchor,
    {
        self.anchor
    }

    /// The text of line `row`.
    pub fn line(&self, row: usize) -> (r: String)
        requires
            row < self@.lines.len(),
        ensures
            r@ == self@.lines[row as int],
    {
        string_of(&self.lines[row])
    }

    /// The whole document: the lines joined by newlines.
    pub fn text(&self) -> (r: String)
        ensures
            r@ == join_with(self@.lines, '\n'),
    {
        let ghost lv = self@.lines;
        let mut out: Vec<char> = Vec::new();
        let mut i: usize = 0;
        while i < self.lines.len()
            invariant
                i <= self.lines@.len(),
                lv == views(self.lines@),
                out@ == join_with(lv.take(i as int), '\n'),
            decreases self.lines@.len() - i,
        {
            proof {
                crate::diff::lemma_join_push(lv.take(i as int), lv[i as int]);
                assert(lv.take(i + 1) =~= lv.take(i as int).push(lv[i as int]));
            }
            if i > 0 {
                out.push('\n');
            }
            append_chars(&mut out, &self.lines[i]);
            i += 1;
        }
        assert(lv.take(self.lines@.len() as int) =~= lv);
        string_of(&out)
    }

    /// The selection, earlier end first; none for a bare caret.
    pub fn selection(&self) -> (r: Option<((usize, usize), (usize, usize))>)
        ensures
            r == selection_of(self@),
    {
        match self.anchor {
            None => None,
            Some(a) => {
                let head = (self.cursor_row, self.cursor_byte);
                if a.0 == head.0 && a.1 == head.1 {
                    None
                } else {
                    Some(ordered(a, head))
                }
            },
        }
    }

    /// The selected text, rows joined by newlines; none without a
    /// selection.
    pub fn selected_string(&self) -> (r: Option<String>)
        requires
            self.wf(),
        ensures
            match r {
                Some(t) => selected_text_of(self@) == Some(t@),
                None => selected_text_of(self@) is None,
            },
    {
        let ghost lv = self@.lines;
        let sel = self.selection();
        let ((sr, sb), (er, eb)) = match sel {
            Some(x) => x,
            None => return None,
        };
        if sr >= self.lines.len() {
            return None;
        }
        if sr == er {
            return Some(string_of(&slice_bytes(&self.lines[sr], sb, eb)));
        }
        if er >= self.lines.len() {
            return None;
        }
        let first_len = byte_length(&self.lines[sr]);
        proof {
            assert(lv[sr as int] == self.lines@[sr as int]@);
            assert(byte_len(lv[sr as int]) <= usize::MAX);
        }
        let first = if first_len <= usize::MAX as u128 {
            slice_bytes(&self.lines[sr], sb, first_len as usize)
        } else {
            Vec::new()
        };
        let ghost parts = seq![first@] + lv.subrange(sr + 1, er as int) + seq![
            slice_or_empty(lv[er as int], 0, eb as int),
        ];
        let mut out = first;
        let mut row = sr + 1;
        proof {
            assert(sr < er);
            assert(parts.take(1) =~= seq![first@]);
            assert(join_with(seq![first@], '\n') == first@);
        }
        while row < er
            invariant
                sr < row <= er < self.lines@.len(),
                lv == views(self.lines@),
                parts == seq![parts[0]] + lv.subrange(sr + 1, er as int) + seq![
                    slice_or_empty(lv[er as int], 0, eb as int),
                ],
                parts.len() == er - sr + 1,
                out@ == join_with(parts.take(row - sr), '\n'),
            decreases er - row,
        {
            proof {
                assert(parts[row - sr] == lv[row as int]);
                crate::diff::lemma_join_push(parts.take(row - sr), parts[row - sr]);
                assert(parts.take(row - sr + 1) =~= parts.take(row - sr).push(parts[row - sr]));
            }
            out.push('\n');
            append_chars(&mut out, &self.lines[row]);
            row += 1;
        }
        let last = slice_bytes(&self.lines[er], 0, eb);
        proof {
            assert(parts[er - sr] == last@);
            crate::diff::lemma_join_push(parts.take(er - sr), parts[er - sr]);
            assert(parts.take(er - sr + 1) =~= parts.take(er - sr).push(parts[er - sr]));
            assert(parts.take(er - sr + 1) =~= parts);
        }
        out.push('\n');
        append_chars(&mut out, &last);
        Some(string_of(&out))
    }

    /// Selects the whole document, caret at its end.
    pub fn select_all(&mut self)
        requires
            old(self).wf(),
        ensures
            final(self).wf(),
            final(self)@ == all_selected(old(self)@),
    {
        let last = self.lines.len() - 1;
        let len = byte_length(&self.lines[last]);
        proof {
            assert(self@.lines[last as int] == self.lines@[last as int]@);
        }
        self.anchor = Some((0, 0));
        self.cursor_row = last;
        self.cursor_byte = len as usize;
        assert(views(self.lines@) == old(self)@.lines);
    }
}


/// `line` without the bytes from `a` to `b`, both boundaries.
pub open spec fn remove_range(line: Seq<char>, a: int, b: int) -> Seq<char> {
    line.take(chars_before(line, a) as int) + line.skip(chars_before(line, b) as int)
}

/// The buffer after the selection is deleted, and whether there was one.
/// A selection within one line loses its bytes; one across lines keeps the
/// first line's head and the last line's tail, joined, and drops the lines
/// between. The caret lands at the selection's start.
pub open spec fn deleted(s: BufferState) -> (BufferState, bool) {
    match selection_of(s) {
        None => (s, false),
        Some(((sr, sb), (er, eb))) => {
            let n = s.lines.len();
            let lines = if sr == er {
                if sr < n && sb <= byte_len(s.lines[sr as int]) && eb <= byte_len(s.lines[sr as int]) {
                    s.lines.update(sr as int, remove_range(s.lines[sr as int], sb as int, eb as int))
                } else {
                    s.lines
                }
            } else {
                let tail = if er < n {
                    slice_or_empty(s.lines[er as int], eb as int, byte_len(s.lines[er as int]) as int)
                } else {
                    seq![]
                };
                let joined = if sr < n {
                    s.lines.update(sr as int, slice_or_empty(s.lines[sr as int], 0, sb as int) + tail)
                } else {
                    s.lines
                };
                let drain_end: int = if er + 1 < n {
                    er + 1
                } else {
                    n as int
                };
                let drain_start: int = if sr + 1 < drain_end {
                    sr + 1
                } else {
                    drain_end
                };
                joined.take(drain_start) + joined.skip(drain_end)
            };
            (BufferState { lines, row: sr, byte: sb, anchor: None }, true)
        },
    }
}

/// Deleting the selection is safe: its start is on a line, a selection
/// within one line is cut at character boundaries, and a joined line fits.
pub open spec fn delete_ok(s: BufferState) -> bool {
    match selection_of(s) {
        None => true,
        Some(((sr, sb), (er, eb))) => {
            &&& sr < s.lines.len()
            &&& (sr == er && sb <= byte_len(s.lines[sr as int]) && eb <= byte_len(s.lines[sr as int]))
                ==> is_boundary(s.lines[sr as int], sb as int) && is_boundary(s.lines[sr as int], eb as int)
            &&& (sr != er && er < s.lines.len()) ==> byte_len(s.lines[sr as int]) + byte_len(
                s.lines[er as int],
            ) <= usize::MAX
        },
    }
}

/// A part of a line is no longer in bytes than the line.
proof fn lemma_slice_fits(line: Seq<char>, a: int, b: int)
    ensures
        byte_len(slice_or_empty(line, a, b)) <= byte_len(line),
{
    if a <= b && is_boundary(line, a) && is_boundary(line, b) {
        let ca = chars_before(line, a) as int;
        let cb = chars_before(line, b) as int;
        crate::text::lemma_chars_before_bounds(line, a, b);
        crate::text::lemma_chars_before_bounds(line, b, b);
        assert(line =~= line.take(ca) + line.subrange(ca, cb) + line.skip(cb));
        lemma_byte_len_concat(line.take(ca), line.subrange(ca, cb));
        lemma_byte_len_concat(line.take(ca) + line.subrange(ca, cb), line.skip(cb));
    } else {
        assert(byte_len(Seq::<char>::empty()) == 0);
    }
}

impl EditorBuffer {
    /// Deletes the selection, puts the caret at its start and clears the
    /// anchor. Returns whether anything was selected.
    pub fn delete_selection(&mut self) -> (r: bool)
        requires
            old(self).wf(),
            delete_ok(old(self)@),
        ensures
            final(self).wf(),
            (final(self)@, r) == deleted(old(self)@),
    {
        let ghost s = self@;
        let ((sr, sb), (er, eb)) = match self.selection() {
            Some(x) => x,
            None => return false,
        };
        let n = self.lines.len();
        if sr == er {
            let len = byte_length(&self.lines[sr]);
            if (sb as u128) <= len && (eb as u128) <= len {
                let line = &self.lines[sr];
                let ca = count_chars_before(line, sb as u128);
                let cb = count_chars_before(line, eb as u128);
                proof {
                    crate::text::lemma_chars_before_bounds(line@, sb as int, eb as int);
                    crate::text::lemma_chars_before_bounds(line@, eb as int, eb as int);
                }
                let mut cut = slice_chars(line, 0, ca);
                append_chars(&mut cut, &slice_chars(line, cb, line.len()));
                proof {
                    assert(cut@ =~= remove_range(line@, sb as int, eb as int));
                    lemma_remove_fits(line@, sb as int, eb as int);
                }
                self.lines.set(sr, cut);
            }
        } else {
            let tail = if er < n {
                let len = byte_length(&self.lines[er]);
                proof {
                    assert(self@.lines[er as int] == self.lines@[er as int]@);
                }
                slice_bytes(&self.lines[er], eb, len as usize)
            } else {
                Vec::new()
            };
            let mut head = slice_bytes(&self.lines[sr], 0, sb);
            proof {
                lemma_slice_fits(s.lines[sr as int], 0, sb as int);
                if er < n {
                    lemma_slice_fits(s.lines[er as int], eb as int, byte_len(s.lines[er as int]) as int);
                }
                lemma_byte_len_concat(head@, tail@);
            }
            append_chars(&mut head, &tail);
            self.lines.set(sr, head);
            let ghost joined = views(self.lines@);
            let drain_end = if er < n {
                er + 1
            } else {
                n
            };
            let drain_start = if sr + 1 < drain_end {
                sr + 1
            } else {
                drain_end
            };
            let mut k: usize = 0;
            while k < drain_end - drain_start
                invariant
                    drain_start <= drain_end <= n,
                    joined.len() == n,
                    k <= drain_end - drain_start,
                    self.lines@.len() == n - k,
                    views(self.lines@) == joined.take(drain_start as int) + joined.skip(drain_start + k),
                decreases drain_end - drain_start - k,
            {
                let ghost before = views(self.lines@);
                let ghost raw = self.lines@;
                self.lines.remove(drain_start);
                assert(self.lines@ =~= raw.remove(drain_start as int));
                assert(views(self.lines@) =~= before.remove(drain_start as int));
                assert(views(self.lines@) =~= joined.take(drain_start as int) + joined.skip(drain_start + k + 1));
                k += 1;
            }
        }
        self.cursor_row = sr;
        self.cursor_byte = sb;
        self.anchor = None;
        proof {
            let d = deleted(s).0;
            assert(views(self.lines@) =~= d.lines);
            assert forall|i: int| 0 <= i < d.lines.len() implies byte_len(#[trigger] d.lines[i])
                <= usize::MAX by {
                lemma_deleted_fits(s, i);
            }
        }
        true
    }
}

/// A line with a range cut out is no longer than before.
proof fn lemma_remove_fits(line: Seq<char>, a: int, b: int)
    requires
        a <= b,
        chars_before(line, a) <= chars_before(line, b) <= line.len(),
    ensures
        byte_len(remove_range(line, a, b)) <= byte_len(line),
{
    let ca = chars_before(line, a) as int;
    let cb = chars_before(line, b) as int;
    assert(line =~= line.take(ca) + line.subrange(ca, cb) + line.skip(cb));
    lemma_byte_len_concat(line.take(ca), line.subrange(ca, cb));
    lemma_byte_len_concat(line.take(ca) + line.subrange(ca, cb), line.skip(cb));
    lemma_byte_len_concat(line.take(ca), line.skip(cb));
}

/// Every line left after a deletion fits in `usize`.
proof fn lemma_deleted_fits(s: BufferState, i: int)
    requires
        state_ok(s),
        delete_ok(s),
        0 <= i < deleted(s).0.lines.len(),
    ensures
        byte_len(deleted(s).0.lines[i]) <= usize::MAX,
{
    let d = deleted(s).0;
    match selection_of(s) {
        None => {},
        Some(((sr, sb), (er, eb))) => {
            let n = s.lines.len();
            if sr == er {
                if i == sr && sb <= byte_len(s.lines[sr as int]) && eb <= byte_len(s.lines[sr as int]) {
                    crate::text::lemma_chars_before_bounds(s.lines[sr as int], sb as int, eb as int);
                    crate::text::lemma_chars_before_bounds(s.lines[sr as int], eb as int, eb as int);
                    lemma_remove_fits(s.lines[sr as int], sb as int, eb as int);
                }
            } else {
                let tail = if er < n {
                    slice_or_empty(s.lines[er as int], eb as int, byte_len(s.lines[er as int]) as int)
                } else {
                    seq![]
                };
                let head = slice_or_empty(s.lines[sr as int], 0, sb as int);
                lemma_slice_fits(s.lines[sr as int], 0, sb as int);
                if er < n {
                    lemma_slice_fits(s.lines[er as int], eb as int, byte_len(s.lines[er as int]) as int);
                } else {
                    assert(byte_len(Seq::<char>::empty()) == 0);
                }
                lemma_byte_len_concat(head, tail);
            }
        },
    }
}


/// A byte offset clamped to a line's end.
pub open spec fn clamp_byte(line: Seq<char>, b: usize) -> int {
    if b <= byte_len(line) {
        b as int
    } else {
        byte_len(line) as int
    }
}

/// The buffer with `t` (no newline in it) typed at the caret, which is
/// clamped to the line's end; the caret ends after it.
pub open spec fn inserted_flat(s: BufferState, t: Seq<char>) -> BufferState {
    let line = s.lines[s.row as int];
    let at = clamp_byte(line, s.byte);
    let c = chars_before(line, at) as int;
    BufferState {
        lines: s.lines.update(s.row as int, line.take(c) + t + line.skip(c)),
        byte: (at + byte_len(t)) as usize,
        ..s
    }
}

/// Typing at the caret is safe: the caret is on a character boundary and
/// the longer line fits.
pub open spec fn insert_flat_ok(s: BufferState, t: Seq<char>) -> bool {
    let line = s.lines[s.row as int];
    &&& is_boundary(line, clamp_byte(line, s.byte))
    &&& byte_len(line) + byte_len(t) <= usize::MAX
}

/// The buffer after Return: the selection is deleted, then the line is
/// split at the caret, which moves to the start of the new line.
pub open spec fn newlined(s: BufferState) -> BufferState {
    let d = deleted(s).0;
    let line = d.lines[d.row as int];
    let c = chars_before(line, clamp_byte(line, d.byte)) as int;
    BufferState {
        lines: d.lines.update(d.row as int, line.take(c)).insert(d.row + 1, line.skip(c)),
        row: (d.row + 1) as usize,
        byte: 0,
        anchor: d.anchor,
    }
}

/// Return is safe: the selection can be deleted and the caret left after
/// it is on a character boundary.
pub open spec fn newline_ok(s: BufferState) -> bool {
    let d = deleted(s).0;
    let line = d.lines[d.row as int];
    &&& delete_ok(s)
    &&& is_boundary(line, clamp_byte(line, d.byte))
}

/// The buffer after Backspace: a selection is deleted and nothing more;
/// else the character before the caret goes, or at a line's start the
/// line joins the one above.
pub open spec fn backspaced(s: BufferState) -> BufferState {
    let (d, changed) = deleted(s);
    if changed {
        d
    } else if s.byte > 0 {
        let line = s.lines[s.row as int];
        let c = chars_before(line, s.byte as int) as int;
        BufferState {
            lines: s.lines.update(s.row as int, line.take(c - 1) + line.skip(c)),
            byte: byte_offset(line, c - 1) as usize,
            ..s
        }
    } else if s.row > 0 {
        let prev = s.lines[s.row - 1];
        BufferState {
            lines: s.lines.update(s.row - 1, prev + s.lines[s.row as int]).remove(s.row as int),
            row: (s.row - 1) as usize,
            byte: byte_len(prev) as usize,
            ..s
        }
    } else {
        s
    }
}

/// Backspace is safe: the selection can be deleted; without one, a caret
/// inside a line sits on a character boundary, and a joined line fits.
pub open spec fn backspace_ok(s: BufferState) -> bool {
    let line = s.lines[s.row as int];
    &&& delete_ok(s)
    &&& (selection_of(s) is None && s.byte > 0) ==> s.byte <= byte_len(line) && is_boundary(
        line,
        s.byte as int,
    )
    &&& (selection_of(s) is None && s.byte == 0 && s.row > 0) ==> byte_len(s.lines[s.row - 1])
        + byte_len(line) <= usize::MAX
}

/// Where a caret key takes the caret. Left and right step over one
/// character, wrapping to the neighbouring line at a line's end; up and
/// down keep the byte offset, clamped to the new line; home and end go to
/// the line's ends.
pub open spec fn moved_to(s: BufferState, key: Seq<char>) -> (int, int) {
    let line = s.lines[s.row as int];
    let len = byte_len(line) as int;
    if key == "left"@ {
        if s.byte > 0 {
            (
                s.row as int,
                if s.byte > len {
                    len
                } else {
                    byte_offset(line, chars_before(line, s.byte as int) - 1) as int
                },
            )
        } else if s.row > 0 {
            (s.row - 1, byte_len(s.lines[s.row - 1]) as int)
        } else {
            (s.row as int, s.byte as int)
        }
    } else if key == "right"@ {
        if s.byte < len {
            (s.row as int, byte_offset(line, chars_before(line, s.byte + 1) as int) as int)
        } else if s.row + 1 < s.lines.len() {
            (s.row + 1, 0)
        } else {
            (s.row as int, s.byte as int)
        }
    } else if key == "up"@ {
        let r: int = if s.row > 0 {
            s.row - 1
        } else {
            0
        };
        (r, if s.byte <= byte_len(s.lines[r]) {
            s.byte as int
        } else {
            byte_len(s.lines[r]) as int
        })
    } else if key == "down"@ {
        if s.row + 1 < s.lines.len() {
            (s.row + 1, if s.byte <= byte_len(s.lines[s.row + 1]) {
                s.byte as int
            } else {
                byte_len(s.lines[s.row + 1]) as int
            })
        } else {
            (s.row as int, s.byte as int)
        }
    } else if key == "home"@ {
        (s.row as int, 0)
    } else if key == "end"@ {
        (s.row as int, len)
    } else {
        (s.row as int, s.byte as int)
    }
}

/// The buffer after a caret key; with `select` the anchor stays (or is set
/// where the caret was), without it the anchor is dropped.
pub open spec fn moved(s: BufferState, key: Seq<char>, select: bool) -> BufferState {
    let (row, byte) = moved_to(s, key);
    BufferState {
        lines: s.lines,
        row: row as usize,
        byte: byte as usize,
        anchor: if select {
            if s.anchor is None {
                Some((s.row, s.byte))
            } else {
                s.anchor
            }
        } else {
            None
        },
    }
}

/// The buffer with the token at `byte` of line `row` selected, caret at
/// its end; without a token the anchor is dropped.
pub open spec fn token_selected(s: BufferState, row: usize, byte: usize) -> BufferState {
    if row < s.lines.len() {
        match token_of(s.lines[row as int], byte as int) {
            None => BufferState { anchor: None, ..s },
            Some((a, b)) => BufferState { anchor: Some((row, a as usize)), row, byte: b as usize, ..s },
        }
    } else {
        BufferState { anchor: None, ..s }
    }
}

/// The buffer with the caret at the start of line `line` (the last line
/// when there are fewer) and no selection.
pub open spec fn line_revealed(s: BufferState, line: usize) -> BufferState {
    BufferState {
        row: if line < s.lines.len() {
            line
        } else {
            (s.lines.len() - 1) as usize
        },
        byte: 0,
        anchor: None,
        ..s
    }
}

fn is_key(key: &str, name: &str) -> (r: bool)
    ensures
        r == (key@ == name@),
{
    crate::text::chars_eq(&chars_of(key), &chars_of(name))
}

proof fn lemma_join_fits(a: Seq<char>, b: Seq<char>)
    ensures
        byte_len(a + b) == byte_len(a) + byte_len(b),
{
    lemma_byte_len_concat(a, b);
}

impl EditorBuffer {
    /// Types `text`, which holds no newline, at the caret; the caret is
    /// first clamped to the line's end and ends after the text.
    pub fn insert_flat(&mut self, text: &str)
        requires
            old(self).wf(),
            insert_flat_ok(old(self)@, text@),
        ensures
            final(self).wf(),
            final(self)@ == inserted_flat(old(self)@, text@),
    {
        let ghost s = self@;
        let row = self.cursor_row;
        let t = chars_of(text);
        let line = &self.lines[row];
        let len = byte_length(line);
        let tl = byte_length(&t);
        proof {
            assert(s.lines[row as int] == line@);
        }
        let at: usize = if (self.cursor_byte as u128) <= len {
            self.cursor_byte
        } else {
            len as usize
        };
        let c = count_chars_before(line, at as u128);
        proof {
            crate::text::lemma_chars_before_bounds(line@, at as int, at as int);
        }
        let mut out = slice_chars(line, 0, c);
        append_chars(&mut out, &t);
        append_chars(&mut out, &slice_chars(line, c, line.len()));
        proof {
            let lv = line@;
            assert(out@ =~= lv.take(c as int) + t@ + lv.skip(c as int));
            assert(lv =~= lv.take(c as int) + lv.skip(c as int));
            lemma_byte_len_concat(lv.take(c as int), lv.skip(c as int));
            lemma_byte_len_concat(lv.take(c as int), t@);
            lemma_byte_len_concat(lv.take(c as int) + t@, lv.skip(c as int));
        }
        self.lines.set(row, out);
        self.cursor_byte = at + tl as usize;
        proof {
            assert(views(self.lines@) =~= inserted_flat(s, text@).lines);
        }
    }

    /// Splits the line at the caret (after deleting any selection); the
    /// caret moves to the start of the new line.
    pub fn newline(&mut self)
        requires
            old(self).wf(),
            newline_ok(old(self)@),
        ensures
            final(self).wf(),
            final(self)@ == newlined(old(self)@),
    {
        let ghost s = self@;
        self.delete_selection();
        let ghost d = self@;
        let row = self.cursor_row;
        let line = &self.lines[row];
        let len = byte_length(line);
        proof {
            assert(d.lines[row as int] == line@);
        }
        let at: usize = if (self.cursor_byte as u128) <= len {
            self.cursor_byte
        } else {
            len as usize
        };
        let c = count_chars_before(line, at as u128);
        proof {
            crate::text::lemma_chars_before_bounds(line@, at as int, at as int);
        }
        let head = slice_chars(line, 0, c);
        let tail = slice_chars(line, c, line.len());
        proof {
            let lv = line@;
            assert(lv =~= lv.take(c as int) + lv.skip(c as int));
            lemma_byte_len_concat(lv.take(c as int), lv.skip(c as int));
            assert(tail@ =~= lv.skip(c as int));
        }
        let n = self.lines.len();
        assert(row < n);
        self.lines.set(row, head);
        self.lines.insert(row + 1, tail);
        self.cursor_row = row + 1;
        self.cursor_byte = 0;
        let count = self.lines.len();
        proof {
            assert(views(self.lines@) =~= newlined(s).lines);
            assert(count == views(self.lines@).len());
        }
    }

    /// Deletes the selection if there is one; else the character before
    /// the caret, or at a line's start joins the line to the one above.
    pub fn backspace(&mut self)
        requires
            old(self).wf(),
            backspace_ok(old(self)@),
        ensures
            final(self).wf(),
            final(self)@ == backspaced(old(self)@),
    {
        let ghost s = self@;
        if self.delete_selection() {
            return;
        }
        let row = self.cursor_row;
        if self.cursor_byte > 0 {
            let line = &self.lines[row];
            proof {
                assert(s.lines[row as int] == line@);
            }
            let c = count_chars_before(line, self.cursor_byte as u128);
            let offsets = byte_offsets(line);
            proof {
                let lv = line@;
                crate::text::lemma_chars_before_bounds(lv, self.cursor_byte as int, self.cursor_byte as int);
                crate::text::lemma_chars_before_bounds(lv, 1, self.cursor_byte as int);
                lemma_chars_before_one(lv);
                lemma_byte_offset_monotone(lv, c - 1, c as int);
            }
            let start = offsets[c - 1];
            let mut out = slice_chars(line, 0, c - 1);
            append_chars(&mut out, &slice_chars(line, c, line.len()));
            proof {
                let lv = line@;
                assert(out@ =~= lv.take(c - 1) + lv.skip(c as int));
                assert(lv =~= lv.take(c - 1) + lv.subrange(c - 1, c as int) + lv.skip(c as int));
                lemma_byte_len_concat(lv.take(c - 1), lv.subrange(c - 1, c as int));
                lemma_byte_len_concat(lv.take(c - 1) + lv.subrange(c - 1, c as int), lv.skip(c as int));
                lemma_byte_len_concat(lv.take(c - 1), lv.skip(c as int));
            }
            self.lines.set(row, out);
            self.cursor_byte = start as usize;
            proof {
                assert(views(self.lines@) =~= backspaced(s).lines);
            }
        } else if row > 0 {
            let tail = self.lines.remove(row);
            let prev_len = byte_length(&self.lines[row - 1]);
            proof {
                assert(s.lines[row - 1] == self.lines@[row - 1]@);
                assert(s.lines[row as int] == tail@);
                lemma_byte_len_concat(self.lines@[row - 1]@, tail@);
            }
            let mut joined = crate::text::copy_chars(&self.lines[row - 1]);
            append_chars(&mut joined, &tail);
            self.lines.set(row - 1, joined);
            self.cursor_row = row - 1;
            self.cursor_byte = prev_len as usize;
            proof {
                assert(views(self.lines@) =~= backspaced(s).lines);
            }
        }
    }

    /// Moves the caret by a caret key (`left`, `right`, `up`, `down`,
    /// `home`, `end`); other keys leave it. With `select` the selection
    /// grows from the anchor, set where the caret was if there was none;
    /// without it the selection is dropped.
    pub fn move_cursor(&mut self, key: &str, select: bool)
        requires
            old(self).wf(),
        ensures
            final(self).wf(),
            final(self)@ == moved(old(self)@, key@, select),
    {
        let ghost s = self@;
        if select {
            if self.anchor.is_none() {
                self.anchor = Some((self.cursor_row, self.cursor_byte));
            }
        } else {
            self.anchor = None;
        }
        let row = self.cursor_row;
        let n = self.lines.len();
        let len = byte_length(&self.lines[row]);
        proof {
            assert(s.lines[row as int] == self.lines@[row as int]@);
        }
        if is_key(key, "left") {
            if self.cursor_byte > 0 {
                if (self.cursor_byte as u128) > len {
                    self.cursor_byte = len as usize;
                } else {
                    let line = &self.lines[row];
                    let c = count_chars_before(line, self.cursor_byte as u128);
                    let offsets = byte_offsets(line);
                    proof {
                        let lv = line@;
                        crate::text::lemma_chars_before_bounds(lv, 1, self.cursor_byte as int);
                        crate::text::lemma_chars_before_bounds(lv, self.cursor_byte as int, self.cursor_byte as int);
                        lemma_chars_before_one(lv);
                        lemma_byte_offset_monotone(lv, c - 1, lv.len() as int);
                        assert(lv.take(lv.len() as int) =~= lv);
                    }
                    self.cursor_byte = offsets[c - 1] as usize;
                }
            } else if row > 0 {
                let prev = byte_length(&self.lines[row - 1]);
                proof {
                    assert(s.lines[row - 1] == self.lines@[row - 1]@);
                }
                self.cursor_row = row - 1;
                self.cursor_byte = prev as usize;
            }
        } else if is_key(key, "right") {
            if (self.cursor_byte as u128) < len {
                let line = &self.lines[row];
                let c = count_chars_before(line, (self.cursor_byte as u128) + 1);
                let offsets = byte_offsets(line);
                proof {
                    let lv = line@;
                    crate::text::lemma_chars_before_bounds(lv, self.cursor_byte + 1, self.cursor_byte + 1);
                    lemma_byte_offset_monotone(lv, c as int, lv.len() as int);
                    assert(lv.take(lv.len() as int) =~= lv);
                }
                self.cursor_byte = offsets[c] as usize;
            } else if row + 1 < n {
                self.cursor_row = row + 1;
                self.cursor_byte = 0;
            }
        } else if is_key(key, "up") {
            let r = if row > 0 {
                row - 1
            } else {
                0
            };
            let l = byte_length(&self.lines[r]);
            proof {
                assert(s.lines[r as int] == self.lines@[r as int]@);
            }
            self.cursor_row = r;
            if (self.cursor_byte as u128) > l {
                self.cursor_byte = l as usize;
            }
        } else if is_key(key, "down") {
            if row + 1 < n {
                let l = byte_length(&self.lines[row + 1]);
                proof {
                    assert(s.lines[row + 1] == self.lines@[row + 1]@);
                }
                self.cursor_row = row + 1;
                if (self.cursor_byte as u128) > l {
                    self.cursor_byte = l as usize;
                }
            }
        } else if is_key(key, "home") {
            self.cursor_byte = 0;
        } else if is_key(key, "end") {
            self.cursor_byte = len as usize;
        }
        assert(views(self.lines@) == s.lines);
    }

    /// Selects the identifier token touching `byte` on line `row`, caret
    /// at its end; without a token the selection is dropped.
    pub fn select_token(&mut self, row: usize, byte: usize)
        requires
            old(self).wf(),
        ensures
            final(self).wf(),
            final(self)@ == token_selected(old(self)@, row, byte),
    {
        let ghost s = self@;
        if row >= self.lines.len() {
            self.anchor = None;
            return;
        }
        proof {
            assert(s.lines[row as int] == self.lines@[row as int]@);
        }
        let text = string_of(&self.lines[row]);
        match token_range(text.as_str(), byte) {
            None => {
                self.anchor = None;
            },
            Some(range) => {
                self.anchor = Some((row, range.start));
                self.cursor_row = row;
                self.cursor_byte = range.end;
            },
        }
    }

    /// Puts the caret at the start of line `line`, or of the last line when
    /// there are fewer, and drops the selection.
    pub fn reveal_line(&mut self, line: usize)
        requires
            old(self).wf(),
        ensures
            final(self).wf(),
            final(self)@ == line_revealed(old(self)@, line),
    {
        let n = self.lines.len();
        self.cursor_row = if line < n {
            line
        } else {
            n - 1
        };
        self.cursor_byte = 0;
        self.anchor = None;
    }
}


/// The buffer after typing the parts of a text split at newlines: the
/// first part at the caret, then for each further part a Return and the
/// part.
pub open spec fn insert_parts(d: BufferState, parts: Seq<Seq<char>>, k: int) -> BufferState
    decreases k,
{
    if k <= 0 {
        d
    } else if k == 1 {
        inserted_flat(d, parts[0])
    } else {
        inserted_flat(newlined(insert_parts(d, parts, k - 1)), parts[k - 1])
    }
}

/// Each step of typing the parts is safe.
pub open spec fn insert_parts_ok(d: BufferState, parts: Seq<Seq<char>>, k: int) -> bool
    decreases k,
{
    if k <= 0 {
        true
    } else if k == 1 {
        insert_flat_ok(d, parts[0])
    } else {
        &&& insert_parts_ok(d, parts, k - 1)
        &&& newline_ok(insert_parts(d, parts, k - 1))
        &&& insert_flat_ok(newlined(insert_parts(d, parts, k - 1)), parts[k - 1])
    }
}

/// The buffer after typing `t`: the selection is replaced by the text,
/// its newlines splitting lines.
pub open spec fn inserted(s: BufferState, t: Seq<char>) -> BufferState {
    let parts = split_on(t, '\n');
    insert_parts(deleted(s).0, parts, parts.len() as int)
}

/// Typing `t` is safe.
pub open spec fn insert_ok(s: BufferState, t: Seq<char>) -> bool {
    let parts = split_on(t, '\n');
    delete_ok(s) && insert_parts_ok(deleted(s).0, parts, parts.len() as int)
}

impl EditorBuffer {
    /// Types `text` at the caret, replacing the selection; each newline in
    /// it splits the line.
    pub fn insert(&mut self, text: &str)
        requires
            old(self).wf(),
            insert_ok(old(self)@, text@),
        ensures
            final(self).wf(),
            final(self)@ == inserted(old(self)@, text@),
    {
        let ghost s = self@;
        self.delete_selection();
        let ghost d = self@;
        let t = chars_of(text);
        let parts = split_char(&t, '\n');
        let ghost pv = split_on(text@, '\n');
        proof {
            crate::text::lemma_split_on_nonempty(text@, '\n');
            lemma_insert_parts_ok_prefix(d, pv, 1, pv.len() as int);
        }
        let first = string_of(&parts[0]);
        self.insert_flat(first.as_str());
        let mut k: usize = 1;
        while k < parts.len()
            invariant
                1 <= k <= parts@.len(),
                parts@.len() == pv.len(),
                forall|x: int| 0 <= x < parts@.len() ==> #[trigger] parts@[x]@ == pv[x],
                self.wf(),
                self@ == insert_parts(d, pv, k as int),
                insert_parts_ok(d, pv, pv.len() as int),
            decreases parts@.len() - k,
        {
            proof {
                lemma_insert_parts_ok_prefix(d, pv, k + 1, pv.len() as int);
            }
            self.newline();
            let part = string_of(&parts[k]);
            self.insert_flat(part.as_str());
            k += 1;
        }
    }
}

impl EditorBuffer {
    /// A buffer with the same lines, caret and anchor.
    fn copy(&self) -> (r: EditorBuffer)
        ensures
            r@ == self@,
    {
        let mut lines: Vec<Vec<char>> = Vec::new();
        let mut i: usize = 0;
        while i < self.lines.len()
            invariant
                i <= self.lines@.len(),
                views(lines@) == views(self.lines@).take(i as int),
            decreases self.lines@.len() - i,
        {
            let ghost before = lines@;
            let c = crate::text::copy_chars(&self.lines[i]);
            lines.push(c);
            assert(views(lines@) =~= views(before).push(self.lines@[i as int]@));
            assert(views(self.lines@).take(i + 1) =~= views(self.lines@).take(i as int).push(
                self.lines@[i as int]@,
            ));
            i += 1;
        }
        assert(views(self.lines@).take(self.lines@.len() as int) =~= views(self.lines@));
        EditorBuffer { lines, cursor_row: self.cursor_row, cursor_byte: self.cursor_byte, anchor: self.anchor }
    }

    /// Whether byte `b` of line `row` falls between characters.
    fn boundary_at(&self, row: usize, b: usize) -> (r: bool)
        requires
            row < self@.lines.len(),
        ensures
            r == is_boundary(self@.lines[row as int], b as int),
    {
        let line = &self.lines[row];
        assert(self@.lines[row as int] == line@);
        let offsets = byte_offsets(line);
        get_byte_range(line, &offsets, b, b).is_some()
    }

    /// Whether deleting the selection is safe (`delete_ok`).
    pub fn can_delete(&self) -> (r: bool)
        requires
            self.wf(),
        ensures
            r == delete_ok(self@),
    {
        match self.selection() {
            None => true,
            Some(((sr, sb), (er, eb))) => {
                let n = self.lines.len();
                if sr >= n {
                    return false;
                }
                let first = byte_length(&self.lines[sr]);
                assert(self@.lines[sr as int] == self.lines@[sr as int]@);
                if sr == er {
                    if (sb as u128) <= first && (eb as u128) <= first {
                        self.boundary_at(sr, sb) && self.boundary_at(sr, eb)
                    } else {
                        true
                    }
                } else if er < n {
                    assert(self@.lines[er as int] == self.lines@[er as int]@);
                    first + byte_length(&self.lines[er]) <= usize::MAX as u128
                } else {
                    true
                }
            },
        }
    }

    /// Whether typing `text`, which holds no newline, is safe
    /// (`insert_flat_ok`).
    pub fn can_insert_flat(&self, text: &str) -> (r: bool)
        requires
            self.wf(),
        ensures
            r == insert_flat_ok(self@, text@),
    {
        let row = self.cursor_row;
        let line = &self.lines[row];
        assert(self@.lines[row as int] == line@);
        let len = byte_length(line);
        let at: usize = if (self.cursor_byte as u128) <= len {
            self.cursor_byte
        } else {
            len as usize
        };
        self.boundary_at(row, at) && byte_length(&chars_of(text)) <= usize::MAX as u128 - len
    }

    /// Whether Return is safe (`newline_ok`).
    pub fn can_newline(&self) -> (r: bool)
        requires
            self.wf(),
        ensures
            r == newline_ok(self@),
    {
        if !self.can_delete() {
            return false;
        }
        let mut b = self.copy();
        b.delete_selection();
        let row = b.cursor_row;
        let line = &b.lines[row];
        assert(b@.lines[row as int] == line@);
        let len = byte_length(line);
        let at: usize = if (b.cursor_byte as u128) <= len {
            b.cursor_byte
        } else {
            len as usize
        };
        b.boundary_at(row, at)
    }

    /// Whether Backspace is safe (`backspace_ok`).
    pub fn can_backspace(&self) -> (r: bool)
        requires
            self.wf(),
        ensures
            r == backspace_ok(self@),
    {
        if !self.can_delete() {
            return false;
        }
        if self.selection().is_some() {
            return true;
        }
        let row = self.cursor_row;
        let line = &self.lines[row];
        assert(self@.lines[row as int] == line@);
        let len = byte_length(line);
        if self.cursor_byte > 0 {
            (self.cursor_byte as u128) <= len && self.boundary_at(row, self.cursor_byte)
        } else if row > 0 {
            assert(self@.lines[row - 1] == self.lines@[row - 1]@);
            byte_length(&self.lines[row - 1]) + len <= usize::MAX as u128
        } else {
            true
        }
    }

    /// Whether typing `text` is safe (`insert_ok`).
    pub fn can_insert(&self, text: &str) -> (r: bool)
        requires
            self.wf(),
        ensures
            r == insert_ok(self@, text@),
    {
        if !self.can_delete() {
            return false;
        }
        let mut b = self.copy();
        b.delete_selection();
        let ghost d = b@;
        let t = chars_of(text);
        let parts = split_char(&t, '\n');
        let ghost pv = split_on(text@, '\n');
        proof {
            crate::text::lemma_split_on_nonempty(text@, '\n');
        }
        let first = string_of(&parts[0]);
        if !b.can_insert_flat(first.as_str()) {
            proof {
                if insert_parts_ok(d, pv, pv.len() as int) {
                    lemma_insert_parts_ok_prefix(d, pv, 1, pv.len() as int);
                }
            }
            return false;
        }
        b.insert_flat(first.as_str());
        let mut k: usize = 1;
        while k < parts.len()
            invariant
                1 <= k <= parts@.len(),
                parts@.len() == pv.len(),
                forall|x: int| 0 <= x < parts@.len() ==> #[trigger] parts@[x]@ == pv[x],
                b.wf(),
                b@ == insert_parts(d, pv, k as int),
                insert_parts_ok(d, pv, k as int),
                d == deleted(self@).0,
                pv == split_on(text@, '\n'),
                delete_ok(self@),
            decreases parts@.len() - k,
        {
            proof {
                lemma_insert_parts_unfold(d, pv, k as int);
                if insert_parts_ok(d, pv, pv.len() as int) {
                    lemma_insert_parts_ok_prefix(d, pv, k + 1, pv.len() as int);
                }
            }
            if !b.can_newline() {
                return false;
            }
            b.newline();
            let part = string_of(&parts[k]);
            if !b.can_insert_flat(part.as_str()) {
                return false;
            }
            b.insert_flat(part.as_str());
            k += 1;
        }
        true
    }

    /// Whether a key press is safe (`key_ok`), so that `apply_key` may be
    /// called with it.
    pub fn key_allowed(&self, key: &str, platform: bool) -> (r: bool)
        requires
            self.wf(),
        ensures
            r == key_ok(self@, key@, platform),
    {
        if platform {
            if is_key(key, "x") && self.selected_string().is_some() {
                self.can_delete()
            } else {
                true
            }
        } else if is_key(key, "backspace") {
            self.can_backspace()
        } else if is_key(key, "enter") {
            self.can_newline()
        } else if is_key(key, "tab") {
            self.can_insert("    ")
        } else {
            true
        }
    }
}

proof fn lemma_insert_parts_unfold(d: BufferState, parts: Seq<Seq<char>>, k: int)
    requires
        k >= 1,
    ensures
        insert_parts(d, parts, k + 1) == inserted_flat(newlined(insert_parts(d, parts, k)), parts[k]),
        insert_parts_ok(d, parts, k + 1) == (insert_parts_ok(d, parts, k) && newline_ok(
            insert_parts(d, parts, k),
        ) && insert_flat_ok(newlined(insert_parts(d, parts, k)), parts[k])),
{
}

proof fn lemma_insert_parts_ok_prefix(d: BufferState, parts: Seq<Seq<char>>, k: int, n: int)
    requires
        1 <= k <= n,
        insert_parts_ok(d, parts, n),
    ensures
        insert_parts_ok(d, parts, k),
    decreases n - k,
{
    if k < n {
        lemma_insert_parts_ok_prefix(d, parts, k + 1, n);
    }
}


/// Whether a key moves the caret.
pub open spec fn caret_key(key: Seq<char>) -> bool {
    key == "left"@ || key == "right"@ || key == "up"@ || key == "down"@ || key == "home"@ || key
        == "end"@
}

/// The buffer after a key press, with the text it puts on the clipboard.
/// With the platform modifier, `c` copies the selection, `x` cuts it and
/// `a` selects everything; without it, Backspace, Return, Tab (four
/// spaces) and the caret keys edit and move. Other keys change nothing.
pub open spec fn keyed(s: BufferState, key: Seq<char>, shift: bool, platform: bool) -> (
    BufferState,
    Option<Seq<char>>,
) {
    if platform {
        if key == "c"@ {
            (s, selected_text_of(s))
        } else if key == "x"@ {
            match selected_text_of(s) {
                Some(t) => (deleted(s).0, Some(t)),
                None => (s, None),
            }
        } else if key == "a"@ {
            (all_selected(s), None)
        } else {
            (s, None)
        }
    } else if key == "backspace"@ {
        (backspaced(s), None)
    } else if key == "enter"@ {
        (newlined(s), None)
    } else if key == "tab"@ {
        (inserted(s, "    "@), None)
    } else if caret_key(key) {
        (moved(s, key, shift), None)
    } else {
        (s, None)
    }
}

/// A key press is safe.
pub open spec fn key_ok(s: BufferState, key: Seq<char>, platform: bool) -> bool {
    if platform {
        key == "x"@ && selected_text_of(s) is Some ==> delete_ok(s)
    } else if key == "backspace"@ {
        backspace_ok(s)
    } else if key == "enter"@ {
        newline_ok(s)
    } else if key == "tab"@ {
        insert_ok(s, "    "@)
    } else {
        true
    }
}

/// The buffer after a press at `(row, byte)`: a double click selects the
/// token there, a single one places the caret and starts a drag.
pub open spec fn pressed(s: BufferState, row: usize, byte: usize, double_click: bool) -> BufferState {
    let placed = BufferState { row, byte, ..s };
    if double_click {
        token_selected(placed, row, byte)
    } else {
        BufferState { anchor: Some((row, byte)), ..placed }
    }
}

/// The buffer after the mouse is released: a click that never moved
/// leaves a bare caret.
pub open spec fn released(s: BufferState) -> BufferState {
    if s.anchor == Some((s.row, s.byte)) {
        BufferState { anchor: None, ..s }
    } else {
        s
    }
}

impl EditorBuffer {
    /// Handles a key press; returns the text to put on the clipboard, if
    /// any.
    pub fn apply_key(&mut self, key: &str, shift: bool, platform: bool) -> (r: Option<String>)
        requires
            old(self).wf(),
            key_ok(old(self)@, key@, platform),
        ensures
            final(self).wf(),
            (final(self)@, match r {
                Some(t) => Some(t@),
                None => None,
            }) == keyed(old(self)@, key@, shift, platform),
    {
        if platform {
            if is_key(key, "c") {
                return self.selected_string();
            } else if is_key(key, "x") {
                let text = self.selected_string();
                if text.is_some() {
                    self.delete_selection();
                }
                return text;
            } else if is_key(key, "a") {
                self.select_all();
            }
            return None;
        }
        if is_key(key, "backspace") {
            self.backspace();
        } else if is_key(key, "enter") {
            self.newline();
        } else if is_key(key, "tab") {
            self.insert("    ");
        } else if is_key(key, "left") || is_key(key, "right") || is_key(key, "up") || is_key(
            key,
            "down",
        ) || is_key(key, "home") || is_key(key, "end") {
            self.move_cursor(key, shift);
        }
        None
    }

    /// A press at `(row, byte)`. A double click selects the token there;
    /// a single click places the caret with the anchor under it. Returns
    /// whether a drag starts.
    pub fn press(&mut self, row: usize, byte: usize, double_click: bool) -> (dragging: bool)
        requires
            old(self).wf(),
            row < old(self)@.lines.len(),
        ensures
            final(self).wf(),
            final(self)@ == pressed(old(self)@, row, byte, double_click),
            dragging == !double_click,
    {
        self.cursor_row = row;
        self.cursor_byte = byte;
        if double_click {
            self.select_token(row, byte);
            false
        } else {
            self.anchor = Some((row, byte));
            true
        }
    }

    /// The caret follows a drag to `(row, byte)`.
    pub fn drag_to(&mut self, row: usize, byte: usize)
        requires
            old(self).wf(),
            row < old(self)@.lines.len(),
        ensures
            final(self).wf(),
            final(self)@ == (BufferState { row, byte, ..old(self)@ }),
    {
        self.cursor_row = row;
        self.cursor_byte = byte;
    }

    /// The mouse is released; a click that never moved leaves a bare caret.
    pub fn release(&mut self)
        requires
            old(self).wf(),
        ensures
            final(self).wf(),
            final(self)@ == released(old(self)@),
    {
        if let Some(a) = self.anchor {
            if a.0 == self.cursor_row && a.1 == self.cursor_byte {
                self.anchor = None;
            }
        }
    }
}


/// Nothing is deleted without an anchor.
proof fn lemma_unanchored(s: BufferState)
    requires
        s.anchor is None,
    ensures
        selection_of(s) is None,
        deleted(s) == (s, false),
{
}

/// The whole line, sliced from its start to its end.
proof fn lemma_whole_slice(l: Seq<char>)
    ensures
        slice_or_empty(l, 0, byte_len(l) as int) == l,
{
    lemma_boundary_at(l, 0);
    lemma_boundary_at(l, l.len() as int);
    assert(l.take(0) =~= Seq::<char>::empty());
    assert(l.take(l.len() as int) =~= l);
    assert(byte_len(Seq::<char>::empty()) == 0);
    assert(l.subrange(0, l.len() as int) =~= l);
}

/// Return followed by Backspace gives back the lines as they were, with
/// the caret where the split was (clamped to the line's end), when nothing
/// was selected or anchored.
pub proof fn lemma_newline_then_backspace(s: BufferState)
    requires
        state_ok(s),
        s.anchor is None,
        newline_ok(s),
    ensures
        backspace_ok(newlined(s)),
        backspaced(newlined(s)) == (BufferState {
            byte: clamp_byte(s.lines[s.row as int], s.byte) as usize,
            ..s
        }),
{
    lemma_unanchored(s);
    let r = s.row as int;
    let line = s.lines[r];
    let at = clamp_byte(line, s.byte);
    let c = chars_before(line, at) as int;
    let head = line.take(c);
    let tail = line.skip(c);
    crate::text::lemma_chars_before_bounds(line, at, at);
    assert(line =~= head + tail);
    lemma_byte_len_concat(head, tail);
    let t = newlined(s);
    let l1 = s.lines.update(r, head).insert(r + 1, tail);
    assert(t.lines == l1);
    assert(t.row == r + 1 && t.byte == 0 && t.anchor is None);
    lemma_unanchored(t);
    assert(l1[r] == head);
    assert(l1[r + 1] == tail);
    let l2 = l1.update(r, head + tail).remove(r + 1);
    assert(l2 =~= s.lines);
    assert(byte_len(head) == at) by {
        assert(is_boundary(line, at));
    }
    assert(byte_len(line) <= usize::MAX);
}

/// Selecting everything and copying gives the whole document, lines
/// joined by newlines, unless the document is empty.
pub proof fn lemma_select_all_copies_document(s: BufferState)
    requires
        state_ok(s),
        !(s.lines.len() == 1 && s.lines[0].len() == 0),
    ensures
        selected_text_of(all_selected(s)) == Some(join_with(s.lines, '\n')),
{
    let a = all_selected(s);
    let n = s.lines.len() as int;
    let last = s.lines[n - 1];
    assert(byte_len(last) <= usize::MAX);
    assert(byte_len(s.lines[0]) <= usize::MAX);
    lemma_whole_slice(last);
    lemma_whole_slice(s.lines[0]);
    if n == 1 {
        lemma_offset_strict(last, 0, last.len() as int);
        assert(last.take(0) =~= Seq::<char>::empty());
        assert(last.take(last.len() as int) =~= last);
        assert(byte_len(Seq::<char>::empty()) == 0);
        assert(selection_of(a) == Some(((0usize, 0usize), (0usize, byte_len(last) as usize))));
        assert(join_with(s.lines, '\n') == s.lines[0]);
    } else {
        assert(selection_of(a) == Some(((0usize, 0usize), ((n - 1) as usize, byte_len(last) as usize))));
        assert(seq![s.lines[0]] + s.lines.subrange(1, n - 1) + seq![last] =~= s.lines);
    }
}


/// How long after a click on a token a second click on the same token
/// still counts as a double click, in nanoseconds.
pub const DOUBLE_CLICK_NANOS: u64 = 750_000_000;

/// Tells double clicks on a token apart, also when the platform reports
/// each click alone: a click on the token clicked last, on the same row,
/// soon enough, counts as the second.
pub struct TokenClicks {
    last: Option<(u64, usize, (usize, usize))>,
}

/// Whether a click is a double click on a token, and what is remembered
/// after it: a double click forgets, a single click on a token remembers
/// when and where it was.
pub open spec fn token_click(
    last: Option<(u64, usize, (usize, usize))>,
    now: u64,
    row: usize,
    range: Option<(usize, usize)>,
    click_count: usize,
) -> (bool, Option<(u64, usize, (usize, usize))>) {
    let repeated = range matches Some(r) && last matches Some((at, last_row, last_range))
        && last_row == row && last_range == r && (if now >= at {
        now - at
    } else {
        0
    }) <= DOUBLE_CLICK_NANOS;
    let double = click_count >= 2 || repeated;
    (double, if double {
        None
    } else {
        match range {
            Some(r) => Some((now, row, r)),
            None => None,
        }
    })
}

impl TokenClicks {
    /// The click last remembered.
    pub closed spec fn last(&self) -> Option<(u64, usize, (usize, usize))> {
        self.last
    }

    /// Nothing remembered.
    pub fn new() -> (r: TokenClicks)
        ensures
            r.last() is None,
    {
        TokenClicks { last: None }
    }

    /// A click at time `now` (nanoseconds on a steady clock) on `row`,
    /// where `range` is the token under it and `click_count` what the
    /// platform counted; true for a double click on the token.
    pub fn click(
        &mut self,
        now: u64,
        row: usize,
        range: Option<(usize, usize)>,
        click_count: usize,
    ) -> (r: bool)
        ensures
            (r, final(self).last()) == token_click(old(self).last(), now, row, range, click_count),
    {
        let repeated = match (range, self.last) {
            (Some(r), Some((at, last_row, last_range))) => {
                let elapsed = if now >= at {
                    now - at
                } else {
                    0
                };
                last_row == row && last_range.0 == r.0 && last_range.1 == r.1 && elapsed
                    <= DOUBLE_CLICK_NANOS
            },
            _ => false,
        };
        let double = click_count >= 2 || repeated;
        self.last = if double {
            None
        } else {
            match range {
                Some(r) => Some((now, row, r)),
                None => None,
            }
        };
        double
    }
}

} // verus!
