//! The language-independent part of syntax highlighting: which grammar a
//! file uses, where its lines start, how a capture name maps onto the
//! palette, and how a node is cut into per-line spans.
use vstd::prelude::*;
use std::collections::HashMap;

use crate::paths::{extension, path_extension};
use crate::text::{byte_offset, chars_eq, chars_of, lemma_byte_offset_step, width_of};
use tree_sitter::StreamingIterator;

verus! {

/// A language the highlighter or a fenced code block can name.
#[derive(Clone, Copy, PartialEq, Eq, Structural, Debug)]
pub enum Lang {
    Rust,
    Swift,
    Python,
    JavaScript,
    TypeScript,
    Tsx,
    Json,
    Toml,
    Css,
    Html,
    Bash,
    Yaml,
    Plain,
}

/// The grammar a file is highlighted with, chosen by its extension.
pub open spec fn lang_for_extension(e: Option<Seq<char>>) -> Lang {
    match e {
        Some(x) => if x == "rs"@ {
            Lang::Rust
        } else if x == "swift"@ {
            Lang::Swift
        } else {
            Lang::Plain
        },
        None => Lang::Plain,
    }
}

impl Lang {
    /// `.rs` files are Rust, `.swift` files are Swift, the rest are plain.
    pub fn for_path(path: &str) -> (r: Lang)
        ensures
            r == lang_for_extension(extension(path@)),
    {
        match path_extension(path) {
            Some(e) => {
                let rs = chars_of("rs");
                let swift = chars_of("swift");
                if chars_eq(&e, &rs) {
                    Lang::Rust
                } else if chars_eq(&e, &swift) {
                    Lang::Swift
                } else {
                    Lang::Plain
                }
            },
            None => Lang::Plain,
        }
    }
}

/// Byte offsets at which lines start: 0, then one past every newline.
pub open spec fn line_starts_of(s: Seq<char>) -> Seq<usize>
    decreases s.len(),
{
    if s.len() == 0 {
        seq![0usize]
    } else if s.last() == '\n' {
        line_starts_of(s.drop_last()).push(byte_offset(s, s.len() as int) as usize)
    } else {
        line_starts_of(s.drop_last())
    }
}

/// Byte offset of the start of each line. A source over `usize::MAX` bytes
/// cannot exist, so its byte length is required to fit.
pub fn line_starts(source: &str) -> (r: Vec<usize>)
    requires
        byte_offset(source@, source@.len() as int) <= usize::MAX,
    ensures
        r@ == line_starts_of(source@),
{
    let s = chars_of(source);
    let mut starts: Vec<usize> = Vec::new();
    starts.push(0);
    let mut pos: u128 = 0;
    let mut k: usize = 0;
    assert(s@.take(0) =~= Seq::<char>::empty());
    while k < s.len()
        invariant
            k <= s@.len(),
            s@ == source@,
            pos == byte_offset(s@, k as int),
            pos <= 4 * k,
            byte_offset(s@, s@.len() as int) <= usize::MAX,
            starts@ == line_starts_of(s@.take(k as int)),
        decreases s@.len() - k,
    {
        proof {
            lemma_byte_offset_step(s@, k as int);
            crate::text::lemma_byte_offset_monotone(s@, k + 1, s@.len() as int);
            assert(s@.take(k + 1).drop_last() == s@.take(k as int));
            assert(s@.take(k + 1).last() == s@[k as int]);
            crate::text::lemma_prefix_offsets(s@, k + 1, k + 1);
            assert(s@.take(k + 1).len() == k + 1);
        }
        let c = s[k];
        pos = pos + width_of(c) as u128;
        if c == '\n' {
            starts.push(pos as usize);
        }
        k += 1;
    }
    assert(s@.take(s@.len() as int) == s@);
    starts
}

/// The top-level scope of a capture name: the text before the first `.`.
pub open spec fn scope_of(name: Seq<char>) -> Seq<char>
    decreases name.len(),
{
    if name.len() == 0 {
        name
    } else if name[0] == '.' {
        seq![]
    } else {
        seq![name[0]] + scope_of(name.skip(1))
    }
}

/// `keyword.function` and friends collapse onto `keyword`.
pub fn scope_key(name: &str) -> (r: Vec<char>)
    ensures
        r@ == scope_of(name@),
{
    let s = chars_of(name);
    let mut i: usize = 0;
    assert(s@.skip(0) == s@);
    while i < s.len() && s[i] != '.'
        invariant
            i <= s@.len(),
            s@ == name@,
            forall|j: int| 0 <= j < i ==> s@[j] != '.',
            scope_of(s@) == s@.take(i as int) + scope_of(s@.skip(i as int)),
        decreases s@.len() - i,
    {
        assert(s@.skip(i as int).skip(1) == s@.skip(i + 1));
        assert(s@.take(i + 1) == s@.take(i as int) + seq![s@[i as int]]);
        i += 1;
    }
    let r = crate::text::slice_chars(&s, 0, i);
    assert(scope_of(s@.skip(i as int)) =~= seq![]);
    assert(r@ =~= s@.take(i as int));
    r
}

/// The palette slot a capture scope is drawn in, or none for a scope the
/// palette leaves plain. Slots stand for the theme colours: accent (0),
/// untracked (1), to-do (2), added (3), secondary ink (4), modified (5),
/// ink (6) and blocked (7).
pub open spec fn slot_of(scope: Seq<char>) -> Option<u32> {
    if scope == "keyword"@ {
        Some(0)
    } else if scope == "function"@ {
        Some(1)
    } else if scope == "type"@ || scope == "constructor"@ || scope == "number"@ || scope
        == "constant"@ {
        Some(2)
    } else if scope == "string"@ {
        Some(3)
    } else if scope == "comment"@ || scope == "operator"@ || scope == "punctuation"@ {
        Some(4)
    } else if scope == "property"@ {
        Some(5)
    } else if scope == "variable"@ {
        Some(6)
    } else if scope == "attribute"@ || scope == "label"@ {
        Some(7)
    } else {
        None
    }
}

/// The palette slot of a capture name, by its top-level scope.
pub fn capture_slot(name: &str) -> (r: Option<u32>)
    ensures
        r == slot_of(scope_of(name@)),
{
    let scope = scope_key(name);
    let is = |a: &str| -> (b: bool)
        ensures
            b == (scope@ == a@),
        { chars_eq(&scope, &chars_of(a)) };
    if is("keyword") {
        Some(0)
    } else if is("function") {
        Some(1)
    } else if is("type") || is("constructor") || is("number") || is("constant") {
        Some(2)
    } else if is("string") {
        Some(3)
    } else if is("comment") || is("operator") || is("punctuation") {
        Some(4)
    } else if is("property") {
        Some(5)
    } else if is("variable") {
        Some(6)
    } else if is("attribute") || is("label") {
        Some(7)
    } else {
        None
    }
}

proof fn lemma_scope_prefix(p: Seq<char>, rest: Seq<char>)
    requires
        forall|i: int| 0 <= i < p.len() ==> p[i] != '.',
        rest.len() == 0 || rest[0] == '.',
    ensures
        scope_of(p + rest) == p,
    decreases p.len(),
{
    if p.len() == 0 {
        assert(p + rest =~= rest);
        if rest.len() > 0 {
            assert(rest[0] == '.');
        }
        assert(scope_of(rest) =~= p);
    } else {
        assert((p + rest)[0] == p[0]);
        assert((p + rest).skip(1) =~= p.skip(1) + rest);
        lemma_scope_prefix(p.skip(1), rest);
        assert(seq![p[0]] + p.skip(1) =~= p);
    }
}

/// The colour a capture is drawn in goes by its top-level scope, the part
/// of its name before the first dot: keywords in the accent, functions in
/// the untracked colour, types, constructors, numbers and constants in the
/// to-do colour, strings in the added colour, comments, operators and
/// punctuation in the secondary ink, properties in the modified colour,
/// variables in the ink, attributes and labels in the blocked colour; any
/// other scope stays plain. `rest` is what follows the scope: nothing, or a
/// dot and any refinement.
pub proof fn lemma_capture_colours(rest: Seq<char>)
    requires
        rest.len() == 0 || rest[0] == '.',
    ensures
        slot_of(scope_of("keyword"@ + rest)) == Some(0u32),
        slot_of(scope_of("function"@ + rest)) == Some(1u32),
        slot_of(scope_of("type"@ + rest)) == Some(2u32),
        slot_of(scope_of("constructor"@ + rest)) == Some(2u32),
        slot_of(scope_of("number"@ + rest)) == Some(2u32),
        slot_of(scope_of("constant"@ + rest)) == Some(2u32),
        slot_of(scope_of("string"@ + rest)) == Some(3u32),
        slot_of(scope_of("comment"@ + rest)) == Some(4u32),
        slot_of(scope_of("operator"@ + rest)) == Some(4u32),
        slot_of(scope_of("punctuation"@ + rest)) == Some(4u32),
        slot_of(scope_of("property"@ + rest)) == Some(5u32),
        slot_of(scope_of("variable"@ + rest)) == Some(6u32),
        slot_of(scope_of("attribute"@ + rest)) == Some(7u32),
        slot_of(scope_of("label"@ + rest)) == Some(7u32),
        slot_of(scope_of("embedded"@ + rest)) == None::<u32>,
        slot_of(scope_of("escape"@ + rest)) == None::<u32>,
{
    reveal_strlit("keyword");
    reveal_strlit("function");
    reveal_strlit("type");
    reveal_strlit("constructor");
    reveal_strlit("number");
    reveal_strlit("constant");
    reveal_strlit("string");
    reveal_strlit("comment");
    reveal_strlit("operator");
    reveal_strlit("punctuation");
    reveal_strlit("property");
    reveal_strlit("variable");
    reveal_strlit("attribute");
    reveal_strlit("label");
    reveal_strlit("embedded");
    reveal_strlit("escape");
    lemma_scope_prefix("keyword"@, rest);
    lemma_scope_prefix("function"@, rest);
    lemma_scope_prefix("type"@, rest);
    lemma_scope_prefix("constructor"@, rest);
    lemma_scope_prefix("number"@, rest);
    lemma_scope_prefix("constant"@, rest);
    lemma_scope_prefix("string"@, rest);
    lemma_scope_prefix("comment"@, rest);
    lemma_scope_prefix("operator"@, rest);
    lemma_scope_prefix("punctuation"@, rest);
    lemma_scope_prefix("property"@, rest);
    lemma_scope_prefix("variable"@, rest);
    lemma_scope_prefix("attribute"@, rest);
    lemma_scope_prefix("label"@, rest);
    lemma_scope_prefix("embedded"@, rest);
    lemma_scope_prefix("escape"@, rest);
}

/// Only the fourteen palette scopes are coloured: a capture whose
/// top-level scope is none of them stays plain.
pub proof fn lemma_other_scopes_plain(name: Seq<char>)
    requires
        scope_of(name) != "keyword"@,
        scope_of(name) != "function"@,
        scope_of(name) != "type"@,
        scope_of(name) != "constructor"@,
        scope_of(name) != "number"@,
        scope_of(name) != "constant"@,
        scope_of(name) != "string"@,
        scope_of(name) != "comment"@,
        scope_of(name) != "operator"@,
        scope_of(name) != "punctuation"@,
        scope_of(name) != "property"@,
        scope_of(name) != "variable"@,
        scope_of(name) != "attribute"@,
        scope_of(name) != "label"@,
    ensures
        slot_of(scope_of(name)) == None::<u32>,
{
}

/// One coloured byte range inside a line; `color` is a palette slot.
#[derive(Clone, Copy, Debug, PartialEq, Eq)]
pub struct Span {
    pub start: usize,
    pub end: usize,
    pub color: u32,
}

/// The per-line pieces of a node spanning `start_row..=end_row`: the first
/// and last rows start and end at the node, the rows between cover their
/// whole line (up to the byte before the next line start). Rows past the
/// line table are skipped, as are empty pieces.
pub open spec fn node_piece(
    row: int,
    start_row: int,
    start_byte: int,
    end_row: int,
    end_byte: int,
    line_starts: Seq<usize>,
    color: u32,
) -> Option<(usize, Span)> {
    if row >= line_starts.len() {
        None
    } else {
        let line_start = line_starts[row] as int;
        let line_end: int = if row + 1 < line_starts.len() {
            if line_starts[row + 1] == 0 {
                0
            } else {
                line_starts[row + 1] - 1
            }
        } else {
            usize::MAX as int
        };
        let s = if row == start_row {
            start_byte
        } else {
            line_start
        };
        let e = if row == end_row {
            end_byte
        } else {
            line_end
        };
        if e <= s {
            None
        } else {
            Some(
                (
                    row as usize,
                    Span {
                        start: (s - line_start) as usize,
                        end: if e < line_start {
                            0usize
                        } else {
                            (e - line_start) as usize
                        },
                        color,
                    },
                ),
            )
        }
    }
}

/// All pieces of a node for rows `start_row .. row`.
pub open spec fn node_pieces(
    row: int,
    start_row: int,
    start_byte: int,
    end_row: int,
    end_byte: int,
    line_starts: Seq<usize>,
    color: u32,
) -> Seq<(usize, Span)>
    decreases row - start_row,
{
    if row <= start_row {
        seq![]
    } else {
        let before = node_pieces(row - 1, start_row, start_byte, end_row, end_byte, line_starts, color);
        match node_piece(row - 1, start_row, start_byte, end_row, end_byte, line_starts, color) {
            Some(p) => before.push(p),
            None => before,
        }
    }
}

/// Cuts a node into line-relative spans, one per row it touches. Line starts
/// come from `line_starts`; a node that starts before its own line start
/// would underflow, so that input is excluded.
pub fn node_spans(
    start_row: usize,
    start_byte: usize,
    end_row: usize,
    end_byte: usize,
    line_starts: &[usize],
    color: u32,
) -> (r: Vec<(usize, Span)>)
    requires
        end_row < usize::MAX,
        start_row < line_starts@.len() ==> line_starts@[start_row as int] <= start_byte,
    ensures
        r@ == node_pieces(
            end_row + 1,
            start_row as int,
            start_byte as int,
            end_row as int,
            end_byte as int,
            line_starts@,
            color,
        ),
{
    let mut out: Vec<(usize, Span)> = Vec::new();
    let mut row = start_row;
    if start_row > end_row {
        return out;
    }
    while row <= end_row
        invariant
            start_row <= row <= end_row + 1,
            end_row < usize::MAX,
            start_row < line_starts@.len() ==> line_starts@[start_row as int] <= start_byte,
            out@ == node_pieces(
                row as int,
                start_row as int,
                start_byte as int,
                end_row as int,
                end_byte as int,
                line_starts@,
                color,
            ),
        decreases end_row + 1 - row,
    {
        if row < line_starts.len() {
            let line_start = line_starts[row];
            let line_end: usize = if row + 1 < line_starts.len() {
                line_starts[row + 1].saturating_sub(1)
            } else {
                usize::MAX
            };
            let span_start = if row == start_row {
                start_byte
            } else {
                line_start
            };
            let span_end = if row == end_row {
                end_byte
            } else {
                line_end
            };
            if span_end > span_start {
                let span = Span {
                    start: span_start - line_start,
                    end: span_end.saturating_sub(line_start),
                    color,
                };
                out.push((row, span));
            }
        }
        row += 1;
    }
    out
}


/// Whether span `s` colours byte `b`.
pub open spec fn covers(s: Span, b: int) -> bool {
    s.start <= b < s.end
}

/// Whether span `i` claims its bytes before span `j`: it is narrower, or as
/// wide and starting earlier, or the same range and earlier in the input.
pub open spec fn claims_before(spans: Seq<Span>, i: int, j: int) -> bool {
    let wi = spans[i].end - spans[i].start;
    let wj = spans[j].end - spans[j].start;
    wi < wj || (wi == wj && (spans[i].start < spans[j].start || (spans[i].start == spans[j].start
        && i < j)))
}

/// Span `i` owns byte `b`: it covers `b`, and claims before every other span
/// that covers `b`.
pub open spec fn owns(spans: Seq<Span>, i: int, b: int) -> bool {
    &&& 0 <= i < spans.len()
    &&& covers(spans[i], b)
    &&& forall|j: int|
        0 <= j < spans.len() && j != i && #[trigger] covers(spans[j], b) ==> claims_before(
            spans,
            i,
            j,
        )
}

/// Some span covers byte `b`.
pub open spec fn covered(spans: Seq<Span>, b: int) -> bool {
    exists|i: int| 0 <= i < spans.len() && #[trigger] covers(spans[i], b)
}

/// The byte `b` is coloured `c` by its owner.
pub open spec fn owner_colour(spans: Seq<Span>, b: int, c: u32) -> bool {
    exists|i: int| #[trigger] owns(spans, i, b) && spans[i].color == c
}

/// `r` is the flattened form of `spans`: non-empty runs in order without
/// overlap, covering exactly the bytes some span covers, each byte in the
/// colour of the span that owns it (narrowest wins), and no two touching
/// runs of the same colour.
pub open spec fn flattened(spans: Seq<Span>, r: Seq<Span>) -> bool {
    &&& forall|k: int| 0 <= k < r.len() ==> (#[trigger] r[k]).start < r[k].end
    &&& forall|k: int, l: int| 0 <= k < l < r.len() ==> (#[trigger] r[k]).end <= (#[trigger] r[l]).start
    &&& forall|k: int|
        0 < k < r.len() && (#[trigger] r[k]).start == r[k - 1].end ==> r[k].color != r[k - 1].color
    &&& forall|b: int|
        #![trigger covered(spans, b)]
        covered(spans, b) <==> exists|k: int| 0 <= k < r.len() && #[trigger] covers(r[k], b)
    &&& forall|k: int, b: int|
        0 <= k < r.len() && #[trigger] covers(r[k], b) ==> owner_colour(spans, b, r[k].color)
}

/// Between `pos` and `next`, with no span boundary strictly between them,
/// every span covers every byte exactly when it covers `pos`.
proof fn lemma_uniform(spans: Seq<Span>, pos: int, next: int, b: int, j: int)
    requires
        pos <= b < next,
        0 <= j < spans.len(),
        spans[j].start > pos ==> spans[j].start >= next,
        spans[j].end > pos ==> spans[j].end >= next,
    ensures
        covers(spans[j], b) == covers(spans[j], pos),
{
}

/// Flattens overlapping spans into one run per byte range. Narrowest wins:
/// a byte takes the colour of the narrowest span covering it (the earlier
/// start, then the earlier span, among equally wide ones); touching runs of
/// one colour merge. Fewer than two spans come back unchanged.
pub fn resolve_overlaps(spans: Vec<Span>) -> (r: Vec<Span>)
    requires
        forall|i: int| 0 <= i < spans@.len() ==> (#[trigger] spans@[i]).start <= spans@[i].end,
    ensures
        spans@.len() < 2 ==> r@ == spans@,
        spans@.len() >= 2 ==> flattened(spans@, r@),
{
    if spans.len() < 2 {
        return spans;
    }
    let ghost sp = spans@;
    let n = spans.len();
    let mut out: Vec<Span> = Vec::new();
    let mut pos: usize = 0;
    let mut done = false;
    while !done
        invariant
            sp == spans@,
            n == sp.len(),
            forall|i: int| 0 <= i < n ==> (#[trigger] sp[i]).start <= sp[i].end,
            forall|k: int| 0 <= k < out@.len() ==> (#[trigger] out@[k]).start < out@[k].end,
            forall|k: int| 0 <= k < out@.len() ==> (#[trigger] out@[k]).end <= pos,
            forall|k: int, l: int|
                0 <= k < l < out@.len() ==> (#[trigger] out@[k]).end <= (#[trigger] out@[l]).start,
            forall|k: int|
                0 < k < out@.len() && (#[trigger] out@[k]).start == out@[k - 1].end
                    ==> out@[k].color != out@[k - 1].color,
            forall|b: int|
                #![trigger covered(sp, b)]
                0 <= b < pos ==> (covered(sp, b) <==> exists|k: int|
                    0 <= k < out@.len() && #[trigger] covers(out@[k], b)),
            forall|k: int, b: int|
                0 <= k < out@.len() && #[trigger] covers(out@[k], b) ==> owner_colour(
                    sp,
                    b,
                    out@[k].color,
                ),
            done ==> forall|j: int| 0 <= j < n ==> (#[trigger] sp[j]).end <= pos,
        decreases usize::MAX - pos, (if done { 0int } else { 1int }),
    {
        // The smallest span boundary after `pos`.
        let mut next: usize = 0;
        let mut found = false;
        let mut i: usize = 0;
        while i < n
            invariant
                sp == spans@,
                n == sp.len(),
                i <= n,
                found ==> next > pos,
                forall|j: int|
                    0 <= j < i ==> ((#[trigger] sp[j]).start > pos ==> found && sp[j].start >= next)
                        && (sp[j].end > pos ==> found && sp[j].end >= next),
            decreases n - i,
        {
            let s = spans[i].start;
            let e = spans[i].end;
            if s > pos && (!found || s < next) {
                next = s;
                found = true;
            }
            if e > pos && (!found || e < next) {
                next = e;
                found = true;
            }
            i += 1;
        }
        if !found {
            done = true;
        } else {
            // The span that owns `pos`, if any covers it.
            let mut best: usize = 0;
            let mut owned: bool = false;
            let mut i: usize = 0;
            while i < n
                invariant
                    sp == spans@,
                    n == sp.len(),
                    i <= n,
                    owned ==> best < i,
                    owned ==> covers(sp[best as int], pos as int),
                    owned ==> forall|j: int|
                        0 <= j < i && j != best && #[trigger] covers(sp[j], pos as int)
                            ==> claims_before(sp, best as int, j),
                    !owned ==> forall|j: int| 0 <= j < i ==> !#[trigger] covers(sp[j], pos as int),
                decreases n - i,
            {
                let s = spans[i];
                if s.start <= pos && pos < s.end {
                    if !owned {
                        best = i;
                        owned = true;
                    } else {
                        let b = spans[best];
                        let wi = s.end - s.start;
                        let wb = b.end - b.start;
                        if wi < wb || (wi == wb && s.start < b.start) {
                            best = i;
                        }
                    }
                }
                i += 1;
            }
            if owned {
                let c = spans[best].color;
                let ghost owner = best as int;
                proof {
                    assert forall|b: int| pos <= b < next implies owns(sp, owner, b) by {
                        lemma_uniform(sp, pos as int, next as int, b, owner);
                        assert forall|j: int|
                            0 <= j < sp.len() && j != owner && #[trigger] covers(
                                sp[j],
                                b,
                            ) implies claims_before(sp, owner, j) by {
                            lemma_uniform(sp, pos as int, next as int, b, j);
                        }
                    }
                }
                let ghost old_out = out@;
                let len = out.len();
                if len > 0 && out[len - 1].end == pos && out[len - 1].color == c {
                    let last = out[len - 1];
                    out.set(len - 1, Span { start: last.start, end: next, color: c });
                    proof {
                        assert forall|k: int, b: int|
                            0 <= k < out@.len() && #[trigger] covers(out@[k], b) implies owner_colour(
                            sp,
                            b,
                            out@[k].color,
                        ) by {
                            if k == len - 1 && b >= pos {
                                assert(owns(sp, owner, b));
                            } else if k == len - 1 {
                                assert(covers(old_out[k], b));
                            } else {
                                assert(covers(old_out[k], b));
                            }
                        }
                    }
                } else {
                    out.push(Span { start: pos, end: next, color: c });
                    proof {
                        assert forall|k: int, b: int|
                            0 <= k < out@.len() && #[trigger] covers(out@[k], b) implies owner_colour(
                            sp,
                            b,
                            out@[k].color,
                        ) by {
                            if k == len {
                                assert(owns(sp, owner, b));
                            } else {
                                assert(covers(old_out[k], b));
                            }
                        }
                    }
                }
                proof {
                    let m = out@.len() - 1;
                    assert forall|b: int|
                        #![trigger covered(sp, b)]
                        0 <= b < next implies (covered(sp, b) <==> exists|k: int|
                            0 <= k < out@.len() && #[trigger] covers(out@[k], b)) by {
                        if b >= pos {
                            lemma_uniform(sp, pos as int, next as int, b, owner);
                            assert(covers(sp[owner], b));
                            assert(covers(out@[m], b));
                        } else {
                            if covered(sp, b) {
                                let k = choose|k: int|
                                    0 <= k < old_out.len() && #[trigger] covers(old_out[k], b);
                                assert(covers(out@[k], b));
                            }
                            if exists|k: int| 0 <= k < out@.len() && #[trigger] covers(out@[k], b) {
                                let k = choose|k: int|
                                    0 <= k < out@.len() && #[trigger] covers(out@[k], b);
                                if k < old_out.len() {
                                    assert(covers(old_out[k], b));
                                } else {
                                    assert(covers(old_out[k - 1], b) || true);
                                }
                            }
                        }
                    }
                }
            } else {
                proof {
                    assert forall|b: int|
                        #![trigger covered(sp, b)]
                        0 <= b < next implies (covered(sp, b) <==> exists|k: int|
                            0 <= k < out@.len() && #[trigger] covers(out@[k], b)) by {
                        if b >= pos {
                            if covered(sp, b) {
                                let j = choose|j: int| 0 <= j < sp.len() && #[trigger] covers(sp[j], b);
                                lemma_uniform(sp, pos as int, next as int, b, j);
                            }
                        }
                    }
                }
            }
            pos = next;
        }
    }
    proof {
        assert forall|b: int|
            #![trigger covered(sp, b)]
            covered(sp, b) <==> exists|k: int| 0 <= k < out@.len() && #[trigger] covers(out@[k], b) by {
            if b >= pos {
                if covered(sp, b) {
                    let j = choose|j: int| 0 <= j < sp.len() && #[trigger] covers(sp[j], b);
                    assert(sp[j].end <= pos);
                }
            }
        }
        assert forall|k: int, l: int| 0 <= k < l < out@.len() implies (#[trigger] out@[k]).end <= (
        #[trigger] out@[l]).start by {
        }
    }
    out
}


/// One capture of a highlight query: its capture name and where its node
/// starts and ends (row, and byte in the source).
#[derive(Clone, Debug)]
pub struct Capture {
    pub name: String,
    pub start_row: usize,
    pub start_byte: usize,
    pub end_row: usize,
    pub end_byte: usize,
}

/// The line pieces a capture colours, or none when its scope is plain.
pub open spec fn capture_pieces(c: Capture, starts: Seq<usize>) -> Seq<(usize, Span)> {
    match slot_of(scope_of(c.name@)) {
        None => seq![],
        Some(color) => node_pieces(
            c.end_row + 1,
            c.start_row as int,
            c.start_byte as int,
            c.end_row as int,
            c.end_byte as int,
            starts,
            color,
        ),
    }
}

/// The pieces of every capture, in order.
pub open spec fn all_pieces(cs: Seq<Capture>, starts: Seq<usize>) -> Seq<(usize, Span)>
    decreases cs.len(),
{
    if cs.len() == 0 {
        seq![]
    } else {
        all_pieces(cs.drop_last(), starts) + capture_pieces(cs.last(), starts)
    }
}

/// The spans of the pieces on line `row`, in order.
pub open spec fn row_pieces(ps: Seq<(usize, Span)>, row: usize) -> Seq<Span>
    decreases ps.len(),
{
    if ps.len() == 0 {
        seq![]
    } else {
        let prev = row_pieces(ps.drop_last(), row);
        if ps.last().0 == row {
            prev.push(ps.last().1)
        } else {
            prev
        }
    }
}

/// A capture a tree gives for a source with these line starts: it does
/// not start before its own line.
pub open spec fn capture_fits(c: Capture, starts: Seq<usize>) -> bool {
    &&& c.end_row < usize::MAX
    &&& c.start_row < starts.len() ==> starts[c.start_row as int] <= c.start_byte
}

/// `r` holds, for each line some piece falls on, that line and its
/// flattened spans; each line once.
pub open spec fn grouped(ps: Seq<(usize, Span)>, r: Seq<(usize, Seq<Span>)>) -> bool {
    &&& forall|i: int, j: int| 0 <= i < j < r.len() ==> (#[trigger] r[i]).0 != (#[trigger] r[j]).0
    &&& forall|k: int| 0 <= k < ps.len() ==> exists|i: int| 0 <= i < r.len() && (#[trigger] r[i]).0 == (#[trigger] ps[k]).0
    &&& forall|i: int| 0 <= i < r.len() ==> row_pieces(ps, (#[trigger] r[i]).0).len() > 0
    &&& forall|i: int|
        0 <= i < r.len() ==> {
            let sp = row_pieces(ps, (#[trigger] r[i]).0);
            &&& sp.len() < 2 ==> r[i].1 == sp
            &&& sp.len() >= 2 ==> flattened(sp, r[i].1)
        }
}

pub open spec fn rows_view(r: Seq<(usize, Vec<Span>)>) -> Seq<(usize, Seq<Span>)> {
    r.map_values(|x: (usize, Vec<Span>)| (x.0, x.1@))
}

proof fn lemma_row_pieces_push(ps: Seq<(usize, Span)>, p: (usize, Span), row: usize)
    ensures
        row_pieces(ps.push(p), row) == (if p.0 == row {
            row_pieces(ps, row).push(p.1)
        } else {
            row_pieces(ps, row)
        }),
{
    assert(ps.push(p).drop_last() =~= ps);
}

proof fn lemma_row_pieces_empty(ps: Seq<(usize, Span)>, row: usize)
    requires
        forall|k: int| 0 <= k < ps.len() ==> (#[trigger] ps[k]).0 != row,
    ensures
        row_pieces(ps, row) == Seq::<Span>::empty(),
    decreases ps.len(),
{
    if ps.len() > 0 {
        lemma_row_pieces_empty(ps.drop_last(), row);
    }
}

/// The spans each line gets from a set of captures: every capture in a
/// palette scope is cut into line pieces, the pieces are gathered per line
/// and each line's pieces are flattened, narrowest first.
pub fn spans_from_captures(captures: &Vec<Capture>, line_starts: &Vec<usize>) -> (r: Vec<(usize, Vec<Span>)>)
    requires
        forall|k: int| 0 <= k < captures@.len() ==> capture_fits(#[trigger] captures@[k], line_starts@),
    ensures
        grouped(all_pieces(captures@, line_starts@), rows_view(r@)),
{
    let ghost starts = line_starts@;
    let mut pieces: Vec<(usize, Span)> = Vec::new();
    let mut k: usize = 0;
    while k < captures.len()
        invariant
            k <= captures@.len(),
            starts == line_starts@,
            forall|x: int| 0 <= x < captures@.len() ==> capture_fits(#[trigger] captures@[x], starts),
            pieces@ == all_pieces(captures@.take(k as int), starts),
        decreases captures@.len() - k,
    {
        let c = &captures[k];
        assert(captures@.take(k + 1).drop_last() =~= captures@.take(k as int));
        assert(captures@.take(k + 1).last() == captures@[k as int]);
        assert(capture_fits(captures@[k as int], starts));
        match capture_slot(c.name.as_str()) {
            Some(color) => {
                let more = node_spans(c.start_row, c.start_byte, c.end_row, c.end_byte, line_starts.as_slice(), color);
                let mut i: usize = 0;
                let ghost base = pieces@;
                while i < more.len()
                    invariant
                        i <= more@.len(),
                        pieces@ == base + more@.take(i as int),
                    decreases more@.len() - i,
                {
                    pieces.push(more[i]);
                    assert(more@.take(i + 1) =~= more@.take(i as int).push(more@[i as int]));
                    i += 1;
                }
                assert(more@.take(more@.len() as int) =~= more@);
            },
            None => {
                assert(pieces@ =~= pieces@ + Seq::<(usize, Span)>::empty());
            },
        }
        k += 1;
    }
    assert(captures@.take(captures@.len() as int) =~= captures@);
    let ghost ps = pieces@;
    // Gather the pieces per line, in the order lines first appear.
    let mut rows: Vec<(usize, Vec<Span>)> = Vec::new();
    let mut k: usize = 0;
    while k < pieces.len()
        invariant
            k <= ps.len(),
            ps == pieces@,
            forall|i: int, j: int| 0 <= i < j < rows@.len() ==> (#[trigger] rows@[i]).0 != (#[trigger] rows@[j]).0,
            forall|x: int| 0 <= x < k ==> exists|i: int| 0 <= i < rows@.len() && (#[trigger] rows@[i]).0 == (#[trigger] ps[x]).0,
            forall|i: int| 0 <= i < rows@.len() ==> (#[trigger] rows@[i]).1@ == row_pieces(ps.take(k as int), rows@[i].0),
            forall|i: int| 0 <= i < rows@.len() ==> row_pieces(ps.take(k as int), (#[trigger] rows@[i]).0).len() > 0,
            forall|row: usize| (forall|i: int| 0 <= i < rows@.len() ==> (#[trigger] rows@[i]).0 != row)
                ==> #[trigger] row_pieces(ps.take(k as int), row) == Seq::<Span>::empty(),
        decreases ps.len() - k,
    {
        let (row, span) = pieces[k];
        proof {
            assert(ps.take(k + 1) =~= ps.take(k as int).push(ps[k as int]));
        }
        let mut j: usize = 0;
        while j < rows.len() && rows[j].0 != row
            invariant
                j <= rows@.len(),
                forall|i: int| 0 <= i < j ==> (#[trigger] rows@[i]).0 != row,
            decreases rows@.len() - j,
        {
            j += 1;
        }
        let ghost old_rows = rows@;
        if j < rows.len() {
            rows[j].1.push(span);
            proof {
                assert forall|i: int| 0 <= i < rows@.len() implies (#[trigger] rows@[i]).1@ == row_pieces(
                    ps.take(k + 1),
                    rows@[i].0,
                ) by {
                    lemma_row_pieces_push(ps.take(k as int), ps[k as int], rows@[i].0);
                    if i != j {
                        assert(rows@[i] == old_rows[i]);
                    }
                }
                assert forall|i: int| 0 <= i < rows@.len() implies row_pieces(ps.take(k + 1), (#[trigger] rows@[i]).0).len() > 0 by {
                    lemma_row_pieces_push(ps.take(k as int), ps[k as int], rows@[i].0);
                    assert(rows@[i].0 == old_rows[i].0);
                }
                assert forall|x: int| 0 <= x < k + 1 implies exists|i: int| 0 <= i < rows@.len() && (#[trigger] rows@[i]).0 == (#[trigger] ps[x]).0 by {
                    if x == k {
                        assert(rows@[j as int].0 == ps[x].0);
                    } else {
                        let i = choose|i: int| 0 <= i < old_rows.len() && (#[trigger] old_rows[i]).0 == ps[x].0;
                        assert(rows@[i].0 == ps[x].0);
                    }
                }
                assert forall|r: usize| (forall|i: int| 0 <= i < rows@.len() ==> (#[trigger] rows@[i]).0 != r)
                    implies #[trigger] row_pieces(ps.take(k + 1), r) == Seq::<Span>::empty() by {
                    lemma_row_pieces_push(ps.take(k as int), ps[k as int], r);
                    assert forall|i: int| 0 <= i < old_rows.len() implies (#[trigger] old_rows[i]).0 != r by {
                        assert(rows@[i].0 == old_rows[i].0);
                    }
                    assert(rows@[j as int].0 == row);
                }
            }
        } else {
            let mut v: Vec<Span> = Vec::new();
            v.push(span);
            rows.push((row, v));
            proof {
                assert forall|i: int| 0 <= i < rows@.len() implies (#[trigger] rows@[i]).1@ == row_pieces(
                    ps.take(k + 1),
                    rows@[i].0,
                ) by {
                    lemma_row_pieces_push(ps.take(k as int), ps[k as int], rows@[i].0);
                    if i < old_rows.len() {
                        assert(rows@[i] == old_rows[i]);
                    } else {
                        assert(row_pieces(ps.take(k as int), row) == Seq::<Span>::empty());
                        assert(v@ =~= Seq::<Span>::empty().push(span));
                    }
                }
                assert forall|i: int| 0 <= i < rows@.len() implies row_pieces(ps.take(k + 1), (#[trigger] rows@[i]).0).len() > 0 by {
                    lemma_row_pieces_push(ps.take(k as int), ps[k as int], rows@[i].0);
                    if i < old_rows.len() {
                        assert(rows@[i] == old_rows[i]);
                    }
                }
                assert forall|x: int| 0 <= x < k + 1 implies exists|i: int| 0 <= i < rows@.len() && (#[trigger] rows@[i]).0 == (#[trigger] ps[x]).0 by {
                    if x == k {
                        assert(rows@[old_rows.len() as int].0 == ps[x].0);
                    } else {
                        let i = choose|i: int| 0 <= i < old_rows.len() && (#[trigger] old_rows[i]).0 == ps[x].0;
                        assert(rows@[i] == old_rows[i]);
                    }
                }
                assert forall|r: usize| (forall|i: int| 0 <= i < rows@.len() ==> (#[trigger] rows@[i]).0 != r)
                    implies #[trigger] row_pieces(ps.take(k + 1), r) == Seq::<Span>::empty() by {
                    lemma_row_pieces_push(ps.take(k as int), ps[k as int], r);
                    assert forall|i: int| 0 <= i < old_rows.len() implies (#[trigger] old_rows[i]).0 != r by {
                        assert(rows@[i] == old_rows[i]);
                    }
                    assert(rows@[old_rows.len() as int].0 == row);
                }
                assert forall|a: int, b: int| 0 <= a < b < rows@.len() implies (#[trigger] rows@[a]).0 != (#[trigger] rows@[b]).0 by {
                    if b == old_rows.len() {
                        assert(rows@[a] == old_rows[a]);
                    } else {
                        assert(rows@[a] == old_rows[a]);
                        assert(rows@[b] == old_rows[b]);
                    }
                }
            }
        }
        k += 1;
    }
    assert(ps.take(ps.len() as int) =~= ps);
    proof {
        lemma_all_pieces_ordered(captures@, starts);
    }
    // Flatten each line.
    let mut out: Vec<(usize, Vec<Span>)> = Vec::new();
    let n = rows.len();
    let mut i: usize = 0;
    while i < n
        invariant
            i <= n,
            n == rows@.len(),
            out@.len() == i,
            forall|x: int| 0 <= x < i ==> (#[trigger] out@[x]).0 == rows@[x].0,
            forall|x: int|
                0 <= x < i ==> {
                    let sp = rows@[x].1@;
                    &&& sp.len() < 2 ==> (#[trigger] out@[x]).1@ == sp
                    &&& sp.len() >= 2 ==> flattened(sp, out@[x].1@)
                },
            forall|x: int| 0 <= x < n ==> (#[trigger] rows@[x]).1@ == row_pieces(ps, rows@[x].0),
            forall|q: int| 0 <= q < ps.len() ==> (#[trigger] ps[q]).1.start <= ps[q].1.end,
        decreases n - i,
    {
        let row = rows[i].0;
        let spans = rows[i].1.clone();
        assert(spans@ == rows@[i as int].1@);
        proof {
            lemma_row_pieces_ordered(ps, row);
        }
        let flat = resolve_overlaps(spans);
        out.push((row, flat));
        i += 1;
    }
    proof {
        let rv = rows_view(out@);
        assert(rv.len() == rows@.len());
        assert forall|x: int, y: int| 0 <= x < y < rv.len() implies (#[trigger] rv[x]).0 != (#[trigger] rv[y]).0 by {
            assert(rows@[x].0 != rows@[y].0);
        }
        assert forall|x: int| 0 <= x < rv.len() implies row_pieces(ps, (#[trigger] rv[x]).0).len() > 0 by {
            assert(rv[x].0 == rows@[x].0);
        }
        assert forall|x: int| 0 <= x < rv.len() implies {
            let sp = row_pieces(ps, (#[trigger] rv[x]).0);
            &&& sp.len() < 2 ==> rv[x].1 == sp
            &&& sp.len() >= 2 ==> flattened(sp, rv[x].1)
        } by {
            assert(rv[x].0 == rows@[x].0);
            assert(rv[x].1 == out@[x].1@);
            assert(rows@[x].1@ == row_pieces(ps, rows@[x].0));
        }
        assert forall|q: int| 0 <= q < ps.len() implies exists|x: int| 0 <= x < rv.len() && (#[trigger] rv[x]).0 == (#[trigger] ps[q]).0 by {
            let x = choose|x: int| 0 <= x < rows@.len() && (#[trigger] rows@[x]).0 == ps[q].0;
            assert(rv[x].0 == rows@[x].0);
        }
    }
    out
}


proof fn lemma_node_pieces_ordered(
    row: int,
    start_row: int,
    start_byte: int,
    end_row: int,
    end_byte: int,
    ls: Seq<usize>,
    color: u32,
)
    requires
        0 <= start_row,
        0 <= start_byte <= usize::MAX,
        0 <= end_byte <= usize::MAX,
        start_row < ls.len() ==> ls[start_row] <= start_byte,
    ensures
        forall|k: int|
            0 <= k < node_pieces(row, start_row, start_byte, end_row, end_byte, ls, color).len()
                ==> (#[trigger] node_pieces(row, start_row, start_byte, end_row, end_byte, ls, color)[k]).1.start
                <= node_pieces(row, start_row, start_byte, end_row, end_byte, ls, color)[k].1.end,
    decreases row - start_row,
{
    if row > start_row {
        lemma_node_pieces_ordered(row - 1, start_row, start_byte, end_row, end_byte, ls, color);
        let before = node_pieces(row - 1, start_row, start_byte, end_row, end_byte, ls, color);
        match node_piece(row - 1, start_row, start_byte, end_row, end_byte, ls, color) {
            Some(p) => {
                assert(p.1.start <= p.1.end);
                let all = before.push(p);
                assert forall|k: int| 0 <= k < all.len() implies (#[trigger] all[k]).1.start <= all[k].1.end by {
                    if k < before.len() {
                        assert(all[k] == before[k]);
                    }
                }
            },
            None => {},
        }
    }
}

proof fn lemma_all_pieces_ordered(cs: Seq<Capture>, starts: Seq<usize>)
    requires
        forall|x: int| 0 <= x < cs.len() ==> capture_fits(#[trigger] cs[x], starts),
    ensures
        forall|q: int| 0 <= q < all_pieces(cs, starts).len() ==> (#[trigger] all_pieces(cs, starts)[q]).1.start
            <= all_pieces(cs, starts)[q].1.end,
    decreases cs.len(),
{
    if cs.len() > 0 {
        let d = cs.drop_last();
        assert forall|x: int| 0 <= x < d.len() implies capture_fits(#[trigger] d[x], starts) by {
            assert(d[x] == cs[x]);
        }
        lemma_all_pieces_ordered(d, starts);
        let c = cs.last();
        assert(capture_fits(cs[cs.len() - 1], starts));
        match slot_of(scope_of(c.name@)) {
            Some(color) => {
                lemma_node_pieces_ordered(
                    c.end_row + 1,
                    c.start_row as int,
                    c.start_byte as int,
                    c.end_row as int,
                    c.end_byte as int,
                    starts,
                    color,
                );
            },
            None => {},
        }
        let a = all_pieces(d, starts);
        let b = capture_pieces(c, starts);
        assert forall|q: int| 0 <= q < (a + b).len() implies (#[trigger] (a + b)[q]).1.start <= (a + b)[q].1.end by {
            if q < a.len() {
                assert((a + b)[q] == a[q]);
            } else {
                assert((a + b)[q] == b[q - a.len()]);
            }
        }
    }
}

proof fn lemma_row_pieces_ordered(ps: Seq<(usize, Span)>, row: usize)
    requires
        forall|q: int| 0 <= q < ps.len() ==> (#[trigger] ps[q]).1.start <= ps[q].1.end,
    ensures
        forall|q: int| 0 <= q < row_pieces(ps, row).len() ==> (#[trigger] row_pieces(ps, row)[q]).start
            <= row_pieces(ps, row)[q].end,
    decreases ps.len(),
{
    if ps.len() > 0 {
        let d = ps.drop_last();
        assert forall|q: int| 0 <= q < d.len() implies (#[trigger] d[q]).1.start <= d[q].1.end by {
            assert(d[q] == ps[q]);
        }
        lemma_row_pieces_ordered(d, row);
        assert(ps.last() == ps[ps.len() - 1]);
        let prev = row_pieces(d, row);
        if ps.last().0 == row {
            let all = prev.push(ps.last().1);
            assert forall|q: int| 0 <= q < all.len() implies (#[trigger] all[q]).start <= all[q].end by {
                if q < prev.len() {
                    assert(all[q] == prev[q]);
                }
            }
        }
    }
}


#[verifier::external_type_specification]
#[verifier::external_body]
pub struct ExTsLanguage(tree_sitter::Language);

#[verifier::external_type_specification]
#[verifier::external_body]
pub struct ExTsParser(tree_sitter::Parser);

#[verifier::external_type_specification]
#[verifier::external_body]
pub struct ExTsQuery(tree_sitter::Query);

#[verifier::external_type_specification]
#[verifier::external_body]
pub struct ExTsTree(tree_sitter::Tree);

#[verifier::external_type_specification]
#[verifier::external_body]
pub struct ExTsQueryCursor(tree_sitter::QueryCursor);

/// A grammar, with the language it is the grammar of.
pub struct Grammar {
    lang: Lang,
    language: tree_sitter::Language,
}

impl Grammar {
    /// The language this is the grammar of.
    pub closed spec fn lang(&self) -> Lang {
        self.lang
    }
}

/// `tree_sitter_rust::LANGUAGE`, the Rust grammar.
#[verifier::external_body]
pub(crate) fn rust_grammar() -> (r: Grammar)
    ensures
        r.lang() == Lang::Rust,
{
    Grammar { lang: Lang::Rust, language: tree_sitter_rust::LANGUAGE.into() }
}

/// `tree_sitter_swift::LANGUAGE`, the Swift grammar.
#[verifier::external_body]
pub(crate) fn swift_grammar() -> (r: Grammar)
    ensures
        r.lang() == Lang::Swift,
{
    Grammar { lang: Lang::Swift, language: tree_sitter_swift::LANGUAGE.into() }
}

/// `tree_sitter_python::LANGUAGE`, the Python grammar.
#[verifier::external_body]
pub(crate) fn python_grammar() -> (r: Grammar)
    ensures
        r.lang() == Lang::Python,
{
    Grammar { lang: Lang::Python, language: tree_sitter_python::LANGUAGE.into() }
}

/// `tree_sitter_javascript::LANGUAGE`, the JavaScript grammar.
#[verifier::external_body]
pub(crate) fn javascript_grammar() -> (r: Grammar)
    ensures
        r.lang() == Lang::JavaScript,
{
    Grammar { lang: Lang::JavaScript, language: tree_sitter_javascript::LANGUAGE.into() }
}

/// `tree_sitter_typescript::LANGUAGE_TYPESCRIPT`, the TypeScript grammar.
#[verifier::external_body]
pub(crate) fn typescript_grammar() -> (r: Grammar)
    ensures
        r.lang() == Lang::TypeScript,
{
    Grammar { lang: Lang::TypeScript, language: tree_sitter_typescript::LANGUAGE_TYPESCRIPT.into() }
}

/// `tree_sitter_typescript::LANGUAGE_TSX`, the TSX grammar.
#[verifier::external_body]
pub(crate) fn tsx_grammar() -> (r: Grammar)
    ensures
        r.lang() == Lang::Tsx,
{
    Grammar { lang: Lang::Tsx, language: tree_sitter_typescript::LANGUAGE_TSX.into() }
}

/// `tree_sitter_bash::LANGUAGE`, the Bash grammar.
#[verifier::external_body]
pub(crate) fn bash_grammar() -> (r: Grammar)
    ensures
        r.lang() == Lang::Bash,
{
    Grammar { lang: Lang::Bash, language: tree_sitter_bash::LANGUAGE.into() }
}


/// `Parser::new`.
#[verifier::external_body]
pub(crate) fn new_parser() -> tree_sitter::Parser {
    tree_sitter::Parser::new()
}

/// Whether `Parser::set_language` accepts the grammar of `lang`, that is,
/// whether the grammar's ABI version is one this tree-sitter reads.
pub uninterp spec fn grammar_loads(lang: Lang) -> bool;

/// A parser that has a grammar, with the language of that grammar.
pub struct LoadedParser {
    lang: Lang,
    parser: tree_sitter::Parser,
}

impl LoadedParser {
    /// The language of the grammar the parser has.
    pub closed spec fn lang(&self) -> Lang {
        self.lang
    }
}

/// `Parser::set_language` with a grammar; the parser with that grammar, or
/// none when the grammar is refused. Whether it is accepted is named
/// `grammar_loads`.
#[verifier::external_body]
pub(crate) fn load_grammar(parser: tree_sitter::Parser, grammar: &Grammar) -> (r: Option<LoadedParser>)
    ensures
        r is Some == grammar_loads(grammar.lang()),
        r matches Some(p) ==> p.lang() == grammar.lang(),
{
    let mut parser = parser;
    match parser.set_language(&grammar.language) {
        Ok(()) => Some(LoadedParser { lang: grammar.lang, parser }),
        Err(_) => None,
    }
}

/// A parsed tree, with the language and source it was parsed from and the
/// sources of the trees it was parsed upon: a parse that reuses an earlier
/// tree depends on that tree, and so on the sources before.
pub struct ParsedTree {
    tree: tree_sitter::Tree,
    lang: Lang,
    source: String,
    history: Ghost<Seq<Seq<char>>>,
}

impl ParsedTree {
    /// `Tree::root_node`.
    #[verifier::external_body]
    pub(crate) fn tree_root(&self) -> tree_sitter::Node<'_> {
        self.tree.root_node()
    }

    pub closed spec fn lang(&self) -> Lang {
        self.lang
    }

    pub closed spec fn source(&self) -> Seq<char> {
        self.source@
    }

    /// The sources parsed in turn to reach this tree, the last its own.
    pub closed spec fn history(&self) -> Seq<Seq<char>> {
        self.history@
    }
}

/// `Parser::parse`, reusing `previous` when there is one. A parser with a
/// grammar and no progress callback always gives a tree: the crate
/// documents `None` only for a parser without a language.
#[verifier::external_body]
pub(crate) fn parse_source(
    p: &mut LoadedParser,
    source: &str,
    previous: Option<&ParsedTree>,
) -> (r: Option<ParsedTree>)
    ensures
        final(p).lang() == old(p).lang(),
        r is Some,
        r matches Some(t) ==> t.lang() == old(p).lang(),
        r matches Some(t) ==> t.source() == source@,
        r matches Some(t) ==> t.history() == match previous {
            Some(old) => old.history().push(source@),
            None => seq![source@],
        },
{
    let history = Ghost(
        match previous {
            Some(old) => old.history().push(source@),
            None => seq![source@],
        },
    );
    p.parser.parse(source, previous.map(|t| &t.tree)).map(
        |tree| ParsedTree { tree, lang: p.lang, source: source.to_string(), history },
    )
}

/// The highlight query of a grammar, with the grammar's language and the
/// query's text.
pub struct HighlightQuery {
    lang: Lang,
    text: &'static str,
    query: tree_sitter::Query,
}

impl HighlightQuery {
    pub closed spec fn lang(&self) -> Lang {
        self.lang
    }

    pub closed spec fn text(&self) -> Seq<char> {
        self.text@
    }
}

/// Whether the highlight query that ships with the grammar of `lang`
/// compiles against that grammar (`Query::new` on the two).
pub uninterp spec fn highlight_query_compiles(lang: Lang) -> bool;

/// `Query::new` with the Rust grammar and `tree_sitter_rust::HIGHLIGHTS_QUERY`;
/// the compiled query, or none when it does not compile. Whether it compiles
/// is named `highlight_query_compiles`.
#[verifier::external_body]
fn rust_highlight_query(grammar: &Grammar) -> (r: Option<HighlightQuery>)
    requires
        grammar.lang() == Lang::Rust,
    ensures
        r is Some == highlight_query_compiles(Lang::Rust),
        r matches Some(q) ==> q.lang() == Lang::Rust,
{
    let text = tree_sitter_rust::HIGHLIGHTS_QUERY;
    match tree_sitter::Query::new(&grammar.language, text) {
        Ok(query) => Some(HighlightQuery { lang: grammar.lang, text, query }),
        Err(_) => None,
    }
}

/// `Query::new` with the Swift grammar and `tree_sitter_swift::HIGHLIGHTS_QUERY`;
/// the compiled query, or none when it does not compile. Whether it compiles
/// is named `highlight_query_compiles`.
#[verifier::external_body]
fn swift_highlight_query(grammar: &Grammar) -> (r: Option<HighlightQuery>)
    requires
        grammar.lang() == Lang::Swift,
    ensures
        r is Some == highlight_query_compiles(Lang::Swift),
        r matches Some(q) ==> q.lang() == Lang::Swift,
{
    let text = tree_sitter_swift::HIGHLIGHTS_QUERY;
    match tree_sitter::Query::new(&grammar.language, text) {
        Ok(query) => Some(HighlightQuery { lang: grammar.lang, text, query }),
        Err(_) => None,
    }
}

/// `QueryCursor::new`.
#[verifier::external_body]
fn new_cursor() -> tree_sitter::QueryCursor {
    tree_sitter::QueryCursor::new()
}

/// A query cursor limited to a byte range.
pub struct RangeCursor {
    cursor: tree_sitter::QueryCursor,
    start: usize,
    end: usize,
}

impl RangeCursor {
    pub closed spec fn range(&self) -> (usize, usize) {
        (self.start, self.end)
    }
}

/// `QueryCursor::set_byte_range`.
#[verifier::external_body]
fn restrict_cursor(cursor: tree_sitter::QueryCursor, start: usize, end: usize) -> (r: RangeCursor)
    ensures
        r.range() == (start, end),
{
    let mut cursor = cursor;
    cursor.set_byte_range(start..end);
    RangeCursor { cursor, start, end }
}

/// The captures a highlight query (of a language, with its text) reports
/// over bytes `start..end` of the tree reached by parsing the sources of
/// `history` in turn in the language, each parse reusing the tree before,
/// matched against the text `source`: each capture's name and its node's
/// start and end, match by match.
pub uninterp spec fn highlight_captures(
    lang: Lang,
    query_text: Seq<char>,
    history: Seq<Seq<char>>,
    source: Seq<char>,
    start: usize,
    end: usize,
) -> Seq<Capture>;

/// `QueryCursor::matches` over the tree's root, each capture of each match
/// read as its capture name and its node's start and end. On a tree of the
/// query's language, the captures are named `highlight_captures`.
#[verifier::external_body]
fn run_matches(
    cursor: &mut RangeCursor,
    query: &HighlightQuery,
    tree: &ParsedTree,
    source: &str,
) -> (r: Vec<Capture>)
    ensures
        final(cursor).range() == old(cursor).range(),
        tree.lang() == query.lang() ==> r@ == highlight_captures(
            query.lang(),
            query.text(),
            tree.history(),
            source@,
            old(cursor).range().0,
            old(cursor).range().1,
        ),
{
    let mut out = Vec::new();
    let mut matches = cursor.cursor.matches(&query.query, tree.tree.root_node(), source.as_bytes());
    while let Some(m) = matches.next() {
        for capture in m.captures() {
            out.push(Capture {
                name: query.query.capture_names()[capture.index as usize].to_string(),
                start_row: capture.node.start_position().row,
                start_byte: capture.node.start_byte(),
                end_row: capture.node.end_position().row,
                end_byte: capture.node.end_byte(),
            });
        }
    }
    out
}

/// Whether a language has a highlight grammar.
pub open spec fn highlighted(lang: Lang) -> bool {
    lang == Lang::Rust || lang == Lang::Swift
}

/// Whether spans can be read for captures over these line starts: every
/// capture fits them.
pub open spec fn captures_fit(cs: Seq<Capture>, starts: Seq<usize>) -> bool {
    forall|k: int| 0 <= k < cs.len() ==> capture_fits(#[trigger] cs[k], starts)
}

/// A language's parser, its highlight query, and the tree of the source
/// last parsed.
pub struct Highlighter {
    lang: Lang,
    parser: Option<LoadedParser>,
    query: Option<HighlightQuery>,
    tree: Option<ParsedTree>,
}

impl Highlighter {
    pub closed spec fn language(&self) -> Lang {
        self.lang
    }

    /// Whether the grammar was loaded and its highlight query compiled.
    pub closed spec fn compiled(&self) -> bool {
        &&& self.query is Some
        &&& self.parser is Some
        &&& self.parser->0.lang() == self.lang
        &&& self.query->0.lang() == self.lang
    }

    /// Whether a query was compiled and a source parsed.
    pub closed spec fn ready(&self) -> bool {
        self.compiled() && self.tree is Some && self.tree->0.lang() == self.lang
    }

    /// The source the current tree was parsed from, if there is a tree.
    pub closed spec fn parsed_source(&self) -> Option<Seq<char>> {
        match self.tree {
            Some(t) => Some(t.source()),
            None => None,
        }
    }

    /// The sources parsed in turn to reach the current tree; empty before
    /// the first parse.
    pub closed spec fn history(&self) -> Seq<Seq<char>> {
        match self.tree {
            Some(t) => t.history(),
            None => Seq::empty(),
        }
    }

    /// The highlight query text in use.
    pub closed spec fn query_text(&self) -> Seq<char> {
        match self.query {
            Some(q) => q.text(),
            None => Seq::empty(),
        }
    }

    /// A highlighter for `lang`: Rust and Swift get their grammar and
    /// highlight query, other languages stay plain.
    pub fn new(lang: Lang) -> (r: Highlighter)
        ensures
            r.language() == lang,
            !r.ready(),
            r.parsed_source() is None,
            r.history().len() == 0,
            !highlighted(lang) ==> !r.compiled(),
            highlighted(lang) ==> (r.compiled() <==> grammar_loads(lang) && highlight_query_compiles(
                lang,
            )),
    {
        let (parser, query) = match lang {
            Lang::Rust => {
                let grammar = rust_grammar();
                match load_grammar(new_parser(), &grammar) {
                    Some(p) => (Some(p), rust_highlight_query(&grammar)),
                    None => (None, None),
                }
            },
            Lang::Swift => {
                let grammar = swift_grammar();
                match load_grammar(new_parser(), &grammar) {
                    Some(p) => (Some(p), swift_highlight_query(&grammar)),
                    None => (None, None),
                }
            },
            _ => (None, None),
        };
        Highlighter { lang, parser, query, tree: None }
    }

    fn is_compiled(&self) -> (r: bool)
        ensures
            r == self.compiled(),
    {
        match (&self.query, &self.parser) {
            (Some(q), Some(p)) => lang_eq(q.lang, self.lang) && lang_eq(p.lang, self.lang),
            _ => false,
        }
    }

    /// The language highlighted.
    pub fn lang(&self) -> (r: Lang)
        ensures
            r == self.language(),
    {
        self.lang
    }

    /// Parses the whole document, reusing the previous tree; afterwards
    /// the tree is of `source`, parsed upon the sources before. A plain
    /// highlighter does nothing.
    pub fn parse(&mut self, source: &str)
        ensures
            final(self).language() == old(self).language(),
            final(self).compiled() == old(self).compiled(),
            final(self).query_text() == old(self).query_text(),
            !old(self).compiled() ==> final(self).ready() == old(self).ready()
                && final(self).parsed_source() == old(self).parsed_source() && final(self).history()
                == old(self).history(),
            old(self).compiled() ==> final(self).ready() && final(self).parsed_source() == Some(
                source@,
            ) && final(self).history() == old(self).history().push(source@),
    {
        if !self.is_compiled() {
            return;
        }
        let parser = match &mut self.parser {
            Some(p) => p,
            None => return,
        };
        let tree = parse_source(parser, source, self.tree.as_ref());
        proof {
            if old(self).tree is None {
                assert(seq![source@] =~= Seq::<Seq<char>>::empty().push(source@));
            }
        }
        self.tree = tree;
    }

    /// The spans of the lines `start..end` bytes touch, per line: the
    /// highlight query's captures in that range, flattened. Nothing before
    /// a source is parsed or for a plain language; `None` when a capture
    /// does not fit the line starts (it starts before its own line). The captures
    /// are those of the query over the range, on the tree parsed so far.
    pub fn spans_in(&self, source: &str, start: usize, end: usize, line_starts: &Vec<usize>) -> (r:
        Option<HashMap<usize, Vec<Span>>>)
        ensures
            !self.ready() ==> (r matches Some(m) && m@.dom() == Set::<usize>::empty()),
            self.ready() ==> ({
                let cs = highlight_captures(
                    self.language(),
                    self.query_text(),
                    self.history(),
                    source@,
                    start,
                    end,
                );
                &&& (r is Some <==> captures_fit(cs, line_starts@))
                &&& (r matches Some(m) ==> rows_map(all_pieces(cs, line_starts@), m@))
            }),
    {
        if !self.is_compiled() {
            return Some(empty_rows());
        }
        let (query, tree) = match (&self.query, &self.tree) {
            (Some(q), Some(t)) => (q, t),
            _ => return Some(empty_rows()),
        };
        if !lang_eq(tree.lang, self.lang) {
            return Some(empty_rows());
        }
        assert(self.ready());
        let mut cursor = restrict_cursor(new_cursor(), start, end);
        let captures = run_matches(&mut cursor, query, tree, source);
        let ghost cs = highlight_captures(
            self.language(),
            self.query_text(),
            self.history(),
            source@,
            start,
            end,
        );
        assert(captures@ == cs);
        let mut k: usize = 0;
        while k < captures.len()
            invariant
                self.ready(),
                captures@ == cs,
                cs == highlight_captures(
                    self.language(),
                    self.query_text(),
                    self.history(),
                    source@,
                    start,
                    end,
                ),
                k <= captures@.len(),
                forall|x: int| 0 <= x < k ==> capture_fits(#[trigger] captures@[x], line_starts@),
            decreases captures@.len() - k,
        {
            let c = &captures[k];
            if c.end_row == usize::MAX {
                assert(!capture_fits(captures@[k as int], line_starts@));
                proof {
                    assert(cs[k as int] == captures@[k as int]);
                    assert(!captures_fit(cs, line_starts@));
                }
                return None;
            }
            if c.start_row < line_starts.len() && line_starts[c.start_row] > c.start_byte {
                assert(!capture_fits(captures@[k as int], line_starts@));
                proof {
                    assert(cs[k as int] == captures@[k as int]);
                    assert(!captures_fit(cs, line_starts@));
                }
                return None;
            }
            k += 1;
        }
        let rows = spans_from_captures(&captures, line_starts);
        Some(rows_to_map(rows, Ghost(all_pieces(captures@, line_starts@))))
    }
}

/// `m` holds, for each line some piece falls on, its flattened spans, and
/// no other line: a piece-free line has no entry.
pub open spec fn rows_map(ps: Seq<(usize, Span)>, m: Map<usize, Vec<Span>>) -> bool {
    &&& forall|row: usize| #[trigger] m.contains_key(row) <==> row_pieces(ps, row).len() > 0
    &&& forall|row: usize|
        #[trigger] m.contains_key(row) ==> {
            let sp = row_pieces(ps, row);
            &&& sp.len() < 2 ==> m[row]@ == sp
            &&& sp.len() >= 2 ==> flattened(sp, m[row]@)
        }
}

/// No line has spans.
fn empty_rows() -> (r: HashMap<usize, Vec<Span>>)
    ensures
        r@.dom() == Set::<usize>::empty(),
{
    let r: HashMap<usize, Vec<Span>> = HashMap::new();
    assert(r@.dom() =~= Set::<usize>::empty());
    r
}

proof fn lemma_row_pieces_from(ps: Seq<(usize, Span)>, row: usize)
    requires
        row_pieces(ps, row).len() > 0,
    ensures
        exists|k: int| 0 <= k < ps.len() && (#[trigger] ps[k]).0 == row,
    decreases ps.len(),
{
    if ps.last().0 != row {
        lemma_row_pieces_from(ps.drop_last(), row);
        let k = choose|k: int| 0 <= k < ps.drop_last().len() && (#[trigger] ps.drop_last()[k]).0 == row;
        assert(ps[k] == ps.drop_last()[k]);
    } else {
        assert(ps[ps.len() - 1] == ps.last());
    }
}

/// The lines' spans as a map from line to spans.
fn rows_to_map(rows: Vec<(usize, Vec<Span>)>, Ghost(ps): Ghost<Seq<(usize, Span)>>) -> (r: HashMap<
    usize,
    Vec<Span>,
>)
    requires
        grouped(ps, rows_view(rows@)),
    ensures
        rows_map(ps, r@),
{
    broadcast use vstd::std_specs::hash::group_hash_axioms;

    let ghost rv = rows_view(rows@);
    let mut m: HashMap<usize, Vec<Span>> = HashMap::new();
    let n = rows.len();
    let mut x: usize = 0;
    while x < n
        invariant
            x <= n,
            n == rows@.len(),
            rv == rows_view(rows@),
            grouped(ps, rv),
            forall|y: int| 0 <= y < x ==> #[trigger] m@.contains_key(rows@[y].0) && m@[rows@[y].0]@ == rows@[y].1@,
            forall|row: usize| #[trigger] m@.contains_key(row) ==> exists|y: int| 0 <= y < x && rows@[y].0 == row,
        decreases n - x,
    {
        let row = rows[x].0;
        let spans = rows[x].1.clone();
        assert(spans@ == rows@[x as int].1@);
        let ghost old_m = m@;
        m.insert(row, spans);
        proof {
            assert forall|y: int| 0 <= y < x + 1 implies #[trigger] m@.contains_key(rows@[y].0)
                && m@[rows@[y].0]@ == rows@[y].1@ by {
                if y < x {
                    assert(rv[y].0 != rv[x as int].0);
                }
            }
            assert forall|r: usize| #[trigger] m@.contains_key(r) implies exists|y: int|
                0 <= y < x + 1 && rows@[y].0 == r by {
                if r != row {
                    assert(old_m.contains_key(r));
                }
            }
        }
        x += 1;
    }
    proof {
        assert forall|row: usize| #[trigger] m@.contains_key(row) <==> row_pieces(ps, row).len() > 0 by {
            if m@.contains_key(row) {
                let y = choose|y: int| 0 <= y < n && rows@[y].0 == row;
                assert(rv[y].0 == row);
            }
            if row_pieces(ps, row).len() > 0 {
                lemma_row_pieces_from(ps, row);
                let k = choose|k: int| 0 <= k < ps.len() && (#[trigger] ps[k]).0 == row;
                let i = choose|i: int| 0 <= i < rv.len() && (#[trigger] rv[i]).0 == (#[trigger] ps[k]).0;
                assert(rows@[i].0 == row);
                assert(m@.contains_key(rows@[i].0));
            }
        }
        assert forall|row: usize| #[trigger] m@.contains_key(row) implies {
            let sp = row_pieces(ps, row);
            &&& sp.len() < 2 ==> m@[row]@ == sp
            &&& sp.len() >= 2 ==> flattened(sp, m@[row]@)
        } by {
            let y = choose|y: int| 0 <= y < n && rows@[y].0 == row;
            assert(m@[rows@[y].0]@ == rows@[y].1@);
            assert(rv[y] == (rows@[y].0, rows@[y].1@));
        }
    }
    m
}

/// Whether two languages are the same.
fn lang_eq(a: Lang, b: Lang) -> (r: bool)
    ensures
        r == (a == b),
{
    a == b
}

} // verus!
