//! Markdown preview model: the block list a document renders as, built from
//! the `pulldown-cmark` event stream, plus the text transforms the preview
//! applies (soft-wrap joining, breakable table cells, TSV table text).
use vstd::prelude::*;

use crate::highlight::Lang;
use pulldown_cmark::{CodeBlockKind, Event, Tag, TagEnd};
use crate::text::{
    append_chars, chars_eq, chars_of, drop_space_tab_end, ends_with, skip_char, skip_space_tab,
    skip_ws, split_char, split_on, string_of, trim, trim_end_space_tab, trim_start_char,
    trim_start_space_tab, trim_start_ws, trim_ws, whitespace,
};

verus! {

/// Drops one trailing carriage return.
pub open spec fn strip_cr(p: Seq<char>) -> Seq<char> {
    if p.len() > 0 && p.last() == '\r' {
        p.drop_last()
    } else {
        p
    }
}

/// `str::lines`: pieces between newlines, each without a trailing `\r`
/// before its newline, and no final empty line.
pub open spec fn lines_of(s: Seq<char>) -> Seq<Seq<char>> {
    let p = split_on(s, '\n');
    let body = Seq::new((p.len() - 1) as nat, |k: int| strip_cr(p[k]));
    if p.last().len() == 0 {
        body
    } else {
        body.push(p.last())
    }
}

/// `str::lines`.
pub fn lines(s: &[char]) -> (r: Vec<Vec<char>>)
    ensures
        r@.len() == lines_of(s@).len(),
        forall|k: int| 0 <= k < r@.len() ==> #[trigger] r@[k]@ == lines_of(s@)[k],
{
    let pieces = split_char(s, '\n');
    proof {
        crate::text::lemma_split_on_nonempty(s@, '\n');
    }
    let ghost p = split_on(s@, '\n');
    let n = pieces.len();
    let mut out: Vec<Vec<char>> = Vec::new();
    let mut i: usize = 0;
    while i + 1 < n
        invariant
            n == pieces@.len(),
            n == p.len(),
            n >= 1,
            i < n,
            forall|k: int| 0 <= k < n ==> #[trigger] pieces@[k]@ == p[k],
            out@.len() == i,
            forall|k: int| 0 <= k < i ==> #[trigger] out@[k]@ == strip_cr(p[k]),
        decreases n - i,
    {
        let piece = &pieces[i];
        if piece.len() > 0 && piece[piece.len() - 1] == '\r' {
            let trimmed = crate::text::slice_chars(piece, 0, piece.len() - 1);
            assert(trimmed@ =~= p[i as int].drop_last());
            out.push(trimmed);
        } else {
            out.push(piece.clone());
        }
        i += 1;
    }
    let last = &pieces[n - 1];
    if last.len() > 0 {
        out.push(last.clone());
    }
    out
}

pub open spec fn two_newlines() -> Seq<char> {
    seq!['\n', '\n']
}

/// A continuation line of a quote, without its `>` markers.
pub open spec fn prepared_line(line: Seq<char>, index: int, quoted: bool) -> Seq<char> {
    if quoted && index > 0 {
        skip_space_tab(skip_char(skip_ws(line), '>'))
    } else {
        line
    }
}

/// Folds one more line onto the joined text: a blank line keeps one
/// paragraph break, a hard break (two trailing spaces or a backslash) keeps
/// its newline, and any other wrap becomes a single space.
pub open spec fn join_step(out: Seq<char>, line: Seq<char>, index: int, quoted: bool) -> Seq<char> {
    let l = prepared_line(line, index, quoted);
    if index == 0 {
        out + l
    } else if trim(l).len() == 0 {
        if two_newlines().is_suffix_of(out) {
            out
        } else {
            out + two_newlines()
        }
    } else {
        let base = if two_newlines().is_suffix_of(out) {
            out
        } else if seq![' ', ' '].is_suffix_of(out) || seq!['\\'].is_suffix_of(out) {
            out.push('\n')
        } else {
            drop_space_tab_end(out).push(' ')
        };
        base + skip_space_tab(l)
    }
}

pub open spec fn joined(ls: Seq<Seq<char>>, quoted: bool) -> Seq<char>
    decreases ls.len(),
{
    if ls.len() == 0 {
        seq![]
    } else {
        join_step(joined(ls.drop_last(), quoted), ls.last(), ls.len() - 1, quoted)
    }
}

/// The soft-wrap join of an inline slice.
pub open spec fn soft_wraps_joined(inline: Seq<char>, quoted: bool) -> Seq<char> {
    joined(lines_of(inline), quoted)
}

fn join_line(out: &mut Vec<char>, line: &[char], index: usize, quoted: bool)
    ensures
        final(out)@ == join_step(old(out)@, line@, index as int, quoted),
{
    let l: Vec<char> = if quoted && index > 0 {
        let a = trim_start_ws(line);
        let b = trim_start_char(&a, '>');
        trim_start_space_tab(&b)
    } else {
        crate::text::copy_chars(line)
    };
    assert(l@ == prepared_line(line@, index as int, quoted));
    if index == 0 {
        append_chars(out, &l);
        return;
    }
    let nl2: Vec<char> = vec!['\n', '\n'];
    assert(nl2@ == two_newlines());
    let t = trim_ws(&l);
    if t.len() == 0 {
        if !ends_with(out, &nl2) {
            append_chars(out, &nl2);
        }
        return;
    }
    let sp2: Vec<char> = vec![' ', ' '];
    let bs: Vec<char> = vec!['\\'];
    assert(sp2@ == seq![' ', ' ']);
    assert(bs@ == seq!['\\']);
    if ends_with(out, &nl2) {
    } else if ends_with(out, &sp2) || ends_with(out, &bs) {
        out.push('\n');
    } else {
        let kept = trim_end_space_tab(out);
        *out = kept;
        out.push(' ');
    }
    let rest = trim_start_space_tab(&l);
    append_chars(out, &rest);
}

/// Joins the soft line wraps of a raw inline slice into single spaces,
/// keeping hard breaks and paragraph breaks. `quoted` drops the `>` marker
/// of each continuation line.
pub fn join_soft_wraps(inline: &str, quoted: bool) -> (r: String)
    ensures
        r@ == soft_wraps_joined(inline@, quoted),
{
    let s = chars_of(inline);
    let ls = lines(&s);
    let mut out: Vec<char> = Vec::new();
    let mut i: usize = 0;
    let ghost lv = lines_of(s@);
    while i < ls.len()
        invariant
            i <= ls@.len(),
            ls@.len() == lv.len(),
            forall|k: int| 0 <= k < ls@.len() ==> #[trigger] ls@[k]@ == lv[k],
            out@ == joined(lv.take(i as int), quoted),
        decreases ls@.len() - i,
    {
        assert(lv.take(i + 1).drop_last() == lv.take(i as int));
        assert(lv.take(i + 1).last() == lv[i as int]);
        join_line(&mut out, &ls[i], i, quoted);
        i += 1;
    }
    assert(lv.take(lv.len() as int) == lv);
    string_of(&out)
}

/// Characters per run before a zero-width space is inserted.
pub const BREAK_RUN: usize = 18;

/// A long token with a zero-width space before every 18th character.
pub open spec fn broken_token(t: Seq<char>) -> Seq<char>
    decreases t.len(),
{
    if t.len() <= 18 {
        t
    } else {
        t.take(18) + seq!['\u{200b}'] + broken_token(t.skip(18))
    }
}

/// Pieces joined with a separator.
pub open spec fn join_with(parts: Seq<Seq<char>>, sep: char) -> Seq<char>
    decreases parts.len(),
{
    if parts.len() == 0 {
        seq![]
    } else if parts.len() == 1 {
        parts[0]
    } else {
        join_with(parts.drop_last(), sep) + seq![sep] + parts.last()
    }
}

/// Space-separated tokens, each long one broken into runs.
pub open spec fn breakable_text(text: Seq<char>) -> Seq<char> {
    join_with(split_on(text, ' ').map_values(|t: Seq<char>| broken_token(t)), ' ')
}

fn break_token(t: &[char]) -> (r: Vec<char>)
    ensures
        r@ == broken_token(t@),
{
    let mut out: Vec<char> = Vec::new();
    let mut i: usize = 0;
    if t.len() <= 18 {
        return crate::text::copy_chars(t);
    }
    assert(t@.skip(0) == t@);
    assert(out@ + broken_token(t@) =~= broken_token(t@));
    while i < t.len()
        invariant
            t@.len() > 18,
            i <= t@.len(),
            broken_token(t@) == out@ + broken_token(t@.skip(i as int)),
        decreases t@.len() - i,
    {
        let ghost rest = t@.skip(i as int);
        let take = if t.len() - i <= 18 {
            t.len() - i
        } else {
            18
        };
        let ghost before = out@;
        let piece = crate::text::slice_chars(t, i, i + take);
        if t.len() - i <= 18 {
            assert(broken_token(rest) == rest);
            assert(piece@ =~= rest);
            append_chars(&mut out, &piece);
            assert(t@.skip(i + take) =~= seq![]);
            assert(broken_token(t@.skip(i + take)) =~= seq![]);
            assert(out@ + broken_token(t@.skip(i + take)) =~= out@);
        } else {
            assert(piece@ =~= rest.take(18));
            assert(rest.skip(18) =~= t@.skip(i + 18));
            append_chars(&mut out, &piece);
            out.push('\u{200b}');
            assert(before + (rest.take(18) + seq!['\u{200b}'] + broken_token(rest.skip(18)))
                =~= out@ + broken_token(t@.skip(i + 18)));
        }
        i = i + take;
    }
    assert(t@.skip(t@.len() as int) =~= seq![]);
    assert(out@ + broken_token(seq![]) =~= out@);
    out
}

/// Inserts zero-width spaces inside tokens longer than 18 characters so a
/// narrow table cell can wrap them.
pub fn breakable(text: &[char]) -> (r: Vec<char>)
    ensures
        r@ == breakable_text(text@),
{
    let tokens = split_char(text, ' ');
    let ghost tv = split_on(text@, ' ').map_values(|t: Seq<char>| broken_token(t));
    let mut out: Vec<char> = Vec::new();
    let mut i: usize = 0;
    while i < tokens.len()
        invariant
            i <= tokens@.len(),
            tokens@.len() == split_on(text@, ' ').len(),
            tv == split_on(text@, ' ').map_values(|t: Seq<char>| broken_token(t)),
            forall|k: int| 0 <= k < tokens@.len() ==> #[trigger] tokens@[k]@ == split_on(text@, ' ')[k],
            out@ == join_with(tv.take(i as int), ' '),
        decreases tokens@.len() - i,
    {
        let piece = break_token(&tokens[i]);
        assert(tv.take(i + 1).drop_last() == tv.take(i as int));
        assert(tv.take(i + 1).last() == piece@);
        if i > 0 {
            out.push(' ');
        } else {
            assert(tv.take(1).len() == 1);
            assert(out@ =~= seq![]);
        }
        append_chars(&mut out, &piece);
        if i == 0 {
            assert(out@ =~= join_with(tv.take(1), ' '));
        }
        i += 1;
    }
    assert(tv.take(tv.len() as int) == tv);
    out
}

pub open spec fn strs(v: Seq<String>) -> Seq<Seq<char>> {
    v.map_values(|s: String| s@)
}

pub open spec fn rows_view(v: Seq<Vec<String>>) -> Seq<Seq<Seq<char>>> {
    v.map_values(|r: Vec<String>| strs(r@))
}

/// A table as tab-separated cells and newline-separated rows.
pub open spec fn table_text_of(rows: Seq<Seq<Seq<char>>>) -> Seq<char> {
    join_with(rows.map_values(|r: Seq<Seq<char>>| join_with(r, '\t')), '\n')
}

fn join_strings(parts: &Vec<String>, sep: char) -> (r: Vec<char>)
    ensures
        r@ == join_with(strs(parts@), sep),
{
    let ghost pv = strs(parts@);
    let mut out: Vec<char> = Vec::new();
    let mut i: usize = 0;
    while i < parts.len()
        invariant
            i <= parts@.len(),
            pv == strs(parts@),
            out@ == join_with(pv.take(i as int), sep),
        decreases parts@.len() - i,
    {
        let piece = chars_of(parts[i].as_str());
        assert(pv.take(i + 1).drop_last() == pv.take(i as int));
        assert(pv.take(i + 1).last() == piece@);
        if i > 0 {
            out.push(sep);
        } else {
            assert(out@ =~= seq![]);
        }
        append_chars(&mut out, &piece);
        if i == 0 {
            assert(out@ =~= join_with(pv.take(1), sep));
        }
        i += 1;
    }
    assert(pv.take(pv.len() as int) == pv);
    out
}

/// The text a selection of a table copies: TSV.
pub fn table_text(rows: &Vec<Vec<String>>) -> (r: String)
    ensures
        r@ == table_text_of(rows_view(rows@)),
{
    let ghost rv = rows_view(rows@).map_values(|r: Seq<Seq<char>>| join_with(r, '\t'));
    let mut out: Vec<char> = Vec::new();
    let mut i: usize = 0;
    while i < rows.len()
        invariant
            i <= rows@.len(),
            rv == rows_view(rows@).map_values(|r: Seq<Seq<char>>| join_with(r, '\t')),
            out@ == join_with(rv.take(i as int), '\n'),
        decreases rows@.len() - i,
    {
        let line = join_strings(&rows[i], '\t');
        assert(rv.take(i + 1).drop_last() == rv.take(i as int));
        assert(rv.take(i + 1).last() == line@);
        if i > 0 {
            out.push('\n');
        } else {
            assert(out@ =~= seq![]);
        }
        append_chars(&mut out, &line);
        if i == 0 {
            assert(out@ =~= join_with(rv.take(1), '\n'));
        }
        i += 1;
    }
    assert(rv.take(rv.len() as int) == rv);
    string_of(&out)
}

/// The first whitespace-separated word of `s`.
pub open spec fn first_word(s: Seq<char>) -> Seq<char>
    decreases s.len(),
{
    let t = skip_ws(s);
    word_prefix(t)
}

pub open spec fn word_prefix(t: Seq<char>) -> Seq<char>
    decreases t.len(),
{
    if t.len() == 0 || whitespace(t[0]) {
        seq![]
    } else {
        seq![t[0]] + word_prefix(t.skip(1))
    }
}

/// The grammar a fenced code block's info string names.
pub open spec fn fence_lang(word: Seq<char>) -> Lang {
    if word == "rust"@ || word == "rs"@ {
        Lang::Rust
    } else if word == "swift"@ {
        Lang::Swift
    } else if word == "python"@ || word == "py"@ {
        Lang::Python
    } else if word == "javascript"@ || word == "js"@ || word == "jsx"@ {
        Lang::JavaScript
    } else if word == "typescript"@ || word == "ts"@ {
        Lang::TypeScript
    } else if word == "tsx"@ {
        Lang::Tsx
    } else if word == "json"@ || word == "jsonc"@ {
        Lang::Json
    } else if word == "toml"@ {
        Lang::Toml
    } else if word == "css"@ {
        Lang::Css
    } else if word == "html"@ || word == "htm"@ {
        Lang::Html
    } else if word == "bash"@ || word == "sh"@ || word == "shell"@ || word == "zsh"@ {
        Lang::Bash
    } else if word == "yaml"@ || word == "yml"@ {
        Lang::Yaml
    } else {
        Lang::Plain
    }
}

fn is_word(w: &[char], lit: &str) -> (r: bool)
    ensures
        r == (w@ == lit@),
{
    let l = chars_of(lit);
    chars_eq(w, &l)
}

/// Maps a fence info string (`"js title=demo"`) to its grammar, by the
/// ASCII-lowercased first word.
pub fn fence_language(language: &str) -> (r: Lang)
    ensures
        r == fence_lang(crate::text::ascii_lower_seq(first_word(language@))),
{
    let s = chars_of(language);
    let t = trim_start_ws(&s);
    let mut i: usize = 0;
    assert(t@.skip(0) == t@);
    while i < t.len() && !crate::text::is_whitespace(t[i])
        invariant
            i <= t@.len(),
            t@ == skip_ws(language@),
            word_prefix(t@) == t@.take(i as int) + word_prefix(t@.skip(i as int)),
        decreases t@.len() - i,
    {
        assert(t@.skip(i as int).skip(1) == t@.skip(i + 1));
        assert(t@.take(i + 1) == t@.take(i as int) + seq![t@[i as int]]);
        i += 1;
    }
    assert(word_prefix(t@.skip(i as int)) =~= seq![]);
    let word = crate::text::slice_chars(&t, 0, i);
    assert(word@ =~= first_word(language@));
    let w = crate::text::lower_ascii(&word);
    if is_word(&w, "rust") || is_word(&w, "rs") {
        Lang::Rust
    } else if is_word(&w, "swift") {
        Lang::Swift
    } else if is_word(&w, "python") || is_word(&w, "py") {
        Lang::Python
    } else if is_word(&w, "javascript") || is_word(&w, "js") || is_word(&w, "jsx") {
        Lang::JavaScript
    } else if is_word(&w, "typescript") || is_word(&w, "ts") {
        Lang::TypeScript
    } else if is_word(&w, "tsx") {
        Lang::Tsx
    } else if is_word(&w, "json") || is_word(&w, "jsonc") {
        Lang::Json
    } else if is_word(&w, "toml") {
        Lang::Toml
    } else if is_word(&w, "css") {
        Lang::Css
    } else if is_word(&w, "html") || is_word(&w, "htm") {
        Lang::Html
    } else if is_word(&w, "bash") || is_word(&w, "sh") || is_word(&w, "shell") || is_word(
        &w,
        "zsh",
    ) {
        Lang::Bash
    } else if is_word(&w, "yaml") || is_word(&w, "yml") {
        Lang::Yaml
    } else {
        Lang::Plain
    }
}

/// A heading in the "On This Page" outline: its block index, level and
/// title.
#[derive(Clone, Debug)]
pub struct Heading {
    pub block: usize,
    pub level: u8,
    pub title: String,
}

/// The last heading at or above block `top`, in document order.
pub open spec fn active_heading(headings: Seq<Heading>, top: usize) -> Option<usize>
    decreases headings.len(),
{
    if headings.len() == 0 {
        None
    } else if headings.last().block <= top {
        Some(headings.last().block)
    } else {
        active_heading(headings.drop_last(), top)
    }
}

/// The heading to mark active when block `top` is the first visible one.
pub fn active_heading_block(headings: &[Heading], top: usize) -> (r: Option<usize>)
    ensures
        r == active_heading(headings@, top),
{
    let mut j = headings.len();
    assert(headings@.take(headings@.len() as int) == headings@);
    while j > 0
        invariant
            j <= headings@.len(),
            active_heading(headings@, top) == active_heading(headings@.take(j as int), top),
        decreases j,
    {
        assert(headings@.take(j as int).drop_last() == headings@.take(j - 1));
        if headings[j - 1].block <= top {
            return Some(headings[j - 1].block);
        }
        j -= 1;
    }
    None
}

/// One `pulldown-cmark` event, reduced to what the preview reads.
#[derive(Clone, Debug, PartialEq, Eq)]
pub enum MdEvent {
    StartParagraph,
    StartHeading,
    StartQuote,
    /// A code block; the fence's info string, or `None` for an indented block.
    StartCode(Option<String>),
    /// A list; the first ordinal of an ordered list.
    StartList(Option<u64>),
    StartItem,
    StartTable,
    StartTableHead,
    StartTableRow,
    StartTableCell,
    StartEmphasis,
    StartStrong,
    StartStrikethrough,
    /// A link and its destination.
    StartLink(String),
    StartOther,
    EndParagraph,
    EndHeading(u8),
    EndQuote,
    EndCode,
    EndList,
    EndItem,
    EndTable,
    EndTableHead,
    EndTableRow,
    EndTableCell,
    EndEmphasis,
    EndStrong,
    EndStrikethrough,
    EndLink,
    EndOther,
    Text(String),
    Code(String),
    SoftBreak,
    HardBreak,
    Rule,
    TaskListMarker(bool),
    Other,
}

/// A rendered block of a Markdown document.
#[derive(Clone, Debug, PartialEq, Eq)]
pub enum Block {
    Heading(u8, String),
    Paragraph(String),
    /// Depth, inline text, task state, ordinal of an ordered item.
    ListItem(usize, String, Option<bool>, Option<u64>),
    /// Fence language and source.
    Code(String, String),
    Quote(String),
    Rule,
    Table(Vec<Vec<String>>),
}

/// A block with its text as character sequences.
pub enum BlockV {
    Heading(u8, Seq<char>),
    Paragraph(Seq<char>),
    ListItem(usize, Seq<char>, Option<bool>, Option<u64>),
    Code(Seq<char>, Seq<char>),
    Quote(Seq<char>),
    Rule,
    Table(Seq<Seq<Seq<char>>>),
}

impl View for Block {
    type V = BlockV;

    open spec fn view(&self) -> BlockV {
        match self {
            Block::Heading(l, t) => BlockV::Heading(*l, t@),
            Block::Paragraph(t) => BlockV::Paragraph(t@),
            Block::ListItem(d, t, k, o) => BlockV::ListItem(*d, t@, *k, *o),
            Block::Code(l, t) => BlockV::Code(l@, t@),
            Block::Quote(t) => BlockV::Quote(t@),
            Block::Rule => BlockV::Rule,
            Block::Table(rows) => BlockV::Table(rows_view(rows@)),
        }
    }
}

pub open spec fn blocks_view(b: Seq<Block>) -> Seq<BlockV> {
    b.map_values(|x: Block| x@)
}

/// The builder's state between events.
pub struct MdState {
    pub text: Seq<char>,
    pub span: Option<(int, int)>,
    pub counters: Seq<Option<u64>>,
    pub task: Option<bool>,
    pub code: Option<Seq<char>>,
    pub quote: bool,
    pub item: bool,
    pub table: Option<Seq<Seq<Seq<char>>>>,
    pub row: Seq<Seq<char>>,
    pub blocks: Seq<BlockV>,
}

pub open spec fn initial_state() -> MdState {
    MdState {
        text: seq![],
        span: None,
        counters: seq![],
        task: None,
        code: None,
        quote: false,
        item: false,
        table: None,
        row: seq![],
        blocks: seq![],
    }
}

/// Grows a byte span to cover `[a, b)`.
pub open spec fn extended(span: Option<(int, int)>, a: int, b: int) -> Option<(int, int)> {
    match span {
        Some((s, e)) => Some((if s < a { s } else { a }, if e > b { e } else { b })),
        None => Some((a, b)),
    }
}

/// The trimmed source slice a span covers; empty when it covers nothing or
/// does not fall on character boundaries.
pub open spec fn raw_of(source: Seq<char>, span: Option<(int, int)>) -> Seq<char> {
    match span {
        Some((a, b)) => match crate::text::byte_slice(source, a, b) {
            Some(x) => trim(x),
            None => seq![],
        },
        None => seq![],
    }
}

pub open spec fn cleared(st: MdState) -> MdState {
    MdState { text: seq![], span: None, ..st }
}

/// The ordinal an item ends with, and the counters after it.
pub open spec fn take_ordinal(counters: Seq<Option<u64>>) -> (Option<u64>, Seq<Option<u64>>) {
    if counters.len() == 0 {
        (None, counters)
    } else {
        match counters.last() {
            Some(v) => (
                Some(v),
                counters.update(
                    counters.len() - 1,
                    Some(
                        if v == u64::MAX {
                            0u64
                        } else {
                            (v + 1) as u64
                        },
                    ),
                ),
            ),
            None => (None, counters),
        }
    }
}

/// One event's effect on the builder.
pub open spec fn md_step(source: Seq<char>, st: MdState, ev: (MdEvent, usize, usize)) -> MdState {
    let (e, a, b) = ev;
    let a = a as int;
    let b = b as int;
    match e {
        MdEvent::StartHeading | MdEvent::StartParagraph => cleared(st),
        MdEvent::StartItem => MdState { item: true, task: None, ..cleared(st) },
        MdEvent::StartList(start) => MdState { counters: st.counters.push(start), ..st },
        MdEvent::EndList => MdState {
            counters: if st.counters.len() > 0 {
                st.counters.drop_last()
            } else {
                st.counters
            },
            ..st
        },
        MdEvent::StartQuote => MdState { quote: true, ..cleared(st) },
        MdEvent::EndQuote => {
            let inline = raw_of(source, st.span);
            let blocks = if inline.len() > 0 {
                st.blocks.push(BlockV::Quote(soft_wraps_joined(inline, true)))
            } else {
                st.blocks
            };
            MdState { quote: false, blocks, ..cleared(st) }
        },
        MdEvent::StartCode(kind) => MdState {
            code: Some(
                match kind {
                    Some(l) => l@,
                    None => seq![],
                },
            ),
            text: seq![],
            ..st
        },
        MdEvent::EndCode => {
            let blocks = match st.code {
                Some(lang) => st.blocks.push(
                    BlockV::Code(lang, crate::text::drop_ws_end(st.text)),
                ),
                None => st.blocks,
            };
            MdState { code: None, blocks, text: seq![], ..st }
        },
        MdEvent::StartTable => MdState { table: Some(seq![]), ..st },
        MdEvent::EndTable => match st.table {
            Some(rows) => MdState { table: None, blocks: st.blocks.push(BlockV::Table(rows)), ..st },
            None => st,
        },
        MdEvent::StartTableRow | MdEvent::StartTableHead => MdState { row: seq![], ..st },
        MdEvent::EndTableRow | MdEvent::EndTableHead => match st.table {
            Some(rows) => MdState { table: Some(rows.push(st.row)), row: seq![], ..st },
            None => st,
        },
        MdEvent::StartTableCell => MdState { text: seq![], ..st },
        MdEvent::EndTableCell => MdState {
            row: st.row.push(breakable_text(trim(st.text))),
            ..st
        },
        MdEvent::EndHeading(level) => MdState {
            blocks: st.blocks.push(BlockV::Heading(level, raw_of(source, st.span))),
            ..cleared(st)
        },
        MdEvent::EndParagraph => if !st.quote && !st.item {
            let inline = raw_of(source, st.span);
            let blocks = if inline.len() > 0 {
                st.blocks.push(BlockV::Paragraph(soft_wraps_joined(inline, false)))
            } else {
                st.blocks
            };
            MdState { blocks, ..cleared(st) }
        } else {
            st
        },
        MdEvent::EndItem => {
            let inline = raw_of(source, st.span);
            let (ordinal, counters) = take_ordinal(st.counters);
            let depth: usize = if st.counters.len() == 0 {
                0
            } else {
                (st.counters.len() - 1) as usize
            };
            let blocks = if inline.len() > 0 {
                st.blocks.push(
                    BlockV::ListItem(depth, soft_wraps_joined(inline, false), st.task, ordinal),
                )
            } else {
                st.blocks
            };
            MdState { item: false, counters, blocks, ..cleared(st) }
        },
        MdEvent::Rule => MdState { blocks: st.blocks.push(BlockV::Rule), ..st },
        MdEvent::TaskListMarker(done) => MdState { task: Some(done), ..st },
        MdEvent::Text(t) => MdState { text: st.text + t@, span: extended(st.span, a, b), ..st },
        MdEvent::Code(t) => MdState { text: st.text + t@, span: extended(st.span, a, b), ..st },
        MdEvent::SoftBreak => MdState {
            text: st.text.push(' '),
            span: extended(st.span, a, b),
            ..st
        },
        MdEvent::HardBreak => MdState {
            text: st.text.push('\n'),
            span: extended(st.span, a, b),
            ..st
        },
        MdEvent::StartEmphasis | MdEvent::StartStrong | MdEvent::StartStrikethrough
        | MdEvent::StartLink(_) => MdState { span: extended(st.span, a, b), ..st },
        _ => st,
    }
}

/// The builder after a whole event stream.
pub open spec fn md_run(source: Seq<char>, evs: Seq<(MdEvent, usize, usize)>) -> MdState
    decreases evs.len(),
{
    if evs.len() == 0 {
        initial_state()
    } else {
        md_step(source, md_run(source, evs.drop_last()), evs.last())
    }
}

/// The blocks a document's event stream builds.
pub open spec fn blocks_of(source: Seq<char>, evs: Seq<(MdEvent, usize, usize)>) -> Seq<BlockV> {
    md_run(source, evs).blocks
}

/// How many lists are open after the events: each list start opens one,
/// each list end closes the innermost (if any).
pub open spec fn lists_open(evs: Seq<(MdEvent, usize, usize)>) -> nat
    decreases evs.len(),
{
    if evs.len() == 0 {
        0
    } else {
        let n = lists_open(evs.drop_last());
        match evs.last().0 {
            MdEvent::StartList(_) => n + 1,
            MdEvent::EndList => if n > 0 {
                (n - 1) as nat
            } else {
                0
            },
            _ => n,
        }
    }
}

proof fn lemma_counters_track_lists(source: Seq<char>, evs: Seq<(MdEvent, usize, usize)>)
    ensures
        md_run(source, evs).counters.len() == lists_open(evs),
    decreases evs.len(),
{
    if evs.len() > 0 {
        lemma_counters_track_lists(source, evs.drop_last());
        let st = md_run(source, evs.drop_last());
        let c = st.counters;
        let t = take_ordinal(c);
        assert(t.1.len() == c.len());
    }
}

/// A list item is as deep as the lists around it: when an item's end adds
/// a block, that block is a list item whose depth is the number of lists
/// open around the item, less one. An item of a top-level list has depth
/// 0, an item of a list nested in another list's item has depth 1, and so
/// on.
pub proof fn lemma_item_depth(source: Seq<char>, evs: Seq<(MdEvent, usize, usize)>)
    requires
        0 < evs.len() <= usize::MAX,
        evs.last().0 == MdEvent::EndItem,
        blocks_of(source, evs).len() > blocks_of(source, evs.drop_last()).len(),
    ensures
        blocks_of(source, evs).last() matches BlockV::ListItem(d, _, _, _) && d == (if lists_open(evs)
            == 0 {
            0
        } else {
            lists_open(evs) - 1
        }),
{
    lemma_counters_track_lists(source, evs.drop_last());
    lemma_lists_open_bound(evs.drop_last());
    let st = md_run(source, evs.drop_last());
    let ev = evs.last();
    assert(md_run(source, evs) == md_step(source, st, ev));
    assert(lists_open(evs) == lists_open(evs.drop_last()));
    let inline = raw_of(source, st.span);
    assert(inline.len() > 0);
}

/// The task state the events leave for the item they are in: the last
/// task marker since the item started, or none.
pub open spec fn task_since_item(evs: Seq<(MdEvent, usize, usize)>) -> Option<bool>
    decreases evs.len(),
{
    if evs.len() == 0 {
        None
    } else {
        match evs.last().0 {
            MdEvent::TaskListMarker(done) => Some(done),
            MdEvent::StartItem => None,
            _ => task_since_item(evs.drop_last()),
        }
    }
}

proof fn lemma_task_tracks_marker(source: Seq<char>, evs: Seq<(MdEvent, usize, usize)>)
    ensures
        md_run(source, evs).task == task_since_item(evs),
    decreases evs.len(),
{
    if evs.len() > 0 {
        lemma_task_tracks_marker(source, evs.drop_last());
    }
}

/// A list item carries its task box: checked or unchecked as the last task
/// marker inside the item says, and none when the item has no marker.
pub proof fn lemma_item_task(source: Seq<char>, evs: Seq<(MdEvent, usize, usize)>)
    requires
        evs.len() > 0,
        evs.last().0 == MdEvent::EndItem,
        blocks_of(source, evs).len() > blocks_of(source, evs.drop_last()).len(),
    ensures
        blocks_of(source, evs).last() matches BlockV::ListItem(_, _, task, _) && task == task_since_item(
            evs.drop_last(),
        ),
{
    lemma_task_tracks_marker(source, evs.drop_last());
    let st = md_run(source, evs.drop_last());
    assert(md_run(source, evs) == md_step(source, st, evs.last()));
}

/// A heading's end adds a heading block of its own level.
pub proof fn lemma_heading_level(source: Seq<char>, evs: Seq<(MdEvent, usize, usize)>, level: u8)
    requires
        evs.len() > 0,
        evs.last().0 == MdEvent::EndHeading(level),
    ensures
        blocks_of(source, evs).len() == blocks_of(source, evs.drop_last()).len() + 1,
        blocks_of(source, evs).last() matches BlockV::Heading(l, _) && l == level,
        blocks_of(source, evs).drop_last() == blocks_of(source, evs.drop_last()),
{
    let st = md_run(source, evs.drop_last());
    assert(md_run(source, evs) == md_step(source, st, evs.last()));
    assert(st.blocks.push(BlockV::Heading(level, raw_of(source, st.span))).drop_last() =~= st.blocks);
}

/// The open lists after the events, outermost first: each list's first
/// ordinal (none for a bullet list) and how many of its own items have
/// ended so far. Items of a nested list count for the nested list only.
pub open spec fn open_lists(evs: Seq<(MdEvent, usize, usize)>) -> Seq<(Option<u64>, nat)>
    decreases evs.len(),
{
    if evs.len() == 0 {
        seq![]
    } else {
        let prev = open_lists(evs.drop_last());
        match evs.last().0 {
            MdEvent::StartList(start) => prev.push((start, 0nat)),
            MdEvent::EndList => if prev.len() > 0 {
                prev.drop_last()
            } else {
                prev
            },
            MdEvent::EndItem => if prev.len() > 0 {
                prev.update(prev.len() - 1, (prev.last().0, prev.last().1 + 1))
            } else {
                prev
            },
            _ => prev,
        }
    }
}

/// The number an item of an open list gets: the list's first ordinal plus
/// the items of the list before it, wrapping at the top of `u64`.
pub open spec fn item_number(l: (Option<u64>, nat)) -> Option<u64> {
    match l.0 {
        Some(start) => Some(((start + l.1) % 0x1_0000_0000_0000_0000) as u64),
        None => None,
    }
}

proof fn lemma_counters_number_items(source: Seq<char>, evs: Seq<(MdEvent, usize, usize)>)
    ensures
        md_run(source, evs).counters.len() == open_lists(evs).len(),
        forall|i: int|
            0 <= i < open_lists(evs).len() ==> md_run(source, evs).counters[i] == item_number(
                #[trigger] open_lists(evs)[i],
            ),
    decreases evs.len(),
{
    if evs.len() > 0 {
        lemma_counters_number_items(source, evs.drop_last());
        let st = md_run(source, evs.drop_last());
        let prev = open_lists(evs.drop_last());
        let c = st.counters;
        assert(md_run(source, evs) == md_step(source, st, evs.last()));
        let now = open_lists(evs);
        let cn = md_run(source, evs).counters;
        match evs.last().0 {
            MdEvent::StartList(start) => {
                assert forall|i: int| 0 <= i < now.len() implies cn[i] == item_number(#[trigger] now[i]) by {
                    if i < prev.len() {
                        assert(now[i] == prev[i]);
                    } else {
                        if let Some(v) = start {
                            assert((v + 0nat) % 0x1_0000_0000_0000_0000 == v);
                        }
                    }
                }
            },
            MdEvent::EndList => {
                if prev.len() > 0 {
                    assert forall|i: int| 0 <= i < now.len() implies cn[i] == item_number(#[trigger] now[i]) by {
                        assert(now[i] == prev[i]);
                    }
                }
            },
            MdEvent::EndItem => {
                if prev.len() > 0 {
                    let n = prev.len() - 1;
                    assert forall|i: int| 0 <= i < now.len() implies cn[i] == item_number(#[trigger] now[i]) by {
                        if i != n {
                            assert(now[i] == prev[i]);
                        } else {
                            assert(c[n] == item_number(prev[n]));
                            if let Some(start) = prev[n].0 {
                                let x: int = start + prev[n].1;
                                let v = (x % 0x1_0000_0000_0000_0000) as u64;
                                assert(c[n] == Some(v));
                                if v == u64::MAX {
                                    assert((x + 1) % 0x1_0000_0000_0000_0000 == 0) by (nonlinear_arith)
                                        requires
                                            x >= 0,
                                            x % 0x1_0000_0000_0000_0000 == 0xffff_ffff_ffff_ffff,
                                    ;
                                } else {
                                    assert((x + 1) % 0x1_0000_0000_0000_0000 == x % 0x1_0000_0000_0000_0000 + 1)
                                        by (nonlinear_arith)
                                        requires
                                            x >= 0,
                                            x % 0x1_0000_0000_0000_0000 < 0xffff_ffff_ffff_ffff,
                                    ;
                                }
                            }
                        }
                    }
                }
            },
            _ => {},
        }
    }
}

/// Ordered lists are numbered from their start: when an item's end adds a
/// block, its ordinal is the first ordinal of the innermost open list plus
/// the items of that list that ended before it (items of lists nested
/// inside do not count); items of bullet lists have none.
pub proof fn lemma_item_ordinal(source: Seq<char>, evs: Seq<(MdEvent, usize, usize)>)
    requires
        evs.len() > 0,
        evs.last().0 == MdEvent::EndItem,
        blocks_of(source, evs).len() > blocks_of(source, evs.drop_last()).len(),
    ensures
        blocks_of(source, evs).last() matches BlockV::ListItem(_, _, _, ordinal) && ordinal == (if open_lists(
            evs.drop_last(),
        ).len() == 0 {
            None
        } else {
            item_number(open_lists(evs.drop_last()).last())
        }),
{
    lemma_counters_number_items(source, evs.drop_last());
    let st = md_run(source, evs.drop_last());
    assert(md_run(source, evs) == md_step(source, st, evs.last()));
    let ls = open_lists(evs.drop_last());
    if ls.len() > 0 {
        assert(st.counters.last() == st.counters[ls.len() - 1]);
        assert(ls.last() == ls[ls.len() - 1]);
    }
}

proof fn lemma_lists_open_bound(evs: Seq<(MdEvent, usize, usize)>)
    ensures
        lists_open(evs) <= evs.len(),
    decreases evs.len(),
{
    if evs.len() > 0 {
        lemma_lists_open_bound(evs.drop_last());
    }
}

/// Builds the block list from an event stream over its source.
struct Builder {
    text: Vec<char>,
    span: Option<(usize, usize)>,
    counters: Vec<Option<u64>>,
    task: Option<bool>,
    code: Option<Vec<char>>,
    quote: bool,
    item: bool,
    table: Option<Vec<Vec<String>>>,
    row: Vec<String>,
    blocks: Vec<Block>,
}

impl Builder {
    spec fn state(&self) -> MdState {
        MdState {
            text: self.text@,
            span: match self.span {
                Some((a, b)) => Some((a as int, b as int)),
                None => None,
            },
            counters: self.counters@,
            task: self.task,
            code: match self.code {
                Some(v) => Some(v@),
                None => None,
            },
            quote: self.quote,
            item: self.item,
            table: match self.table {
                Some(t) => Some(rows_view(t@)),
                None => None,
            },
            row: strs(self.row@),
            blocks: blocks_view(self.blocks@),
        }
    }

    fn new() -> (r: Builder)
        ensures
            r.state() == initial_state(),
    {
        let r = Builder {
            text: Vec::new(),
            span: None,
            counters: Vec::new(),
            task: None,
            code: None,
            quote: false,
            item: false,
            table: None,
            row: Vec::new(),
            blocks: Vec::new(),
        };
        assert(r.state().row =~= seq![]);
        assert(r.state().blocks =~= seq![]);
        r
    }

    fn extend(&mut self, a: usize, b: usize)
        ensures
            final(self).state() == (MdState {
                span: extended(old(self).state().span, a as int, b as int),
                ..old(self).state()
            }),
    {
        self.span = Some(
            match self.span {
                Some((s, e)) => (if s < a { s } else { a }, if e > b { e } else { b }),
                None => (a, b),
            },
        );
    }

    fn clear(&mut self)
        ensures
            final(self).state() == cleared(old(self).state()),
    {
        self.text = Vec::new();
        self.span = None;
        assert(self.state().text =~= seq![]);
    }

    fn push_block(&mut self, block: Block)
        ensures
            final(self).state() == (MdState {
                blocks: old(self).state().blocks.push(block@),
                ..old(self).state()
            }),
    {
        self.blocks.push(block);
        assert(blocks_view(self.blocks@) =~= blocks_view(old(self).blocks@).push(block@));
    }

    fn raw(&self, src: &Vec<char>, offsets: &Vec<u128>) -> (r: Vec<char>)
        requires
            offsets@.len() == src@.len() + 1,
            forall|k: int| 0 <= k <= src@.len() ==> offsets@[k] == crate::text::byte_offset(src@, k),
        ensures
            r@ == raw_of(src@, self.state().span),
    {
        match self.span {
            Some((a, b)) => match crate::text::get_byte_range(src, offsets, a, b) {
                Some(x) => trim_ws(&x),
                None => Vec::new(),
            },
            None => Vec::new(),
        }
    }

    fn step(&mut self, src: &Vec<char>, offsets: &Vec<u128>, ev: &(MdEvent, usize, usize))
        requires
            offsets@.len() == src@.len() + 1,
            forall|k: int| 0 <= k <= src@.len() ==> offsets@[k] == crate::text::byte_offset(src@, k),
        ensures
            final(self).state() == md_step(src@, old(self).state(), *ev),
    {
        let a = ev.1;
        let b = ev.2;
        match &ev.0 {
            MdEvent::StartHeading | MdEvent::StartParagraph => self.clear(),
            MdEvent::StartItem => {
                self.clear();
                self.item = true;
                self.task = None;
            },
            MdEvent::StartList(start) => {
                self.counters.push(*start);
            },
            MdEvent::EndList => {
                if self.counters.len() > 0 {
                    self.counters.pop();
                }
            },
            MdEvent::StartQuote => {
                self.clear();
                self.quote = true;
            },
            MdEvent::EndQuote => {
                let inline = self.raw(src, offsets);
                if inline.len() > 0 {
                    let joined = join_soft_wraps(string_of(&inline).as_str(), true);
                    self.push_block(Block::Quote(joined));
                }
                self.clear();
                self.quote = false;
            },
            MdEvent::StartCode(kind) => {
                self.code = Some(
                    match kind {
                        Some(l) => chars_of(l.as_str()),
                        None => Vec::new(),
                    },
                );
                self.text = Vec::new();
                assert(self.state().text =~= seq![]);
            },
            MdEvent::EndCode => {
                match &self.code {
                    Some(lang) => {
                        let body = crate::text::trim_end_ws(&self.text);
                        let block = Block::Code(string_of(lang), string_of(&body));
                        self.push_block(block);
                    },
                    None => {},
                }
                self.code = None;
                self.text = Vec::new();
                assert(self.state().text =~= seq![]);
            },
            MdEvent::StartTable => {
                let empty: Vec<Vec<String>> = Vec::new();
                assert(rows_view(empty@) =~= seq![]);
                self.table = Some(empty);
            },
            MdEvent::EndTable => {
                match self.table.take() {
                    Some(rows) => {
                        self.push_block(Block::Table(rows));
                    },
                    None => {},
                }
            },
            MdEvent::StartTableRow | MdEvent::StartTableHead => {
                self.row = Vec::new();
                assert(strs(self.row@) =~= seq![]);
            },
            MdEvent::EndTableRow | MdEvent::EndTableHead => {
                if self.table.is_some() {
                    let mut row: Vec<String> = Vec::new();
                    std::mem::swap(&mut row, &mut self.row);
                    let mut rows = self.table.take().unwrap();
                    let ghost before = rows@;
                    rows.push(row);
                    assert(rows_view(rows@) =~= rows_view(before).push(strs(row@)));
                    self.table = Some(rows);
                    assert(strs(self.row@) =~= seq![]);
                }
            },
            MdEvent::StartTableCell => {
                self.text = Vec::new();
                assert(self.state().text =~= seq![]);
            },
            MdEvent::EndTableCell => {
                let t = trim_ws(&self.text);
                let cell = string_of(&breakable(&t));
                let ghost before = self.row@;
                self.row.push(cell);
                assert(strs(self.row@) =~= strs(before).push(cell@));
            },
            MdEvent::EndHeading(level) => {
                let inline = self.raw(src, offsets);
                self.push_block(Block::Heading(*level, string_of(&inline)));
                self.clear();
            },
            MdEvent::EndParagraph => {
                if !self.quote && !self.item {
                    let inline = self.raw(src, offsets);
                    if inline.len() > 0 {
                        let joined = join_soft_wraps(string_of(&inline).as_str(), false);
                        self.push_block(Block::Paragraph(joined));
                    }
                    self.clear();
                }
            },
            MdEvent::EndItem => {
                let inline = self.raw(src, offsets);
                let depth: usize = if self.counters.len() == 0 {
                    0
                } else {
                    self.counters.len() - 1
                };
                let n = self.counters.len();
                let mut ordinal: Option<u64> = None;
                if n > 0 {
                    match self.counters[n - 1] {
                        Some(v) => {
                            ordinal = Some(v);
                            let next = if v == u64::MAX {
                                0
                            } else {
                                v + 1
                            };
                            self.counters.set(n - 1, Some(next));
                        },
                        None => {},
                    }
                }
                if inline.len() > 0 {
                    let joined = join_soft_wraps(string_of(&inline).as_str(), false);
                    self.push_block(Block::ListItem(depth, joined, self.task, ordinal));
                }
                self.clear();
                self.item = false;
            },
            MdEvent::Rule => self.push_block(Block::Rule),
            MdEvent::TaskListMarker(done) => {
                self.task = Some(*done);
            },
            MdEvent::Text(t) | MdEvent::Code(t) => {
                let c = chars_of(t.as_str());
                append_chars(&mut self.text, &c);
                self.extend(a, b);
            },
            MdEvent::SoftBreak => {
                self.text.push(' ');
                self.extend(a, b);
            },
            MdEvent::HardBreak => {
                self.text.push('\n');
                self.extend(a, b);
            },
            MdEvent::StartEmphasis | MdEvent::StartStrong | MdEvent::StartStrikethrough
            | MdEvent::StartLink(_) => {
                self.extend(a, b);
            },
            _ => {},
        }
    }
}

/// The blocks an event stream over `source` builds: headings, paragraphs,
/// list items with depth, task state and ordinal, fenced or indented code,
/// quotes, rules and tables, with prose taken as trimmed raw source slices
/// whose soft wraps are joined.
pub fn blocks_from_events(source: &str, events: &Vec<(MdEvent, usize, usize)>) -> (r: Vec<Block>)
    ensures
        blocks_view(r@) == blocks_of(source@, events@),
{
    let src = chars_of(source);
    let offsets = crate::text::byte_offsets(&src);
    let mut builder = Builder::new();
    let mut i: usize = 0;
    while i < events.len()
        invariant
            i <= events@.len(),
            src@ == source@,
            offsets@.len() == src@.len() + 1,
            forall|k: int| 0 <= k <= src@.len() ==> offsets@[k] == crate::text::byte_offset(src@, k),
            builder.state() == md_run(source@, events@.take(i as int)),
        decreases events@.len() - i,
    {
        assert(events@.take(i + 1).drop_last() == events@.take(i as int));
        assert(events@.take(i + 1).last() == events@[i as int]);
        builder.step(&src, &offsets, &events[i]);
        i += 1;
    }
    assert(events@.take(events@.len() as int) == events@);
    builder.blocks
}

#[verifier::external_type_specification]
#[verifier::external_body]
pub struct ExMdParserEvent<'a>(pulldown_cmark::Event<'a>);

#[verifier::external_type_specification]
#[verifier::external_body]
pub struct ExMdParserTag<'a>(pulldown_cmark::Tag<'a>);

#[verifier::external_type_specification]
#[verifier::external_body]
pub struct ExMdParserTagEnd(pulldown_cmark::TagEnd);

/// The shape of a parser event before its tag is read.
pub enum EventShape<'a> {
    Start(pulldown_cmark::Tag<'a>),
    End(pulldown_cmark::TagEnd),
    Text(String),
    Code(String),
    SoftBreak,
    HardBreak,
    Rule,
    TaskListMarker(bool),
    Other,
}

/// Splits a `pulldown_cmark::Event` into its variant, copying text out.
#[verifier::external_body]
fn event_shape<'a>(event: &pulldown_cmark::Event<'a>) -> EventShape<'a> {
    match event {
        Event::Start(tag) => EventShape::Start(tag.clone()),
        Event::End(tag) => EventShape::End(*tag),
        Event::Text(text) => EventShape::Text(text.to_string()),
        Event::Code(text) => EventShape::Code(text.to_string()),
        Event::SoftBreak => EventShape::SoftBreak,
        Event::HardBreak => EventShape::HardBreak,
        Event::Rule => EventShape::Rule,
        Event::TaskListMarker(done) => EventShape::TaskListMarker(*done),
        _ => EventShape::Other,
    }
}

/// Reads a block-level `pulldown_cmark::Tag`; `None` for the other tags.
#[verifier::external_body]
fn block_start(tag: &pulldown_cmark::Tag) -> Option<MdEvent> {
    match tag {
        Tag::Paragraph => Some(MdEvent::StartParagraph),
        Tag::Heading { .. } => Some(MdEvent::StartHeading),
        Tag::BlockQuote(_) => Some(MdEvent::StartQuote),
        Tag::CodeBlock(CodeBlockKind::Fenced(info)) => Some(MdEvent::StartCode(Some(info.to_string()))),
        Tag::CodeBlock(CodeBlockKind::Indented) => Some(MdEvent::StartCode(None)),
        Tag::List(start) => Some(MdEvent::StartList(*start)),
        Tag::Item => Some(MdEvent::StartItem),
        _ => None,
    }
}

/// Reads a table or inline `pulldown_cmark::Tag`.
#[verifier::external_body]
fn inline_start(tag: &pulldown_cmark::Tag) -> MdEvent {
    match tag {
        Tag::Table(_) => MdEvent::StartTable,
        Tag::TableHead => MdEvent::StartTableHead,
        Tag::TableRow => MdEvent::StartTableRow,
        Tag::TableCell => MdEvent::StartTableCell,
        Tag::Emphasis => MdEvent::StartEmphasis,
        Tag::Strong => MdEvent::StartStrong,
        Tag::Strikethrough => MdEvent::StartStrikethrough,
        Tag::Link { dest_url, .. } => MdEvent::StartLink(dest_url.to_string()),
        _ => MdEvent::StartOther,
    }
}

/// Reads a block-level `pulldown_cmark::TagEnd`; `None` for the other tags.
#[verifier::external_body]
fn block_end(tag: &pulldown_cmark::TagEnd) -> Option<MdEvent> {
    match tag {
        TagEnd::Paragraph => Some(MdEvent::EndParagraph),
        TagEnd::Heading(level) => Some(MdEvent::EndHeading(*level as u8)),
        TagEnd::BlockQuote(_) => Some(MdEvent::EndQuote),
        TagEnd::CodeBlock => Some(MdEvent::EndCode),
        TagEnd::List(_) => Some(MdEvent::EndList),
        TagEnd::Item => Some(MdEvent::EndItem),
        _ => None,
    }
}

/// Reads a table or inline `pulldown_cmark::TagEnd`.
#[verifier::external_body]
fn inline_end(tag: &pulldown_cmark::TagEnd) -> MdEvent {
    match tag {
        TagEnd::Table => MdEvent::EndTable,
        TagEnd::TableHead => MdEvent::EndTableHead,
        TagEnd::TableRow => MdEvent::EndTableRow,
        TagEnd::TableCell => MdEvent::EndTableCell,
        TagEnd::Emphasis => MdEvent::EndEmphasis,
        TagEnd::Strong => MdEvent::EndStrong,
        TagEnd::Strikethrough => MdEvent::EndStrikethrough,
        TagEnd::Link => MdEvent::EndLink,
        _ => MdEvent::EndOther,
    }
}

/// One parser event as the library reads it.
fn md_event(event: &pulldown_cmark::Event) -> MdEvent {
    match event_shape(event) {
        EventShape::Start(tag) => match block_start(&tag) {
            Some(e) => e,
            None => inline_start(&tag),
        },
        EventShape::End(tag) => match block_end(&tag) {
            Some(e) => e,
            None => inline_end(&tag),
        },
        EventShape::Text(t) => MdEvent::Text(t),
        EventShape::Code(t) => MdEvent::Code(t),
        EventShape::SoftBreak => MdEvent::SoftBreak,
        EventShape::HardBreak => MdEvent::HardBreak,
        EventShape::Rule => MdEvent::Rule,
        EventShape::TaskListMarker(done) => MdEvent::TaskListMarker(done),
        EventShape::Other => MdEvent::Other,
    }
}

/// The events `pulldown-cmark` produces for a source under the given option
/// bits, with the byte range of each.
pub uninterp spec fn md_events(source: Seq<char>, options: u32) -> Seq<(MdEvent, usize, usize)>;

/// Runs `pulldown_cmark::Parser::new_ext` over `source` with
/// `Options::from_bits_truncate(options)` and collects `into_offset_iter`,
/// each event read by `md_event`. The event stream is a function of the
/// source and options; the contract names it `md_events`.
#[verifier::external_body]
fn parser_events(source: &str, options: u32) -> (r: Vec<(MdEvent, usize, usize)>)
    ensures
        r@ == md_events(source@, options),
{
    let options = pulldown_cmark::Options::from_bits_truncate(options);
    pulldown_cmark::Parser::new_ext(source, options)
        .into_offset_iter()
        .map(|(event, range)| (md_event(&event), range.start, range.end))
        .collect()
}

/// Tables, footnotes, strikethrough and task lists.
pub const DOCUMENT_OPTIONS: u32 = 0x1e;

/// Every parser extension.
pub const ALL_OPTIONS: u32 = 0xfffe;

/// Strikethrough only, for inline prose.
pub const INLINE_OPTIONS: u32 = 0x08;

/// Parses a document into its blocks.
pub fn parse(source: &str) -> (r: Vec<Block>)
    ensures
        blocks_view(r@) == blocks_of(source@, md_events(source@, DOCUMENT_OPTIONS)),
{
    let events = parser_events(source, DOCUMENT_OPTIONS);
    blocks_from_events(source, &events)
}

/// A point in the prose: a block and a byte offset in its selectable text.
#[derive(Clone, Copy, PartialEq, Eq, Debug)]
pub struct ProsePosition {
    pub block: usize,
    pub byte: usize,
}

/// The part of the segment `[seg_start, seg_end)` of `block` that a
/// selection covers, relative to the segment's start.
pub open spec fn segment_selection(
    block: usize,
    seg_start: usize,
    seg_end: usize,
    selection: Option<(ProsePosition, ProsePosition)>,
) -> Option<(int, int)> {
    match selection {
        None => None,
        Some((s, e)) => if block < s.block || block > e.block {
            None
        } else {
            let start: int = if block == s.block {
                if s.byte >= seg_start {
                    s.byte as int
                } else {
                    seg_start as int
                }
            } else {
                seg_start as int
            };
            let end: int = if block == e.block {
                if e.byte <= seg_end {
                    e.byte as int
                } else {
                    seg_end as int
                }
            } else {
                seg_end as int
            };
            if end <= start || start >= seg_end {
                None
            } else {
                Some((start - seg_start, end - seg_start))
            }
        },
    }
}

/// The covered part of a segment of a block, relative to the segment.
pub fn selection_range_for_segment(
    block: usize,
    segment: &std::ops::Range<usize>,
    selection: Option<(ProsePosition, ProsePosition)>,
) -> (r: Option<std::ops::Range<usize>>)
    ensures
        match r {
            Some(x) => segment_selection(block, segment.start, segment.end, selection) == Some(
                (x.start as int, x.end as int),
            ),
            None => segment_selection(block, segment.start, segment.end, selection) is None,
        },
{
    let (start, end) = match selection {
        Some(x) => x,
        None => return None,
    };
    if block < start.block || block > end.block {
        return None;
    }
    let a = if block == start.block {
        if start.byte >= segment.start {
            start.byte
        } else {
            segment.start
        }
    } else {
        segment.start
    };
    let b = if block == end.block {
        if end.byte <= segment.end {
            end.byte
        } else {
            segment.end
        }
    } else {
        segment.end
    };
    if b <= a || a >= segment.end {
        return None;
    }
    Some((a - segment.start)..(b - segment.start))
}

/// The covered part of a whole block of `len` bytes.
pub fn prose_selection_range(
    block: usize,
    len: usize,
    selection: Option<(ProsePosition, ProsePosition)>,
) -> (r: Option<std::ops::Range<usize>>)
    ensures
        match r {
            Some(x) => segment_selection(block, 0, len, selection) == Some(
                (x.start as int, x.end as int),
            ),
            None => segment_selection(block, 0, len, selection) is None,
        },
{
    selection_range_for_segment(block, &(0..len), selection)
}

/// Where cell `j` of row `i` starts in the table's tab-separated text.
pub open spec fn cell_start(rows: Seq<Seq<Seq<char>>>, i: int, j: int) -> int {
    let row_start: int = if i > 0 {
        crate::text::byte_len(table_text_of(rows.take(i))) + 1int
    } else {
        0
    };
    let in_row: int = if j > 0 {
        crate::text::byte_len(join_with(rows[i].take(j), '\t')) + 1int
    } else {
        0
    };
    row_start + in_row
}

/// The table's text in bytes fits in memory.
pub open spec fn table_fits(rows: Seq<Seq<Seq<char>>>) -> bool {
    crate::text::byte_len(table_text_of(rows)) <= usize::MAX
}

proof fn lemma_join_step(parts: Seq<Seq<char>>, j: int, sep: char)
    requires
        0 <= j < parts.len(),
    ensures
        join_with(parts.take(j + 1), sep) == (if j > 0 {
            join_with(parts.take(j), sep) + seq![sep]
        } else {
            seq![]
        }) + parts[j],
{
    assert(parts.take(j + 1).drop_last() =~= parts.take(j));
    assert(parts.take(j + 1).last() == parts[j]);
    if j == 0 {
        assert(parts.take(1)[0] == parts[0]);
        assert(seq![] + parts[0] =~= parts[0]);
    }
}

proof fn lemma_join_step_len(parts: Seq<Seq<char>>, j: int, sep: char)
    requires
        0 <= j < parts.len(),
        (sep as u32) < 0x80,
    ensures
        crate::text::byte_len(join_with(parts.take(j + 1), sep)) == (if j > 0 {
            crate::text::byte_len(join_with(parts.take(j), sep)) + 1
        } else {
            0
        }) + crate::text::byte_len(parts[j]),
{
    lemma_join_step(parts, j, sep);
    let a = join_with(parts.take(j), sep);
    let one = seq![sep];
    assert(one.drop_last() =~= Seq::<char>::empty());
    assert(one.last() == sep);
    assert(crate::text::byte_len(Seq::<char>::empty()) == 0);
    assert(crate::text::char_width(sep) == 1);
    assert(crate::text::byte_len(one) == 1);
    if j > 0 {
        crate::text::lemma_byte_len_concat(a, one);
        crate::text::lemma_byte_len_concat(a + one, parts[j]);
    } else {
        assert(seq![] + parts[j] =~= parts[j]);
    }
}

proof fn lemma_join_prefix_len(parts: Seq<Seq<char>>, j: int, sep: char)
    requires
        0 <= j <= parts.len(),
    ensures
        crate::text::byte_len(join_with(parts.take(j), sep)) <= crate::text::byte_len(
            join_with(parts, sep),
        ),
    decreases parts.len() - j,
{
    if j < parts.len() {
        lemma_join_prefix_len(parts, j + 1, sep);
        lemma_join_step(parts, j, sep);
        let a = join_with(parts.take(j), sep);
        if j > 0 {
            crate::text::lemma_byte_len_concat(a, seq![sep]);
            crate::text::lemma_byte_len_concat(a + seq![sep], parts[j]);
        } else {
            assert(a =~= seq![]);
        }
    } else {
        assert(parts.take(j) =~= parts);
    }
}

/// The byte range of each cell in the table's tab-separated text.
pub fn table_cell_ranges(rows: &Vec<Vec<String>>) -> (r: Vec<Vec<std::ops::Range<usize>>>)
    requires
        table_fits(rows_view(rows@)),
    ensures
        r@.len() == rows@.len(),
        forall|i: int| 0 <= i < r@.len() ==> (#[trigger] r@[i])@.len() == rows@[i]@.len(),
        forall|i: int, j: int|
            0 <= i < r@.len() && 0 <= j < r@[i]@.len() ==> r@[i]@[j].start == cell_start(
                rows_view(rows@),
                i,
                j,
            ) && r@[i]@[j].end == cell_start(rows_view(rows@), i, j) + crate::text::byte_len(
                rows@[i]@[j]@,
            ),
{
    let ghost rv = rows_view(rows@);
    let ghost lines = rv.map_values(|r: Seq<Seq<char>>| join_with(r, '\t'));
    let mut out: Vec<Vec<std::ops::Range<usize>>> = Vec::new();
    let mut cursor: usize = 0;
    let mut i: usize = 0;
    assert(rv.take(0) =~= Seq::<Seq<Seq<char>>>::empty());
    assert(table_text_of(rv.take(0)) =~= Seq::<char>::empty());
    while i < rows.len()
        invariant
            i <= rows@.len(),
            rv == rows_view(rows@),
            lines == rv.map_values(|r: Seq<Seq<char>>| join_with(r, '\t')),
            table_fits(rv),
            cursor == crate::text::byte_len(table_text_of(rv.take(i as int))),
            out@.len() == i,
            forall|a: int| 0 <= a < i ==> (#[trigger] out@[a])@.len() == rows@[a]@.len(),
            forall|a: int, b: int|
                0 <= a < i && 0 <= b < out@[a]@.len() ==> out@[a]@[b].start == cell_start(rv, a, b)
                    && out@[a]@[b].end == cell_start(rv, a, b) + crate::text::byte_len(rows@[a]@[b]@),
        decreases rows@.len() - i,
    {
        let row = &rows[i];
        let ghost cells = rv[i as int];
        assert(cells == strs(row@));
        proof {
            assert(lines.take(i as int) =~= rv.take(i as int).map_values(
                |r: Seq<Seq<char>>| join_with(r, '\t'),
            ));
            assert(lines.take(i + 1) =~= rv.take(i + 1).map_values(
                |r: Seq<Seq<char>>| join_with(r, '\t'),
            ));
            lemma_join_step_len(lines, i as int, '\n');
            lemma_join_prefix_len(lines, i + 1, '\n');
            assert(rv.take(rows@.len() as int) =~= rv);
            assert(lines.take(rows@.len() as int) =~= lines);
            assert(lines[i as int] == join_with(cells, '\t'));
        }
        let base: usize = if i > 0 {
            cursor + 1
        } else {
            cursor
        };
        let mut cur: usize = base;
        let mut ranges: Vec<std::ops::Range<usize>> = Vec::new();
        let mut j: usize = 0;
        assert(cells.take(0) =~= Seq::<Seq<char>>::empty());
        while j < row.len()
            invariant
                j <= row@.len(),
                cells == strs(row@),
                cells == rv[i as int],
                i < rows@.len(),
                rv == rows_view(rows@),
                base == cell_start(rv, i as int, 0),
                base + crate::text::byte_len(join_with(cells, '\t')) <= usize::MAX,
                cur == base + crate::text::byte_len(join_with(cells.take(j as int), '\t')),
                ranges@.len() == j,
                forall|b: int|
                    0 <= b < j ==> (#[trigger] ranges@[b]).start == cell_start(rv, i as int, b)
                        && ranges@[b].end == cell_start(rv, i as int, b) + crate::text::byte_len(
                        rows@[i as int]@[b]@,
                    ),
            decreases row@.len() - j,
        {
            proof {
                lemma_join_step_len(cells, j as int, '\t');
                lemma_join_prefix_len(cells, j + 1, '\t');
                assert(cells[j as int] == rows@[i as int]@[j as int]@);
            }
            let start: usize = if j > 0 {
                cur + 1
            } else {
                cur
            };
            let width = crate::text::byte_length(&chars_of(row[j].as_str()));
            proof {
                assert(width == crate::text::byte_len(cells[j as int]));
            }
            let end: usize = start + width as usize;
            ranges.push(start..end);
            cur = end;
            j += 1;
        }
        assert(cells.take(row@.len() as int) =~= cells);
        assert(table_text_of(rv.take(i + 1)) == join_with(lines.take(i + 1), '\n'));
        assert(lines[i as int] == join_with(cells, '\t'));
        assert(table_text_of(rv.take(i as int)) == join_with(lines.take(i as int), '\n'));
        out.push(ranges);
        cursor = cur;
        i += 1;
    }
    out
}

/// Where part `k` begins, in characters, in the parts joined by a separator.
pub open spec fn piece_at(parts: Seq<Seq<char>>, k: int, sep: char) -> int {
    join_with(parts.take(k), sep).len() + if k > 0 {
        1int
    } else {
        0int
    }
}

/// Where cell `j` of row `i` begins, in characters, in the table's text.
pub open spec fn cell_char_start(rows: Seq<Seq<Seq<char>>>, i: int, j: int) -> int {
    piece_at(rows.map_values(|r: Seq<Seq<char>>| join_with(r, '\t')), i, '\n') + piece_at(
        rows[i],
        j,
        '\t',
    )
}

proof fn lemma_join_prefix(parts: Seq<Seq<char>>, n: int, m: int, sep: char)
    requires
        0 <= n <= m <= parts.len(),
    ensures
        join_with(parts.take(n), sep).len() <= join_with(parts.take(m), sep).len(),
        join_with(parts.take(m), sep).take(join_with(parts.take(n), sep).len() as int)
            == join_with(parts.take(n), sep),
    decreases m - n,
{
    let a = join_with(parts.take(n), sep);
    if n < m {
        lemma_join_prefix(parts, n, m - 1, sep);
        lemma_join_step(parts, m - 1, sep);
        let b = join_with(parts.take(m - 1), sep);
        let c = join_with(parts.take(m), sep);
        if m - 1 == 0 {
            assert(parts.take(0) =~= Seq::<Seq<char>>::empty());
            assert(a =~= Seq::<char>::empty());
        }
        assert(c.take(a.len() as int) =~= a);
    } else {
        assert(a.take(a.len() as int) =~= a);
    }
}

proof fn lemma_join_piece(parts: Seq<Seq<char>>, k: int, sep: char)
    requires
        0 <= k < parts.len(),
    ensures
        piece_at(parts, k, sep) + parts[k].len() <= join_with(parts, sep).len(),
        join_with(parts, sep).subrange(
            piece_at(parts, k, sep),
            piece_at(parts, k, sep) + parts[k].len(),
        ) == parts[k],
        join_with(parts, sep).take(piece_at(parts, k, sep)) == join_with(parts.take(k), sep) + if k
            > 0 {
            seq![sep]
        } else {
            seq![]
        },
{
    lemma_join_step(parts, k, sep);
    lemma_join_prefix(parts, k + 1, parts.len() as int, sep);
    assert(parts.take(parts.len() as int) =~= parts);
    let whole = join_with(parts, sep);
    let c = join_with(parts.take(k + 1), sep);
    let pre = join_with(parts.take(k), sep) + if k > 0 {
        seq![sep]
    } else {
        seq![]
    };
    let p = piece_at(parts, k, sep);
    assert(pre.len() == p);
    assert(c =~= pre + parts[k]);
    assert(whole.take(c.len() as int) == c);
    assert(whole.subrange(p, p + parts[k].len()) =~= parts[k]) by {
        assert forall|x: int| 0 <= x < parts[k].len() implies whole[p + x] == parts[k][x] by {
            assert(whole.take(c.len() as int)[p + x] == whole[p + x]);
            assert(c[p + x] == parts[k][x]);
        }
    }
    assert(whole.take(p) =~= pre) by {
        assert forall|x: int| 0 <= x < p implies whole[x] == pre[x] by {
            assert(whole.take(c.len() as int)[x] == whole[x]);
            assert(c[x] == pre[x]);
        }
    }
}

proof fn lemma_sep_prefix_bytes(a: Seq<char>, sep: char, k: int)
    requires
        (sep as u32) < 0x80,
    ensures
        crate::text::byte_len(a + if k > 0 {
            seq![sep]
        } else {
            seq![]
        }) == crate::text::byte_len(a) + if k > 0 {
            1int
        } else {
            0int
        },
{
    let one = seq![sep];
    assert(one.drop_last() =~= Seq::<char>::empty());
    assert(one.last() == sep);
    assert(crate::text::byte_len(Seq::<char>::empty()) == 0);
    assert(crate::text::char_width(sep) == 1);
    assert(crate::text::byte_len(one) == 1);
    if k > 0 {
        crate::text::lemma_byte_len_concat(a, one);
    } else {
        assert(a + seq![] =~= a);
    }
}

/// The cells' byte ranges come in row-major order without overlap: the
/// range of a cell ends before the range of any later cell begins.
pub proof fn lemma_cell_ranges_in_order(rows: Seq<Seq<Seq<char>>>, i: int, j: int, i2: int, j2: int)
    requires
        0 <= i < rows.len(),
        0 <= j < rows[i].len(),
        0 <= i2 < rows.len(),
        0 <= j2 < rows[i2].len(),
        i < i2 || (i == i2 && j < j2),
    ensures
        cell_start(rows, i, j) + crate::text::byte_len(rows[i][j]) < cell_start(rows, i2, j2),
{
    let lines = rows.map_values(|r: Seq<Seq<char>>| join_with(r, '\t'));
    let cells = rows[i];
    lemma_join_step_len(cells, j, '\t');
    if i == i2 {
        assert(cells.take(j2).take(j + 1) =~= cells.take(j + 1));
        lemma_join_prefix_len(cells.take(j2), j + 1, '\t');
    } else {
        lemma_join_prefix_len(cells, j + 1, '\t');
        assert(cells.take(cells.len() as int) =~= cells);
        assert(lines[i] == join_with(cells, '\t'));
        lemma_join_step_len(lines, i, '\n');
        assert(rows.take(i).map_values(|r: Seq<Seq<char>>| join_with(r, '\t')) =~= lines.take(i));
        assert(rows.take(i2).map_values(|r: Seq<Seq<char>>| join_with(r, '\t')) =~= lines.take(i2));
        assert(table_text_of(rows.take(i)) == join_with(lines.take(i), '\n'));
        assert(table_text_of(rows.take(i2)) == join_with(lines.take(i2), '\n'));
        assert(lines.take(i2).take(i + 1) =~= lines.take(i + 1));
        lemma_join_prefix_len(lines.take(i2), i + 1, '\n');
    }
}

/// Slicing the table's text at a cell's byte range gives back that cell:
/// the range begins at the character boundary where the cell's characters
/// stand in the text, and spans exactly their bytes.
pub proof fn lemma_cell_range_slices_cell(rows: Seq<Seq<Seq<char>>>, i: int, j: int)
    requires
        0 <= i < rows.len(),
        0 <= j < rows[i].len(),
    ensures
        0 <= cell_char_start(rows, i, j),
        cell_char_start(rows, i, j) + rows[i][j].len() <= table_text_of(rows).len(),
        crate::text::byte_len(table_text_of(rows).take(cell_char_start(rows, i, j)))
            == cell_start(rows, i, j),
        table_text_of(rows).subrange(
            cell_char_start(rows, i, j),
            cell_char_start(rows, i, j) + rows[i][j].len(),
        ) == rows[i][j],
{
    let lines = rows.map_values(|r: Seq<Seq<char>>| join_with(r, '\t'));
    let text = table_text_of(rows);
    let cells = rows[i];
    let line = lines[i];
    assert(line == join_with(cells, '\t'));
    lemma_join_piece(lines, i, '\n');
    lemma_join_piece(cells, j, '\t');
    let pr = piece_at(lines, i, '\n');
    let pc = piece_at(cells, j, '\t');
    assert(text.subrange(pr, pr + line.len()) == line);
    assert(text.subrange(pr + pc, pr + pc + cells[j].len()) =~= cells[j]) by {
        assert forall|x: int| 0 <= x < cells[j].len() implies text[pr + pc + x] == cells[j][x] by {
            assert(text.subrange(pr, pr + line.len())[pc + x] == text[pr + pc + x]);
            assert(line.subrange(pc, pc + cells[j].len())[x] == line[pc + x]);
        }
    }
    assert(text.take(pr + pc) =~= text.take(pr) + line.take(pc)) by {
        assert forall|x: int| pr <= x < pr + pc implies text[x] == line[x - pr] by {
            assert(text.subrange(pr, pr + line.len())[x - pr] == text[x]);
        }
    }
    crate::text::lemma_byte_len_concat(text.take(pr), line.take(pc));
    assert(rows.take(i).map_values(|r: Seq<Seq<char>>| join_with(r, '\t')) =~= lines.take(i));
    assert(table_text_of(rows.take(i)) == join_with(lines.take(i), '\n'));
    lemma_sep_prefix_bytes(join_with(lines.take(i), '\n'), '\n', i);
    lemma_sep_prefix_bytes(join_with(cells.take(j), '\t'), '\t', j);
}


/// The text one inline event contributes to flattened prose: text as is,
/// code with a space on each side, a soft break as a space and a hard break
/// as a newline.
pub open spec fn event_text(e: MdEvent) -> Seq<char> {
    match e {
        MdEvent::Text(t) => t@,
        MdEvent::Code(t) => seq![' '] + t@ + seq![' '],
        MdEvent::SoftBreak => seq![' '],
        MdEvent::HardBreak => seq!['\n'],
        _ => seq![],
    }
}

/// The flattened text of an inline event stream.
pub open spec fn flat_text_of(events: Seq<(MdEvent, usize, usize)>) -> Seq<char>
    decreases events.len(),
{
    if events.len() == 0 {
        seq![]
    } else {
        flat_text_of(events.drop_last()) + event_text(events.last().0)
    }
}

/// Inline Markdown flattened to the plain text the preview lays out.
pub fn flat_inline_text(source: &str) -> (r: String)
    ensures
        r@ == flat_text_of(md_events(source@, INLINE_OPTIONS)),
{
    let events = parser_events(source, INLINE_OPTIONS);
    let mut out: Vec<char> = Vec::new();
    let mut i: usize = 0;
    while i < events.len()
        invariant
            i <= events@.len(),
            out@ == flat_text_of(events@.take(i as int)),
        decreases events@.len() - i,
    {
        assert(events@.take(i + 1).drop_last() =~= events@.take(i as int));
        assert(events@.take(i + 1).last() == events@[i as int]);
        let ghost before = out@;
        match &events[i].0 {
            MdEvent::Text(t) => {
                let c = chars_of(t.as_str());
                append_chars(&mut out, &c);
            },
            MdEvent::Code(t) => {
                out.push(' ');
                let c = chars_of(t.as_str());
                append_chars(&mut out, &c);
                out.push(' ');
                assert(out@ =~= before + (seq![' '] + t@ + seq![' ']));
            },
            MdEvent::SoftBreak => {
                out.push(' ');
            },
            MdEvent::HardBreak => {
                out.push('\n');
            },
            _ => {
                assert(out@ =~= before + Seq::<char>::empty());
            },
        }
        assert(out@ =~= before + event_text(events@[i as int].0));
        i += 1;
    }
    assert(events@.take(events@.len() as int) =~= events@);
    string_of(&out)
}

/// The inline Markdown source of a prose block.
pub open spec fn inline_source_of(b: BlockV) -> Option<Seq<char>> {
    match b {
        BlockV::Heading(_, t) => Some(t),
        BlockV::Paragraph(t) => Some(t),
        BlockV::ListItem(_, t, _, _) => Some(t),
        BlockV::Quote(t) => Some(t),
        _ => None,
    }
}

/// The inline Markdown source of a block, for headings, paragraphs, list
/// items and quotes.
pub fn block_inline_source(block: &Block) -> (r: Option<&str>)
    ensures
        match r {
            Some(t) => inline_source_of(block@) == Some(t@),
            None => inline_source_of(block@) is None,
        },
{
    match block {
        Block::Heading(_, text) => Some(text.as_str()),
        Block::Paragraph(text) => Some(text.as_str()),
        Block::ListItem(_, text, _, _) => Some(text.as_str()),
        Block::Quote(text) => Some(text.as_str()),
        Block::Code(_, _) => None,
        Block::Rule => None,
        Block::Table(_) => None,
    }
}

/// The text a selection can cover in a block: flattened inline prose, or a
/// table's tab-separated text; code blocks and rules have none.
pub open spec fn selectable_text(b: BlockV) -> Option<Seq<char>> {
    match inline_source_of(b) {
        Some(source) => Some(flat_text_of(md_events(source, INLINE_OPTIONS))),
        None => match b {
            BlockV::Table(rows) => Some(table_text_of(rows)),
            _ => None,
        },
    }
}

/// The selectable text of a block.
pub fn block_selectable_text(block: &Block) -> (r: Option<String>)
    ensures
        match r {
            Some(t) => selectable_text(block@) == Some(t@),
            None => selectable_text(block@) is None,
        },
{
    if let Some(source) = block_inline_source(block) {
        return Some(flat_inline_text(source));
    }
    match block {
        Block::Table(rows) => Some(table_text(rows)),
        _ => None,
    }
}

/// What a selection copies from block `index` with selectable text `text`:
/// the covered bytes, when they fall on character boundaries, with
/// zero-width spaces removed.
pub open spec fn selected_part(
    index: usize,
    text: Seq<char>,
    selection: Option<(ProsePosition, ProsePosition)>,
) -> Option<Seq<char>> {
    match segment_selection(index, 0, crate::text::byte_len(text) as usize, selection) {
        None => None,
        Some((start, end)) => match crate::text::byte_slice(text, start, end) {
            Some(part) => Some(crate::text::replaced(part, seq!['\u{200b}'], seq![])),
            None => None,
        },
    }
}

/// The parts a selection copies from each block, in block order.
pub open spec fn selected_parts(
    blocks: Seq<BlockV>,
    selection: Option<(ProsePosition, ProsePosition)>,
) -> Seq<Seq<char>>
    decreases blocks.len(),
{
    if blocks.len() == 0 {
        seq![]
    } else {
        let prev = selected_parts(blocks.drop_last(), selection);
        match selectable_text(blocks.last()) {
            None => prev,
            Some(text) => match selected_part((blocks.len() - 1) as usize, text, selection) {
                Some(part) => prev.push(part),
                None => prev,
            },
        }
    }
}

/// The copied text of a selection: its parts joined by newlines, or nothing
/// when no block contributes.
pub open spec fn selected_text(
    blocks: Seq<BlockV>,
    selection: Option<(ProsePosition, ProsePosition)>,
) -> Option<Seq<char>> {
    let parts = selected_parts(blocks, selection);
    if parts.len() == 0 {
        None
    } else {
        Some(join_with(parts, '\n'))
    }
}

/// The text a prose selection copies.
pub fn selected_prose_text(
    blocks: &Vec<Block>,
    selection: Option<(ProsePosition, ProsePosition)>,
) -> (r: Option<String>)
    ensures
        match r {
            Some(t) => selected_text(blocks_view(blocks@), selection) == Some(t@),
            None => selected_text(blocks_view(blocks@), selection) is None,
        },
{
    let ghost bv = blocks_view(blocks@);
    let zero_width: Vec<char> = vec!['\u{200b}'];
    let nothing: Vec<char> = Vec::new();
    let mut parts: Vec<String> = Vec::new();
    let mut i: usize = 0;
    while i < blocks.len()
        invariant
            i <= blocks@.len(),
            bv == blocks_view(blocks@),
            zero_width@ == seq!['\u{200b}'],
            nothing@ == Seq::<char>::empty(),
            strs(parts@) == selected_parts(bv.take(i as int), selection),
        decreases blocks@.len() - i,
    {
        assert(bv.take(i + 1).drop_last() =~= bv.take(i as int));
        assert(bv.take(i + 1).last() == blocks@[i as int]@);
        let ghost before = parts@;
        if let Some(text) = block_selectable_text(&blocks[i]) {
            let chars = chars_of(text.as_str());
            let offsets = crate::text::byte_offsets(&chars);
            assert(chars@.take(chars@.len() as int) =~= chars@);
            let len = offsets[chars.len()] as usize;
            if let Some(range) = prose_selection_range(i, len, selection) {
                if let Some(part) = crate::text::get_byte_range(
                    &chars,
                    &offsets,
                    range.start,
                    range.end,
                ) {
                    let cleaned = crate::text::replace_all(&part, &zero_width, &nothing);
                    parts.push(string_of(&cleaned));
                    assert(strs(parts@) =~= strs(before).push(cleaned@));
                }
            }
        }
        i += 1;
    }
    assert(bv.take(blocks@.len() as int) =~= bv);
    if parts.len() == 0 {
        None
    } else {
        Some(string_of(&join_strings(&parts, '\n')))
    }
}


/// Whether `p` occurs somewhere in `t`.
pub open spec fn contains_seq(t: Seq<char>, p: Seq<char>) -> bool {
    exists|i: int| 0 <= i && i + p.len() <= t.len() && #[trigger] t.subrange(i, i + p.len()) == p
}

/// The local file a link destination names: the part before any `#`,
/// unless it is empty, a URL with a scheme, a mail address or an anchor.
pub open spec fn link_target(dest: Seq<char>) -> Option<Seq<char>> {
    let target = split_on(dest, '#')[0];
    if target.len() == 0 || contains_seq(target, "://"@) || "mailto:"@.is_prefix_of(target) || target[0] == '#' {
        None
    } else {
        Some(target)
    }
}

/// The local targets of the links among some events, in order.
pub open spec fn link_targets_of(events: Seq<(MdEvent, usize, usize)>) -> Seq<Seq<char>>
    decreases events.len(),
{
    if events.len() == 0 {
        seq![]
    } else {
        let prev = link_targets_of(events.drop_last());
        match events.last().0 {
            MdEvent::StartLink(dest) => match link_target(dest@) {
                Some(t) => prev.push(t),
                None => prev,
            },
            _ => prev,
        }
    }
}

fn contains_chars(t: &Vec<char>, p: &Vec<char>) -> (r: bool)
    ensures
        r == contains_seq(t@, p@),
{
    if p.len() > t.len() {
        return false;
    }
    if p.len() == 0 {
        assert(t@.subrange(0, 0 + p@.len() as int) =~= p@);
        return true;
    }
    let n = t.len();
    let last = n - p.len();
    let mut i: usize = 0;
    while i <= last
        invariant
            last == t@.len() - p@.len(),
            last < t@.len(),
            t@.len() == n,
            i <= last + 1,
            forall|j: int| 0 <= j < i ==> #[trigger] t@.subrange(j, j + p@.len()) != p@,
        decreases last + 1 - i,
    {
        if crate::text::occurs_at(t, p, i) {
            return true;
        }
        i += 1;
    }
    false
}

/// The link destinations of a document that name local files, as written
/// (before the anchor), in document order.
pub fn link_targets(source: &str) -> (r: Vec<String>)
    ensures
        strs(r@) == link_targets_of(md_events(source@, ALL_OPTIONS)),
{
    let events = parser_events(source, ALL_OPTIONS);
    let scheme = chars_of("://");
    let mailto = chars_of("mailto:");
    let mut out: Vec<String> = Vec::new();
    let mut i: usize = 0;
    while i < events.len()
        invariant
            i <= events@.len(),
            scheme@ == "://"@,
            mailto@ == "mailto:"@,
            strs(out@) == link_targets_of(events@.take(i as int)),
        decreases events@.len() - i,
    {
        assert(events@.take(i + 1).drop_last() =~= events@.take(i as int));
        assert(events@.take(i + 1).last() == events@[i as int]);
        if let MdEvent::StartLink(dest) = &events[i].0 {
            let pieces = split_char(&chars_of(dest.as_str()), '#');
            proof {
                crate::text::lemma_split_on_nonempty(dest@, '#');
            }
            let target = &pieces[0];
            if target.len() > 0 && !contains_chars(target, &scheme) && !crate::text::starts_with(target, &mailto)
                && target[0] != '#' {
                out.push(string_of(target));
                assert(strs(out@) =~= link_targets_of(events@.take(i as int)).push(target@));
            }
        }
        i += 1;
    }
    assert(events@.take(events@.len() as int) =~= events@);
    out
}

/// What a block counts for in a document summary: its kind, and its
/// level, depth, line count or row count.
pub open spec fn block_summary(b: BlockV) -> (Seq<char>, int) {
    match b {
        BlockV::Heading(level, _) => ("heading"@, level as int),
        BlockV::Paragraph(_) => ("paragraph"@, 0),
        BlockV::ListItem(depth, _, _, _) => ("list"@, depth as int),
        BlockV::Code(_, source) => ("code"@, lines_of(source).len() as int),
        BlockV::Quote(_) => ("quote"@, 0),
        BlockV::Rule => ("rule"@, 0),
        BlockV::Table(rows) => ("table"@, rows.len() as int),
    }
}

/// One summary entry per block of a parsed document: its kind and its
/// heading level, list depth, code line count or table row count.
pub fn parse_summary(source: &str) -> (r: Vec<(&'static str, usize)>)
    ensures
        r@.len() == blocks_of(source@, md_events(source@, DOCUMENT_OPTIONS)).len(),
        forall|k: int|
            0 <= k < r@.len() ==> ((#[trigger] r@[k]).0@, r@[k].1 as int) == block_summary(
                blocks_of(source@, md_events(source@, DOCUMENT_OPTIONS))[k],
            ),
{
    let blocks = parse(source);
    let ghost bv = blocks_view(blocks@);
    let mut out: Vec<(&'static str, usize)> = Vec::new();
    let mut i: usize = 0;
    while i < blocks.len()
        invariant
            i <= blocks@.len(),
            bv == blocks_view(blocks@),
            out@.len() == i,
            forall|k: int| 0 <= k < i ==> ((#[trigger] out@[k]).0@, out@[k].1 as int) == block_summary(bv[k]),
        decreases blocks@.len() - i,
    {
        let entry: (&'static str, usize) = match &blocks[i] {
            Block::Heading(level, _) => ("heading", *level as usize),
            Block::Paragraph(_) => ("paragraph", 0),
            Block::ListItem(depth, _, _, _) => ("list", *depth),
            Block::Code(_, source) => ("code", lines(&chars_of(source.as_str())).len()),
            Block::Quote(_) => ("quote", 0),
            Block::Rule => ("rule", 0),
            Block::Table(rows) => ("table", rows.len()),
        };
        proof {
            reveal_strlit("heading");
            reveal_strlit("paragraph");
            reveal_strlit("list");
            reveal_strlit("code");
            reveal_strlit("quote");
            reveal_strlit("rule");
            reveal_strlit("table");
        }
        out.push(entry);
        i += 1;
    }
    out
}

/// The outline's rows: each heading's block, level and title, and whether
/// it is the active one.
pub fn outline_items(headings: &Vec<Heading>, active: Option<usize>) -> (r: Vec<(usize, u8, String, bool)>)
    ensures
        r@.len() == headings@.len(),
        forall|k: int|
            0 <= k < r@.len() ==> (#[trigger] r@[k]).0 == headings@[k].block && r@[k].1 == headings@[k].level
                && r@[k].2@ == headings@[k].title@ && r@[k].3 == (active == Some(headings@[k].block)),
{
    let mut out: Vec<(usize, u8, String, bool)> = Vec::new();
    let mut i: usize = 0;
    while i < headings.len()
        invariant
            i <= headings@.len(),
            out@.len() == i,
            forall|k: int|
                0 <= k < i ==> (#[trigger] out@[k]).0 == headings@[k].block && out@[k].1 == headings@[k].level
                    && out@[k].2@ == headings@[k].title@ && out@[k].3 == (active == Some(headings@[k].block)),
        decreases headings@.len() - i,
    {
        let h = &headings[i];
        let is_active = match active {
            Some(a) => a == h.block,
            None => false,
        };
        out.push((h.block, h.level, h.title.clone(), is_active));
        i += 1;
    }
    out
}


/// A piece of flattened inline text and how it is drawn.
#[derive(Clone, Debug, PartialEq, Eq)]
pub struct StyledPiece {
    pub text: String,
    pub bold: bool,
    pub italic: bool,
    pub strike: bool,
    pub link: bool,
    /// Inline code, drawn as a chip in the monospace face.
    pub code: bool,
}

/// Which of bold, italic, strikethrough and link are open after the events.
pub open spec fn inline_style(events: Seq<(MdEvent, usize, usize)>) -> (bool, bool, bool, bool)
    decreases events.len(),
{
    if events.len() == 0 {
        (false, false, false, false)
    } else {
        let s = inline_style(events.drop_last());
        match events.last().0 {
            MdEvent::StartStrong => (true, s.1, s.2, s.3),
            MdEvent::EndStrong => (false, s.1, s.2, s.3),
            MdEvent::StartEmphasis => (s.0, true, s.2, s.3),
            MdEvent::EndEmphasis => (s.0, false, s.2, s.3),
            MdEvent::StartStrikethrough => (s.0, s.1, true, s.3),
            MdEvent::EndStrikethrough => (s.0, s.1, false, s.3),
            MdEvent::StartLink(_) => (s.0, s.1, s.2, true),
            MdEvent::EndLink => (s.0, s.1, s.2, false),
            _ => s,
        }
    }
}

/// The styled pieces of an inline event stream: each text, code span and
/// break, in the style open at it. Code is never bold or italic.
pub open spec fn pieces_of(events: Seq<(MdEvent, usize, usize)>) -> Seq<
    (Seq<char>, bool, bool, bool, bool, bool),
>
    decreases events.len(),
{
    if events.len() == 0 {
        Seq::empty()
    } else {
        let rest = pieces_of(events.drop_last());
        let e = events.last().0;
        let t = event_text(e);
        if t.len() == 0 {
            rest
        } else {
            let s = inline_style(events.drop_last());
            let code = e is Code;
            rest.push((t, s.0 && !code, s.1 && !code, s.2, s.3, code))
        }
    }
}

pub open spec fn pieces_view(v: Seq<StyledPiece>) -> Seq<(Seq<char>, bool, bool, bool, bool, bool)> {
    v.map_values(|p: StyledPiece| (p.text@, p.bold, p.italic, p.strike, p.link, p.code))
}

/// Inline Markdown as styled pieces of the flattened text.
pub fn inline_runs(source: &str) -> (r: Vec<StyledPiece>)
    ensures
        pieces_view(r@) == pieces_of(md_events(source@, INLINE_OPTIONS)),
{
    let events = parser_events(source, INLINE_OPTIONS);
    let mut out: Vec<StyledPiece> = Vec::new();
    let (mut bold, mut italic, mut strike, mut link) = (false, false, false, false);
    let mut i: usize = 0;
    while i < events.len()
        invariant
            i <= events@.len(),
            pieces_view(out@) == pieces_of(events@.take(i as int)),
            (bold, italic, strike, link) == inline_style(events@.take(i as int)),
        decreases events@.len() - i,
    {
        assert(events@.take(i + 1).drop_last() =~= events@.take(i as int));
        assert(events@.take(i + 1).last() == events@[i as int]);
        let ghost before = pieces_view(out@);
        let (text, code): (Vec<char>, bool) = match &events[i].0 {
            MdEvent::StartStrong => {
                bold = true;
                (Vec::new(), false)
            },
            MdEvent::EndStrong => {
                bold = false;
                (Vec::new(), false)
            },
            MdEvent::StartEmphasis => {
                italic = true;
                (Vec::new(), false)
            },
            MdEvent::EndEmphasis => {
                italic = false;
                (Vec::new(), false)
            },
            MdEvent::StartStrikethrough => {
                strike = true;
                (Vec::new(), false)
            },
            MdEvent::EndStrikethrough => {
                strike = false;
                (Vec::new(), false)
            },
            MdEvent::StartLink(_) => {
                link = true;
                (Vec::new(), false)
            },
            MdEvent::EndLink => {
                link = false;
                (Vec::new(), false)
            },
            MdEvent::Text(t) => (chars_of(t.as_str()), false),
            MdEvent::Code(t) => {
                let mut c: Vec<char> = Vec::new();
                c.push(' ');
                append_chars(&mut c, &chars_of(t.as_str()));
                c.push(' ');
                assert(c@ =~= seq![' '] + t@ + seq![' ']);
                (c, true)
            },
            MdEvent::SoftBreak => (vec![' '], false),
            MdEvent::HardBreak => (vec!['\n'], false),
            _ => (Vec::new(), false),
        };
        assert(text@ =~= event_text(events@[i as int].0));
        assert(code == (events@[i as int].0 is Code));
        if text.len() > 0 {
            let ghost s = inline_style(events@.take(i as int));
            out.push(
                StyledPiece {
                    text: string_of(&text),
                    bold: bold && !code,
                    italic: italic && !code,
                    strike,
                    link,
                    code,
                },
            );
            assert(pieces_view(out@) =~= before.push(
                (text@, s.0 && !code, s.1 && !code, s.2, s.3, code),
            ));
        }
        i += 1;
    }
    assert(events@.take(events@.len() as int) =~= events@);
    out
}

} // verus!
