//! Search All Files: the query pattern, one hit per matching line, and the
//! bookkeeping that caps and batches results.
//!
//! Reading files and feeding their matching lines in is the caller's part;
//! the regex matcher is built and run here through `grep-regex`.
use std::sync::Arc;
use std::sync::atomic::{AtomicBool, Ordering};

use grep_matcher::Matcher;
use vstd::prelude::*;

use crate::text::{chars_of, string_of};

verus! {

/// One matching line.
#[derive(Clone, Debug)]
pub struct Hit {
    pub relative: String,
    pub absolute: String,
    pub line: u64,
    pub text: String,
    pub match_start: usize,
    pub match_end: usize,
}

/// A batch of results for one file, streamed as the search walks.
#[derive(Clone, Debug)]
pub struct Batch {
    pub relative: String,
    pub hits: Vec<Hit>,
}

/// Shared cancel flag. Replacing a query flips the previous search's token.
#[derive(Clone, Default)]
pub struct Cancel(Arc<AtomicBool>);

impl Cancel {
    /// A token that is not cancelled.
    pub fn new() -> Self {
        Cancel(Arc::new(AtomicBool::new(false)))
    }

    /// Marks the search as cancelled, for every clone of this token.
    pub fn cancel(&self) {
        self.0.store(true, Ordering::Relaxed);
    }

    /// Whether some clone of this token was cancelled; another thread may
    /// change the answer at any moment.
    pub fn is_cancelled(&self) -> bool {
        self.0.load(Ordering::Relaxed)
    }
}

/// Hard bound on matching lines per search.
pub const MAX_HITS: usize = 1000;

/// A file stops contributing hits once it has this many.
pub const FILE_HITS: usize = 200;

/// Characters a regex gives a meaning to.
pub open spec fn regex_special(c: char) -> bool {
    c == '\\' || c == '.' || c == '+' || c == '*' || c == '?' || c == '(' || c == ')' || c == '|'
        || c == '[' || c == ']' || c == '{' || c == '}' || c == '^' || c == '$'
}

/// `s` with a backslash before every regex-special character.
pub open spec fn escaped(s: Seq<char>) -> Seq<char>
    decreases s.len(),
{
    if s.len() == 0 {
        seq![]
    } else if regex_special(s.last()) {
        escaped(s.drop_last()) + seq!['\\', s.last()]
    } else {
        escaped(s.drop_last()).push(s.last())
    }
}

/// Escapes `input` so that a regex matches it literally.
pub fn regex_escape(input: &str) -> (r: String)
    ensures
        r@ == escaped(input@),
{
    let chars = chars_of(input);
    let mut out: Vec<char> = Vec::new();
    let mut i: usize = 0;
    while i < chars.len()
        invariant
            i <= chars@.len(),
            chars@ == input@,
            out@ == escaped(chars@.take(i as int)),
        decreases chars@.len() - i,
    {
        let c = chars[i];
        assert(chars@.take(i + 1).drop_last() =~= chars@.take(i as int));
        assert(chars@.take(i + 1).last() == c);
        if c == '\\' || c == '.' || c == '+' || c == '*' || c == '?' || c == '(' || c == ')' || c
            == '|' || c == '[' || c == ']' || c == '{' || c == '}' || c == '^' || c == '$' {
            out.push('\\');
        }
        out.push(c);
        assert(out@ =~= escaped(chars@.take(i + 1)));
        i += 1;
    }
    assert(chars@.take(chars@.len() as int) =~= chars@);
    string_of(&out)
}

/// The pattern searched for: the escaped query, between word boundaries
/// for a whole-word search.
pub open spec fn pattern_of(query: Seq<char>, whole_word: bool) -> Seq<char> {
    if whole_word {
        "\\b"@ + escaped(query) + "\\b"@
    } else {
        escaped(query)
    }
}

/// The regex a search runs.
pub fn search_pattern(query: &str, whole_word: bool) -> (r: String)
    ensures
        r@ == pattern_of(query@, whole_word),
{
    let e = regex_escape(query);
    if !whole_word {
        return e;
    }
    let mut out = chars_of("\\b");
    crate::text::append_chars(&mut out, &chars_of(e.as_str()));
    crate::text::append_chars(&mut out, &chars_of("\\b"));
    string_of(&out)
}

#[verifier::external_type_specification]
#[verifier::external_body]
pub struct ExRegexMatcher(grep_regex::RegexMatcher);

/// Whether `grep-regex` accepts a pattern with the given case setting.
pub uninterp spec fn regex_builds(pattern: Seq<char>, case_insensitive: bool) -> bool;

/// The byte range of the first match of a pattern in a line.
pub uninterp spec fn regex_first_match(
    pattern: Seq<char>,
    case_insensitive: bool,
    line: Seq<u8>,
) -> Option<(usize, usize)>;

/// A compiled search pattern.
pub struct SearchMatcher {
    pattern: String,
    case_insensitive: bool,
    regex: grep_regex::RegexMatcher,
}

impl SearchMatcher {
    pub closed spec fn pattern(&self) -> Seq<char> {
        self.pattern@
    }

    pub closed spec fn case_insensitive(&self) -> bool {
        self.case_insensitive
    }
}

/// Builds the matcher with `RegexMatcherBuilder::case_insensitive` and
/// `build`; whether the build succeeds is named `regex_builds`.
#[verifier::external_body]
fn build_regex(pattern: &str, case_insensitive: bool) -> (r: Option<grep_regex::RegexMatcher>)
    ensures
        r is Some == regex_builds(pattern@, case_insensitive),
{
    grep_regex::RegexMatcherBuilder::new().case_insensitive(case_insensitive).build(pattern).ok()
}

/// `Matcher::find` on one line: the first match's byte range, which the
/// crate keeps ordered and inside the line. The range is named
/// `regex_first_match`.
#[verifier::external_body]
fn first_match(m: &SearchMatcher, line: &[u8]) -> (r: Option<(usize, usize)>)
    ensures
        r == regex_first_match(m.pattern(), m.case_insensitive(), line@),
        r matches Some((s, e)) ==> s <= e <= line@.len(),
{
    m.regex.find(line).ok().flatten().map(|found| (found.start(), found.end()))
}

/// The matcher for a query; `None` for an empty query or a pattern the
/// regex engine refuses.
pub fn search_matcher(query: &str, case_sensitive: bool, whole_word: bool) -> (r: Option<
    SearchMatcher,
>)
    ensures
        query@.len() == 0 ==> r is None,
        query@.len() > 0 ==> (r is Some <==> regex_builds(
            pattern_of(query@, whole_word),
            !case_sensitive,
        )),
        r matches Some(m) ==> m.pattern() == pattern_of(query@, whole_word) && m.case_insensitive()
            == !case_sensitive,
{
    if chars_of(query).len() == 0 {
        return None;
    }
    let pattern = search_pattern(query, whole_word);
    match build_regex(pattern.as_str(), !case_sensitive) {
        Some(regex) => Some(SearchMatcher { pattern, case_insensitive: !case_sensitive, regex }),
        None => None,
    }
}

/// Decodes bytes as UTF-8, replacing invalid sequences
/// (`String::from_utf8_lossy`); the text is named `utf8_lossy`.
#[verifier::external_body]
fn lossy_text(bytes: &[u8]) -> (r: String)
    ensures
        r@ == utf8_lossy(bytes@),
{
    String::from_utf8_lossy(bytes).to_string()
}

/// The text `String::from_utf8_lossy` gives for some bytes.
pub uninterp spec fn utf8_lossy(bytes: Seq<u8>) -> Seq<char>;

/// `s` without its trailing newlines and carriage returns.
pub open spec fn without_line_end(s: Seq<char>) -> Seq<char>
    decreases s.len(),
{
    if s.len() > 0 && (s.last() == '\n' || s.last() == '\r') {
        without_line_end(s.drop_last())
    } else {
        s
    }
}

/// The hit for a matching line.
pub open spec fn hit_for(
    m: SearchMatcher,
    relative: Seq<char>,
    absolute: Seq<char>,
    line: Option<u64>,
    bytes: Seq<u8>,
    h: Hit,
) -> bool {
    &&& h.relative@ == relative
    &&& h.absolute@ == absolute
    &&& h.line == (match line {
        Some(n) => n,
        None => 0,
    })
    &&& h.text@ == without_line_end(utf8_lossy(bytes))
    &&& (h.match_start, h.match_end) == (match regex_first_match(
        m.pattern(),
        m.case_insensitive(),
        bytes,
    ) {
        Some(span) => span,
        None => (0usize, 0usize),
    })
}

/// Records one matching line of a file (its number, when known, and its
/// bytes). Returns whether the file may report more: a file stops at
/// `FILE_HITS` hits.
pub fn record_match(
    hits: &mut Vec<Hit>,
    m: &SearchMatcher,
    relative: &str,
    absolute: &str,
    line: Option<u64>,
    bytes: &[u8],
) -> (more: bool)
    ensures
        final(hits)@.len() == old(hits)@.len() + 1,
        final(hits)@.drop_last() == old(hits)@,
        hit_for(*m, relative@, absolute@, line, bytes@, final(hits)@.last()),
        more == (final(hits)@.len() < FILE_HITS),
{
    let text = lossy_text(bytes);
    let mut chars = chars_of(text.as_str());
    while chars.len() > 0 && (chars[chars.len() - 1] == '\n' || chars[chars.len() - 1] == '\r')
        invariant
            without_line_end(chars@) == without_line_end(utf8_lossy(bytes@)),
        decreases chars@.len(),
    {
        chars.pop();
    }
    let (start, end) = match first_match(m, bytes) {
        Some(span) => span,
        None => (0, 0),
    };
    let line_no = match line {
        Some(n) => n,
        None => 0,
    };
    hits.push(
        Hit {
            relative: relative.to_string(),
            absolute: absolute.to_string(),
            line: line_no,
            text: string_of(&chars),
            match_start: start,
            match_end: end,
        },
    );
    assert(hits@.drop_last() =~= old(hits)@);
    hits.len() < FILE_HITS
}

/// Progress of one search over the file list.
pub struct SearchRun {
    pub total: usize,
}

impl SearchRun {
    /// A search that has found nothing yet.
    pub fn new() -> (r: SearchRun)
        ensures
            r.total == 0,
    {
        SearchRun { total: 0 }
    }

    /// Whether the next file is searched: not after a cancel, and not once
    /// `MAX_HITS` lines have been found.
    pub fn wants_file(&self, cancelled: bool) -> (r: bool)
        ensures
            r == (!cancelled && self.total < MAX_HITS),
    {
        !cancelled && self.total < MAX_HITS
    }

    /// Takes the hits of one searched file, keeping no more than the
    /// search still has room for under `MAX_HITS`; a file with hits kept
    /// becomes a batch.
    pub fn file_done(&mut self, relative: &str, hits: Vec<Hit>) -> (r: Option<Batch>)
        requires
            old(self).total < MAX_HITS,
        ensures
            final(self).total == old(self).total + kept_hits(old(self).total, hits@.len()),
            final(self).total <= MAX_HITS,
            kept_hits(old(self).total, hits@.len()) == 0 ==> r is None,
            kept_hits(old(self).total, hits@.len()) > 0 ==> (r matches Some(b) && b.relative@
                == relative@ && b.hits@ == hits@.take(kept_hits(old(self).total, hits@.len()) as int)),
    {
        let room = MAX_HITS - self.total;
        let mut hits = hits;
        if hits.len() > room {
            hits.truncate(room);
        }
        if hits.len() == 0 {
            return None;
        }
        self.total = self.total + hits.len();
        Some(Batch { relative: relative.to_string(), hits })
    }
}

/// How many of a file's `n` hits a search that has found `total` keeps:
/// as many as fit under `MAX_HITS`.
pub open spec fn kept_hits(total: usize, n: nat) -> nat {
    if n <= MAX_HITS - total {
        n
    } else {
        (MAX_HITS - total) as nat
    }
}

} // verus!
