//! Terminal find and plain-text link detection over rendered grid lines.
use vstd::prelude::*;

use crate::text::{
    byte_offset, byte_offsets, chars_before, chars_of, contains_char, count_chars_before,
    is_uppercase, is_whitespace, occurs_at, lowercase, slice_chars, starts_with, string_of, to_lowercase,
    uppercase_char, whitespace,
};

verus! {

/// One literal match on one grid line, in character columns.
#[derive(Clone, Copy, Debug, PartialEq, Eq)]
pub struct GridMatch {
    pub line: i32,
    pub start: usize,
    pub end: usize,
}

/// A link target found under a cell.
#[derive(Clone, Debug, PartialEq, Eq)]
pub enum PlainLink {
    Url(String),
    Path(String),
}

/// A link target and the character columns it covers.
#[derive(Clone, Debug, PartialEq, Eq)]
pub struct PlainLinkMatch {
    pub start: usize,
    pub end: usize,
    pub target: PlainLink,
}

/// Start indices of the non-overlapping occurrences of `n` in `h`, scanning
/// left to right from `i` (the occurrences `str::match_indices` reports).
pub open spec fn match_starts(h: Seq<char>, n: Seq<char>, i: int) -> Seq<int>
    decreases h.len() - i,
{
    if n.len() == 0 || i < 0 || i + n.len() > h.len() {
        seq![]
    } else if h.subrange(i, i + n.len()) == n {
        seq![i] + match_starts(h, n, i + n.len())
    } else {
        match_starts(h, n, i + 1)
    }
}

/// A query with an uppercase character is matched case-sensitively.
pub open spec fn case_sensitive(query: Seq<char>) -> bool {
    exists|k: int| 0 <= k < query.len() && uppercase_char(#[trigger] query[k])
}

/// What a line is searched as: itself, or lowercased for a caseless query.
pub open spec fn folded(s: Seq<char>, sensitive: bool) -> Seq<char> {
    if sensitive {
        s
    } else {
        lowercase(s)
    }
}

/// The matches of `needle` in one line. Offsets found in the searched
/// (possibly lowercased) text are taken as byte offsets into the line and
/// reported as the number of characters starting before them.
pub open spec fn line_matches(line: i32, text: Seq<char>, hay: Seq<char>, needle: Seq<char>) -> Seq<
    GridMatch,
> {
    match_starts(hay, needle, 0).map_values(
        |s: int|
            GridMatch {
                line,
                start: chars_before(text, byte_offset(hay, s) as int) as usize,
                end: chars_before(text, byte_offset(hay, s + needle.len()) as int) as usize,
            },
    )
}

/// Matches over every line, in line order.
pub open spec fn all_matches(lines: Seq<(i32, Seq<char>)>, needle: Seq<char>, sensitive: bool) -> Seq<
    GridMatch,
>
    decreases lines.len(),
{
    if lines.len() == 0 {
        seq![]
    } else {
        let last = lines.last();
        all_matches(lines.drop_last(), needle, sensitive) + line_matches(
            last.0,
            last.1,
            folded(last.1, sensitive),
            needle,
        )
    }
}

pub open spec fn lines_view(lines: Seq<(i32, String)>) -> Seq<(i32, Seq<char>)> {
    lines.map_values(|p: (i32, String)| (p.0, p.1@))
}

pub open spec fn as_ints(s: Seq<usize>) -> Seq<int> {
    s.map_values(|x: usize| x as int)
}

proof fn lemma_match_starts_bounds(h: Seq<char>, n: Seq<char>, i: int)
    requires
        0 <= i,
    ensures
        forall|k: int|
            0 <= k < match_starts(h, n, i).len() ==> i <= #[trigger] match_starts(h, n, i)[k]
                && match_starts(h, n, i)[k] + n.len() <= h.len(),
    decreases h.len() - i,
{
    if n.len() == 0 || i + n.len() > h.len() {
    } else if h.subrange(i, i + n.len()) == n {
        lemma_match_starts_bounds(h, n, i + n.len());
        let rest = match_starts(h, n, i + n.len());
        let all = match_starts(h, n, i);
        assert(all == seq![i] + rest);
        assert forall|k: int| 0 <= k < all.len() implies i <= #[trigger] all[k] && all[k] + n.len()
            <= h.len() by {
            if k > 0 {
                assert(all[k] == rest[k - 1]);
            }
        }
    } else {
        lemma_match_starts_bounds(h, n, i + 1);
        assert(match_starts(h, n, i) == match_starts(h, n, i + 1));
    }
}

/// Start indices of the non-overlapping occurrences of `n` in `h`.
pub fn find_starts(h: &[char], n: &[char]) -> (r: Vec<usize>)
    requires
        n@.len() > 0,
    ensures
        as_ints(r@) == match_starts(h@, n@, 0),
{
    let mut out: Vec<usize> = Vec::new();
    let mut i: usize = 0;
    while i <= h.len() && n.len() <= h.len() - i
        invariant
            n@.len() > 0,
            i <= h@.len(),
            match_starts(h@, n@, 0) == as_ints(out@) + match_starts(h@, n@, i as int),
        decreases h@.len() - i,
    {
        if occurs_at(h, n, i) {
            proof {
                assert(as_ints(out@.push(i)) =~= as_ints(out@) + seq![i as int]);
                assert(as_ints(out@) + (seq![i as int] + match_starts(h@, n@, i + n@.len())) =~= (
                as_ints(out@) + seq![i as int]) + match_starts(h@, n@, i + n@.len()));
            }
            out.push(i);
            i = i + n.len();
        } else {
            i = i + 1;
        }
    }
    assert(match_starts(h@, n@, i as int) =~= seq![]);
    assert(as_ints(out@) + seq![] =~= as_ints(out@));
    out
}

/// Finds literal matches of `query` on every line. A query containing an
/// uppercase character is case-sensitive; otherwise both sides are lowercased.
pub fn find_in_lines(lines: &[(i32, String)], query: &str) -> (r: Vec<GridMatch>)
    ensures
        query@.len() == 0 ==> r@ == Seq::<GridMatch>::empty(),
        query@.len() > 0 ==> r@ == all_matches(
            lines_view(lines@),
            folded(query@, case_sensitive(query@)),
            case_sensitive(query@),
        ),
{
    let q = chars_of(query);
    if q.len() == 0 {
        return Vec::new();
    }
    let mut sensitive = false;
    let mut k: usize = 0;
    while k < q.len()
        invariant
            k <= q@.len(),
            q@ == query@,
            sensitive == exists|j: int| 0 <= j < k && uppercase_char(#[trigger] q@[j]),
        decreases q@.len() - k,
    {
        if is_uppercase(q[k]) {
            sensitive = true;
        }
        k += 1;
    }
    let needle = if sensitive {
        q
    } else {
        to_lowercase(&q)
    };
    let ghost needle_view = needle@;
    let ghost lv = lines_view(lines@);
    if needle.len() == 0 {
        // An empty needle matches nowhere.
        let mut i: usize = 0;
        while i < lines.len()
            invariant
                i <= lines@.len(),
                lv == lines_view(lines@),
                needle_view.len() == 0,
                all_matches(lv.take(i as int), needle_view, sensitive) =~= seq![],
            decreases lines@.len() - i,
        {
            proof {
                assert(lv.take(i + 1).drop_last() == lv.take(i as int));
                let last = lv.take(i + 1).last();
                assert(match_starts(folded(last.1, sensitive), needle_view, 0) =~= seq![]);
            }
            i += 1;
        }
        assert(lv.take(lines@.len() as int) == lv);
        return Vec::new();
    }
    let mut matches: Vec<GridMatch> = Vec::new();
    let mut i: usize = 0;
    while i < lines.len()
        invariant
            i <= lines@.len(),
            lv == lines_view(lines@),
            needle@ == needle_view,
            needle_view.len() > 0,
            matches@ == all_matches(lv.take(i as int), needle_view, sensitive),
        decreases lines@.len() - i,
    {
        let text = chars_of(lines[i].1.as_str());
        let hay = if sensitive {
            text.clone()
        } else {
            to_lowercase(&text)
        };
        let ghost hv = hay@;
        assert(hv == folded(text@, sensitive));
        let starts = find_starts(&hay, &needle);
        let offsets = byte_offsets(&hay);
        proof {
            lemma_match_starts_bounds(hv, needle_view, 0);
        }
        let ghost before = matches@;
        let ghost expected = line_matches(lines[i as int].0, text@, hv, needle_view);
        let mut j: usize = 0;
        let hay_len = hay.len();
        while j < starts.len()
            invariant
                i < lines@.len(),
                hay_len == hv.len(),
                j <= starts@.len(),
                as_ints(starts@) == match_starts(hv, needle_view, 0),
                offsets@.len() == hv.len() + 1,
                forall|k: int| 0 <= k <= hv.len() ==> offsets@[k] == byte_offset(hv, k),
                forall|k: int|
                    0 <= k < match_starts(hv, needle_view, 0).len() ==> 0 <= #[trigger] match_starts(
                        hv,
                        needle_view,
                        0,
                    )[k] && match_starts(hv, needle_view, 0)[k] + needle_view.len() <= hv.len(),
                needle@ == needle_view,
                hay@ == hv,
                expected == line_matches(lines@[i as int].0, text@, hv, needle_view),
                matches@ == before + expected.take(j as int),
            decreases starts@.len() - j,
        {
            let s = starts[j];
            assert(as_ints(starts@)[j as int] == s as int);
            let e = s + needle.len();
            let start_col = count_chars_before(&text, offsets[s]);
            let end_col = count_chars_before(&text, offsets[e]);
            let m = GridMatch { line: lines[i].0, start: start_col, end: end_col };
            assert(expected[j as int] == m);
            assert(expected.take(j + 1) == expected.take(j as int).push(m));
            matches.push(m);
            j += 1;
        }
        proof {
            assert(expected.take(starts@.len() as int) == expected);
            assert(lv.take(i + 1).drop_last() == lv.take(i as int));
            assert(lv.take(i + 1).last() == (lines@[i as int].0, text@));
        }
        i += 1;
    }
    assert(lv.take(lines@.len() as int) == lv);
    matches
}

/// Characters that open a bracketed or quoted token.
pub open spec fn opener(c: char) -> bool {
    c == '(' || c == '[' || c == '{' || c == '<' || c == '"' || c == '\''
}

/// Characters that close a token or end a sentence around it.
pub open spec fn closer(c: char) -> bool {
    c == ')' || c == ']' || c == '}' || c == '>' || c == '"' || c == '\'' || c == ',' || c == '.'
        || c == ';'
}

/// Walks left from `start` over non-whitespace.
pub open spec fn scan_left(c: Seq<char>, start: int) -> int
    decreases start,
{
    if start > 0 && start <= c.len() && !whitespace(c[start - 1]) {
        scan_left(c, start - 1)
    } else {
        start
    }
}

/// Walks right from `end` over non-whitespace.
pub open spec fn scan_right(c: Seq<char>, end: int) -> int
    decreases c.len() - end,
{
    if 0 <= end < c.len() && !whitespace(c[end]) {
        scan_right(c, end + 1)
    } else {
        end
    }
}

/// Drops opening punctuation from the front of `[start, end)`.
pub open spec fn trim_openers(c: Seq<char>, start: int, end: int) -> int
    decreases end - start,
{
    if 0 <= start < end && start < c.len() && opener(c[start]) {
        trim_openers(c, start + 1, end)
    } else {
        start
    }
}

/// Drops closing punctuation from the back of `[start, end)`.
pub open spec fn trim_closers(c: Seq<char>, start: int, end: int) -> int
    decreases end - start,
{
    if start < end && 0 < end <= c.len() && closer(c[end - 1]) {
        trim_closers(c, start, end - 1)
    } else {
        end
    }
}

pub open spec fn http_prefix() -> Seq<char> {
    seq!['h', 't', 't', 'p', ':', '/', '/']
}

pub open spec fn https_prefix() -> Seq<char> {
    seq!['h', 't', 't', 'p', 's', ':', '/', '/']
}

pub open spec fn is_url(t: Seq<char>) -> bool {
    https_prefix().is_prefix_of(t) || http_prefix().is_prefix_of(t)
}

/// `./`, `../`, `/` and `~` prefixes, or any `/` inside the token.
pub open spec fn is_path(t: Seq<char>) -> bool {
    ||| seq!['.', '/'].is_prefix_of(t)
    ||| seq!['.', '.', '/'].is_prefix_of(t)
    ||| seq!['/'].is_prefix_of(t)
    ||| seq!['~'].is_prefix_of(t)
    ||| t.contains('/')
}

/// The token bounds around `column`: the whitespace-delimited run, with
/// leading openers and then trailing closers removed.
pub open spec fn token_bounds(c: Seq<char>, column: int) -> (int, int) {
    let s0 = scan_left(c, column);
    let e0 = scan_right(c, column + 1);
    let s = trim_openers(c, s0, e0);
    let e = trim_closers(c, s, e0);
    (s, e)
}

/// Whether a link is found at `column`.
pub open spec fn link_found(c: Seq<char>, column: int) -> bool {
    let (s, e) = token_bounds(c, column);
    &&& column < c.len()
    &&& !whitespace(c[column])
    &&& s <= column < e
    &&& (is_url(c.subrange(s, e)) || is_path(c.subrange(s, e)))
}

proof fn lemma_scan_left(c: Seq<char>, start: int)
    requires
        0 <= start <= c.len(),
    ensures
        0 <= scan_left(c, start) <= start,
    decreases start,
{
    if start > 0 && !whitespace(c[start - 1]) {
        lemma_scan_left(c, start - 1);
    }
}

proof fn lemma_scan_right(c: Seq<char>, end: int)
    requires
        0 <= end <= c.len(),
    ensures
        end <= scan_right(c, end) <= c.len(),
    decreases c.len() - end,
{
    if end < c.len() && !whitespace(c[end]) {
        lemma_scan_right(c, end + 1);
    }
}

proof fn lemma_trim_openers(c: Seq<char>, start: int, end: int)
    requires
        0 <= start <= end <= c.len(),
    ensures
        start <= trim_openers(c, start, end) <= end,
    decreases end - start,
{
    if start < end && opener(c[start]) {
        lemma_trim_openers(c, start + 1, end);
    }
}

proof fn lemma_trim_closers(c: Seq<char>, start: int, end: int)
    requires
        0 <= start <= end <= c.len(),
    ensures
        start <= trim_closers(c, start, end) <= end,
    decreases end - start,
{
    if start < end && closer(c[end - 1]) {
        lemma_trim_closers(c, start, end - 1);
    }
}

fn is_opener(c: char) -> (r: bool)
    ensures
        r == opener(c),
{
    c == '(' || c == '[' || c == '{' || c == '<' || c == '"' || c == '\''
}

fn is_closer(c: char) -> (r: bool)
    ensures
        r == closer(c),
{
    c == ')' || c == ']' || c == '}' || c == '>' || c == '"' || c == '\'' || c == ',' || c == '.'
        || c == ';'
}

/// Finds the URL or path token under one terminal cell.
pub fn plain_link_at(text: &str, column: usize) -> (r: Option<PlainLinkMatch>)
    ensures
        r is Some <==> link_found(text@, column as int),
        r matches Some(m) ==> {
            let (s, e) = token_bounds(text@, column as int);
            &&& m.start == s
            &&& m.end == e
            &&& match m.target {
                PlainLink::Url(t) => t@ == text@.subrange(s, e) && is_url(t@),
                PlainLink::Path(t) => t@ == text@.subrange(s, e) && !is_url(t@) && is_path(t@),
            }
        },
{
    let chars = chars_of(text);
    let ghost c = chars@;
    if column >= chars.len() || is_whitespace(chars[column]) {
        return None;
    }
    let mut start = column;
    proof {
        lemma_scan_left(c, column as int);
    }
    while start > 0 && !is_whitespace(chars[start - 1])
        invariant
            start <= column < c.len(),
            chars@ == c,
            scan_left(c, start as int) == scan_left(c, column as int),
        decreases start,
    {
        start -= 1;
    }
    let mut end = column + 1;
    proof {
        lemma_scan_right(c, column + 1);
    }
    while end < chars.len() && !is_whitespace(chars[end])
        invariant
            column < end <= c.len(),
            chars@ == c,
            scan_right(c, end as int) == scan_right(c, column + 1),
        decreases c.len() - end,
    {
        end += 1;
    }
    let ghost e0 = end as int;
    while start < end && is_opener(chars[start])
        invariant
            start <= end <= c.len(),
            chars@ == c,
            trim_openers(c, start as int, e0) == trim_openers(c, scan_left(c, column as int), e0),
            end == e0,
        decreases end - start,
    {
        start += 1;
    }
    while start < end && is_closer(chars[end - 1])
        invariant
            start <= end <= c.len(),
            chars@ == c,
            trim_closers(c, start as int, end as int) == trim_closers(c, start as int, e0),
        decreases end - start,
    {
        end -= 1;
    }
    assert(token_bounds(c, column as int) == (start as int, end as int));
    if column < start || column >= end {
        return None;
    }
    let token = slice_chars(&chars, start, end);
    let https: Vec<char> = vec!['h', 't', 't', 'p', 's', ':', '/', '/'];
    let http: Vec<char> = vec!['h', 't', 't', 'p', ':', '/', '/'];
    assert(https@ == https_prefix());
    assert(http@ == http_prefix());
    if starts_with(&token, &https) || starts_with(&token, &http) {
        return Some(
            PlainLinkMatch { start, end, target: PlainLink::Url(string_of(&token)) },
        );
    }
    let dot_slash: Vec<char> = vec!['.', '/'];
    let dot_dot_slash: Vec<char> = vec!['.', '.', '/'];
    let slash: Vec<char> = vec!['/'];
    let tilde: Vec<char> = vec!['~'];
    assert(dot_slash@ == seq!['.', '/']);
    assert(dot_dot_slash@ == seq!['.', '.', '/']);
    assert(slash@ == seq!['/']);
    assert(tilde@ == seq!['~']);
    if starts_with(&token, &dot_slash) || starts_with(&token, &dot_dot_slash) || starts_with(
        &token,
        &slash,
    ) || starts_with(&token, &tilde) || contains_char(&token, '/') {
        Some(PlainLinkMatch { start, end, target: PlainLink::Path(string_of(&token)) })
    } else {
        None
    }
}

} // verus!
