//! The Git diff surface's model: rows of a parsed diff laid out as lines
//! with real line numbers, each side's pseudo-document for syntax colours,
//! and the word-level emphasis that pairs a deleted line with the added
//! line that replaced it.
use vstd::prelude::*;

use crate::markdown::join_with;
use crate::text::{
    append_chars, byte_len, byte_length, chars_eq, chars_of, lemma_byte_len_concat, string_of,
};

verus! {

/// A line longer than this many bytes gets no word emphasis.
pub const WORD_DIFF_LIMIT: u128 = 2000;

/// `p` is the length of the longest common prefix of `a` and `b`.
pub open spec fn is_shared_prefix(a: Seq<char>, b: Seq<char>, p: int) -> bool {
    &&& 0 <= p <= a.len()
    &&& p <= b.len()
    &&& forall|i: int| 0 <= i < p ==> a[i] == b[i]
    &&& (p == a.len() || p == b.len() || a[p] != b[p])
}

/// Character `i` of `t`, counted from the end.
pub open spec fn from_end(t: Seq<char>, i: int) -> char {
    t[t.len() - 1 - i]
}

/// `s` is the length of the longest common suffix of `a` and `b` that does
/// not reach into their first `p` characters.
pub open spec fn is_shared_suffix(a: Seq<char>, b: Seq<char>, p: int, s: int) -> bool {
    &&& 0 <= s <= a.len() - p
    &&& s <= b.len() - p
    &&& forall|i: int| 0 <= i < s ==> #[trigger] from_end(a, i) == from_end(b, i)
    &&& (s == a.len() - p || s == b.len() - p || from_end(a, s) != from_end(b, s))
}

/// The bytes of `t` between its first `p` characters and its last `s`,
/// when that span is not empty.
pub open spec fn changed_span(t: Seq<char>, p: int, s: int) -> Option<(usize, usize)> {
    let start = byte_len(t.take(p));
    let end = byte_len(t.take(t.len() - s));
    if start < end {
        Some((start as usize, end as usize))
    } else {
        None
    }
}

/// Whether two lines are too long for word emphasis, or the same.
pub open spec fn word_diff_skipped(a: Seq<char>, b: Seq<char>) -> bool {
    a == b || byte_len(a) > WORD_DIFF_LIMIT || byte_len(b) > WORD_DIFF_LIMIT
}

/// The byte range an optional `Range` holds.
pub open spec fn span_of(r: Option<std::ops::Range<usize>>) -> Option<(usize, usize)> {
    match r {
        Some(x) => Some((x.start, x.end)),
        None => None,
    }
}

/// The differing span of each of two lines: none when they are equal or
/// either is over `WORD_DIFF_LIMIT` bytes, else what lies between their
/// shared prefix and their shared suffix.
pub open spec fn word_spans(a: Seq<char>, b: Seq<char>) -> (Option<(usize, usize)>, Option<(usize, usize)>) {
    if word_diff_skipped(a, b) {
        (None, None)
    } else {
        let (p, s) = choose|p: int, s: int| is_shared_prefix(a, b, p) && is_shared_suffix(a, b, p, s);
        (changed_span(a, p, s), changed_span(b, p, s))
    }
}

/// The shared prefix and suffix lengths are unique.
proof fn lemma_shared_unique(a: Seq<char>, b: Seq<char>, p: int, s: int, q: int, t: int)
    requires
        is_shared_prefix(a, b, p),
        is_shared_suffix(a, b, p, s),
        is_shared_prefix(a, b, q),
        is_shared_suffix(a, b, q, t),
    ensures
        p == q,
        s == t,
{
    if p < q {
        assert(a[p] == b[p]);
    } else if q < p {
        assert(a[q] == b[q]);
    }
    if s < t {
        assert(from_end(a, s) == from_end(b, s));
    } else if t < s {
        assert(from_end(a, t) == from_end(b, t));
    }
}

fn span_range(s: Option<(usize, usize)>) -> (r: Option<std::ops::Range<usize>>)
    ensures
        match s {
            Some((a, b)) => r matches Some(x) && x.start == a && x.end == b,
            None => r is None,
        },
{
    match s {
        Some((a, b)) => Some(a..b),
        None => None,
    }
}

/// Byte length of the first `n` characters of `t`.
fn prefix_bytes(t: &Vec<char>, n: usize) -> (r: u128)
    requires
        n <= t@.len(),
    ensures
        r == byte_len(t@.take(n as int)),
{
    let mut out: Vec<char> = Vec::new();
    let mut i: usize = 0;
    while i < n
        invariant
            i <= n,
            n <= t@.len(),
            out@ == t@.take(i as int),
        decreases n - i,
    {
        out.push(t[i]);
        assert(t@.take(i + 1) =~= t@.take(i as int).push(t@[i as int]));
        i += 1;
    }
    byte_length(&out)
}

/// The single differing span between two lines, after trimming their
/// shared prefix and suffix: a byte range in each line, `None` on a side
/// where nothing differs. Equal lines and lines over `WORD_DIFF_LIMIT`
/// bytes get none.
pub fn word_diff(a: &str, b: &str) -> (r: (Option<std::ops::Range<usize>>, Option<std::ops::Range<usize>>))
    ensures
        span_of(r.0) == word_spans(a@, b@).0,
        span_of(r.1) == word_spans(a@, b@).1,
{
    let ac = chars_of(a);
    let bc = chars_of(b);
    if chars_eq(&ac, &bc) {
        return (None, None);
    }
    let la = byte_length(&ac);
    let lb = byte_length(&bc);
    if la > WORD_DIFF_LIMIT || lb > WORD_DIFF_LIMIT {
        return (None, None);
    }
    let na = ac.len();
    let nb = bc.len();
    let mut p: usize = 0;
    while p < na && p < nb && ac[p] == bc[p]
        invariant
            na == ac@.len(),
            nb == bc@.len(),
            p <= na,
            p <= nb,
            forall|i: int| 0 <= i < p ==> ac@[i] == bc@[i],
        decreases na - p,
    {
        p += 1;
    }
    let mut s: usize = 0;
    while s < na - p && s < nb - p && ac[na - 1 - s] == bc[nb - 1 - s]
        invariant
            na == ac@.len(),
            nb == bc@.len(),
            p <= na,
            p <= nb,
            s <= na - p,
            s <= nb - p,
            forall|i: int| 0 <= i < s ==> #[trigger] from_end(ac@, i) == from_end(bc@, i),
        decreases na - p - s,
    {
        s += 1;
    }
    let start_a = prefix_bytes(&ac, p);
    let end_a = prefix_bytes(&ac, na - s);
    let start_b = prefix_bytes(&bc, p);
    let end_b = prefix_bytes(&bc, nb - s);
    proof {
        lemma_prefix_bytes_bounded(ac@, (na - s) as int);
        lemma_prefix_bytes_bounded(bc@, (nb - s) as int);
        assert(is_shared_prefix(a@, b@, p as int));
        assert(is_shared_suffix(a@, b@, p as int, s as int));
        let (q, t) = choose|q: int, t: int| is_shared_prefix(a@, b@, q) && is_shared_suffix(a@, b@, q, t);
        lemma_shared_unique(a@, b@, p as int, s as int, q, t);
    }
    let old = if start_a < end_a {
        span_range(Some((start_a as usize, end_a as usize)))
    } else {
        None
    };
    let new = if start_b < end_b {
        span_range(Some((start_b as usize, end_b as usize)))
    } else {
        None
    };
    (old, new)
}

/// A prefix is no longer in bytes than the whole.
proof fn lemma_prefix_bytes_bounded(t: Seq<char>, n: int)
    requires
        0 <= n <= t.len(),
    ensures
        byte_len(t.take(n)) <= byte_len(t),
{
    lemma_byte_len_concat(t.take(n), t.skip(n));
    assert(t.take(n) + t.skip(n) =~= t);
}


/// One row of a parsed unified diff.
#[derive(Clone, Debug, PartialEq, Eq)]
pub enum DiffRow {
    /// A hunk header: its `-a,b +c,d` range and the context after it.
    Hunk { range: String, context: String },
    /// A line on both sides, with its number on each.
    Ctx { old: u32, new: u32, text: String },
    /// An added line, with its number in the new file.
    Add { new: u32, text: String },
    /// A deleted line, with its number in the old file.
    Del { old: u32, text: String },
}

/// What a diff line shows.
#[derive(Clone, Copy, Debug, PartialEq, Eq, Structural)]
pub enum DiffKind {
    Add,
    Del,
    Ctx,
    Hunk,
}

/// Which pseudo-document a line's syntax colours are read from.
#[derive(Clone, Copy, Debug, PartialEq, Eq, Structural)]
pub enum DiffSide {
    New,
    Old,
    /// A hunk header, coloured from neither side.
    Neither,
}

/// One rendered diff line: its real line numbers, its kind, the side and
/// line of the pseudo-document it is coloured from, its text without the
/// diff sign, and the byte ranges that changed against its paired line.
#[derive(Debug)]
pub struct DiffLine {
    pub old: Option<u32>,
    pub new: Option<u32>,
    pub kind: DiffKind,
    pub side: DiffSide,
    pub doc_line: usize,
    pub text: String,
    pub word: Vec<std::ops::Range<usize>>,
}

pub struct DiffLineView {
    pub old: Option<u32>,
    pub new: Option<u32>,
    pub kind: DiffKind,
    pub side: DiffSide,
    pub doc_line: usize,
    pub text: Seq<char>,
    pub word: Seq<(usize, usize)>,
}

pub open spec fn spans_view(v: Seq<std::ops::Range<usize>>) -> Seq<(usize, usize)> {
    v.map_values(|r: std::ops::Range<usize>| (r.start, r.end))
}

impl View for DiffLine {
    type V = DiffLineView;

    open spec fn view(&self) -> DiffLineView {
        DiffLineView {
            old: self.old,
            new: self.new,
            kind: self.kind,
            side: self.side,
            doc_line: self.doc_line,
            text: self.text@,
            word: spans_view(self.word@),
        }
    }
}

pub open spec fn lines_view(v: Seq<DiffLine>) -> Seq<DiffLineView> {
    v.map_values(|l: DiffLine| l@)
}

pub open spec fn kinds_of(v: Seq<DiffLineView>) -> Seq<DiffKind> {
    v.map_values(|l: DiffLineView| l.kind)
}

/// Start of the run of `kind` lines that ends just before `k`.
pub open spec fn run_start(ks: Seq<DiffKind>, k: int, kind: DiffKind) -> int
    decreases k,
{
    if k > 0 && k <= ks.len() && ks[k - 1] == kind {
        run_start(ks, k - 1, kind)
    } else {
        k
    }
}

/// End of the run of `kind` lines that starts at `k`.
pub open spec fn run_end(ks: Seq<DiffKind>, k: int, kind: DiffKind) -> int
    decreases ks.len() - k,
{
    if 0 <= k < ks.len() && ks[k] == kind {
        run_end(ks, k + 1, kind)
    } else {
        k
    }
}

/// The line a line is paired with for word emphasis. A run of deleted
/// lines followed at once by a run of added lines pairs them in order,
/// as far as the shorter run reaches.
pub open spec fn word_partner(ks: Seq<DiffKind>, k: int) -> Option<int> {
    if ks[k] == DiffKind::Del {
        let ds = run_start(ks, k, DiffKind::Del);
        let de = run_end(ks, k, DiffKind::Del);
        let ae = run_end(ks, de, DiffKind::Add);
        if k - ds < ae - de {
            Some(de + (k - ds))
        } else {
            None
        }
    } else if ks[k] == DiffKind::Add {
        let a = run_start(ks, k, DiffKind::Add);
        let ds = run_start(ks, a, DiffKind::Del);
        if k - a < a - ds {
            Some(ds + (k - a))
        } else {
            None
        }
    } else {
        None
    }
}

pub open spec fn opt_seq(o: Option<(usize, usize)>) -> Seq<(usize, usize)> {
    match o {
        Some(x) => seq![x],
        None => seq![],
    }
}

/// The emphasis word diffing adds to line `k`: the changed span of a
/// deleted line against its partner, or of an added line against its.
pub open spec fn word_extra(ls: Seq<DiffLineView>, k: int) -> Seq<(usize, usize)> {
    match word_partner(kinds_of(ls), k) {
        None => seq![],
        Some(j) => if ls[k].kind == DiffKind::Del {
            opt_seq(word_spans(ls[k].text, ls[j].text).0)
        } else {
            opt_seq(word_spans(ls[j].text, ls[k].text).1)
        },
    }
}

/// `after` is `before` with word diffing applied.
pub open spec fn word_diffed(before: Seq<DiffLineView>, after: Seq<DiffLineView>) -> bool {
    &&& after.len() == before.len()
    &&& forall|k: int|
        0 <= k < before.len() ==> #[trigger] after[k] == (DiffLineView {
            word: before[k].word + word_extra(before, k),
            ..before[k]
        })
}

proof fn lemma_run_start(ks: Seq<DiffKind>, a: int, m: int, kind: DiffKind)
    requires
        0 <= a <= m <= ks.len(),
        a == 0 || ks[a - 1] != kind,
        forall|x: int| a <= x < m ==> ks[x] == kind,
    ensures
        run_start(ks, m, kind) == a,
    decreases m - a,
{
    if m > a {
        lemma_run_start(ks, a, m - 1, kind);
    }
}

proof fn lemma_run_end(ks: Seq<DiffKind>, m: int, b: int, kind: DiffKind)
    requires
        0 <= m <= b <= ks.len(),
        b == ks.len() || ks[b] != kind,
        forall|x: int| m <= x < b ==> ks[x] == kind,
    ensures
        run_end(ks, m, kind) == b,
    decreases b - m,
{
    if m < b {
        lemma_run_end(ks, m + 1, b, kind);
    }
}


/// Appends a span to the word emphasis of line `k`.
fn push_word(lines: &mut Vec<DiffLine>, k: usize, span: Option<std::ops::Range<usize>>)
    requires
        k < old(lines)@.len(),
    ensures
        final(lines)@.len() == old(lines)@.len(),
        forall|x: int| 0 <= x < old(lines)@.len() && x != k ==> #[trigger] final(lines)@[x]@ == old(lines)@[x]@,
        final(lines)@[k as int]@ == (DiffLineView {
            word: old(lines)@[k as int]@.word + opt_seq(span_of(span)),
            ..old(lines)@[k as int]@
        }),
{
    if let Some(r) = span {
        let ghost before = lines@[k as int]@;
        lines[k].word.push(r);
        assert(spans_view(lines@[k as int].word@) =~= before.word + opt_seq(span_of(span)));
    } else {
        assert(lines@[k as int]@.word =~= lines@[k as int]@.word + opt_seq(span_of(span)));
    }
}


/// The state of line `k` once word diffing is done.
pub open spec fn diffed_line(before: Seq<DiffLineView>, k: int) -> DiffLineView {
    DiffLineView { word: before[k].word + word_extra(before, k), ..before[k] }
}

/// Pairs each run of deleted lines with the run of added lines right after
/// it and records each pair's changed spans, so that a within-line edit is
/// emphasised instead of the whole line.
pub fn compute_word_diff(lines: &mut Vec<DiffLine>)
    ensures
        word_diffed(lines_view(old(lines)@), lines_view(final(lines)@)),
{
    let ghost before = lines_view(lines@);
    let ghost ks = kinds_of(before);
    let n = lines.len();
    let mut i: usize = 0;
    while i < n
        invariant
            n == lines@.len(),
            before.len() == n,
            ks == kinds_of(before),
            i <= n,
            forall|k: int| 0 <= k < i ==> #[trigger] lines@[k]@ == diffed_line(before, k),
            forall|k: int| i <= k < n ==> #[trigger] lines@[k]@ == before[k],
            i < n && ks[i as int] == DiffKind::Del ==> (i == 0 || ks[i - 1] != DiffKind::Del),
            i < n && ks[i as int] == DiffKind::Add ==> word_partner(ks, i as int) is None,
        decreases n - i,
    {
        assert(lines@[i as int]@ == before[i as int]);
        assert(ks[i as int] == before[i as int].kind);
        if lines[i].kind != DiffKind::Del {
            proof {
                assert(word_extra(before, i as int) =~= Seq::<(usize, usize)>::empty());
                assert(before[i as int].word + word_extra(before, i as int) =~= before[i as int].word);
                if i + 1 < n && ks[i + 1] == DiffKind::Add {
                    if ks[i as int] == DiffKind::Add {
                        assert(run_start(ks, i + 1, DiffKind::Add) == run_start(ks, i as int, DiffKind::Add));
                    } else {
                        assert(run_start(ks, i + 1, DiffKind::Add) == i + 1);
                        assert(run_start(ks, i + 1, DiffKind::Del) == i + 1);
                    }
                }
            }
            i += 1;
        } else {
            let mut j: usize = i;
            while j < n && lines[j].kind == DiffKind::Del
                invariant
                    n == lines@.len(),
                    before.len() == n,
                    ks == kinds_of(before),
                    i <= j <= n,
                    forall|k: int| i <= k < n ==> #[trigger] lines@[k]@ == before[k],
                    forall|x: int| i <= x < j ==> ks[x] == DiffKind::Del,
                decreases n - j,
            {
                assert(lines@[j as int]@ == before[j as int]);
                assert(ks[j as int] == before[j as int].kind);
                j += 1;
            }
            proof {
                if j < n {
                    assert(lines@[j as int]@ == before[j as int]);
                    assert(ks[j as int] == before[j as int].kind);
                }
            }
            let mut k: usize = j;
            while k < n && lines[k].kind == DiffKind::Add
                invariant
                    n == lines@.len(),
                    before.len() == n,
                    ks == kinds_of(before),
                    i <= j <= k <= n,
                    forall|x: int| i <= x < j ==> ks[x] == DiffKind::Del,
                    forall|x: int| i <= x < n ==> #[trigger] lines@[x]@ == before[x],
                    forall|x: int| j <= x < k ==> ks[x] == DiffKind::Add,
                decreases n - k,
            {
                assert(lines@[k as int]@ == before[k as int]);
                assert(ks[k as int] == before[k as int].kind);
                k += 1;
            }
            proof {
                if k < n {
                    assert(lines@[k as int]@ == before[k as int]);
                    assert(ks[k as int] == before[k as int].kind);
                }
            }
            let pairs: usize = if j - i < k - j {
                j - i
            } else {
                k - j
            };
            proof {
                assert forall|x: int| i <= x < j implies #[trigger] word_partner(ks, x) == (if x - i
                    < k - j {
                    Some(j + (x - i))
                } else {
                    None
                }) by {
                    lemma_run_start(ks, i as int, x, DiffKind::Del);
                    lemma_run_end(ks, x, j as int, DiffKind::Del);
                    lemma_run_end(ks, j as int, k as int, DiffKind::Add);
                }
                assert forall|x: int| j <= x < k implies #[trigger] word_partner(ks, x) == (if x - j
                    < j - i {
                    Some(i + (x - j))
                } else {
                    None
                }) by {
                    lemma_run_start(ks, j as int, x, DiffKind::Add);
                    lemma_run_start(ks, i as int, j as int, DiffKind::Del);
                }
            }
            let mut t: usize = 0;
            while t < pairs
                invariant
                    n == lines@.len(),
                    before.len() == n,
                    ks == kinds_of(before),
                    i < j <= k <= n,
                    pairs <= j - i,
                    pairs <= k - j,
                    t <= pairs,
                    forall|x: int| 0 <= x < i ==> #[trigger] lines@[x]@ == diffed_line(before, x),
                    forall|x: int|
                        (i <= x < i + t || j <= x < j + t) ==> #[trigger] lines@[x]@ == diffed_line(
                            before,
                            x,
                        ),
                    forall|x: int|
                        i <= x < n && !(i <= x < i + t || j <= x < j + t) ==> #[trigger] lines@[x]@
                            == before[x],
                    forall|x: int| i <= x < j ==> ks[x] == DiffKind::Del,
                    forall|x: int| j <= x < k ==> ks[x] == DiffKind::Add,
                    forall|x: int|
                        i <= x < j ==> #[trigger] word_partner(ks, x) == (if x - i < k - j {
                            Some(j + (x - i))
                        } else {
                            None
                        }),
                    forall|x: int|
                        j <= x < k ==> #[trigger] word_partner(ks, x) == (if x - j < j - i {
                            Some(i + (x - j))
                        } else {
                            None
                        }),
                decreases pairs - t,
            {
                let a = i + t;
                let b = j + t;
                assert(lines@[a as int]@ == before[a as int]);
                assert(lines@[b as int]@ == before[b as int]);
                let (o, w) = word_diff(lines[a].text.as_str(), lines[b].text.as_str());
                push_word(lines, a, o);
                push_word(lines, b, w);
                proof {
                    assert(word_partner(ks, a as int) == Some(b as int));
                    assert(word_partner(ks, b as int) == Some(a as int));
                    assert(lines@[a as int]@ == diffed_line(before, a as int));
                    assert(lines@[b as int]@ == diffed_line(before, b as int));
                }
                t += 1;
            }
            proof {
                assert forall|x: int| 0 <= x < k implies #[trigger] lines@[x]@ == diffed_line(
                    before,
                    x,
                ) by {
                    if i <= x < j && x >= i + pairs {
                        assert(word_extra(before, x) =~= Seq::<(usize, usize)>::empty());
                        assert(before[x].word + word_extra(before, x) =~= before[x].word);
                    } else if j <= x < k && x >= j + pairs {
                        assert(word_extra(before, x) =~= Seq::<(usize, usize)>::empty());
                        assert(before[x].word + word_extra(before, x) =~= before[x].word);
                    }
                }
            }
            i = k;
        }
    }
    proof {
        let after = lines_view(lines@);
        assert forall|x: int| 0 <= x < before.len() implies #[trigger] after[x] == (DiffLineView {
            word: before[x].word + word_extra(before, x),
            ..before[x]
        }) by {
            assert(lines@[x]@ == diffed_line(before, x));
        }
    }
}


/// A hunk header's text: `@@`, its range, and its context when there is one.
pub open spec fn hunk_text(range: Seq<char>, context: Seq<char>) -> Seq<char> {
    if context.len() == 0 {
        "@@ "@ + range
    } else {
        "@@ "@ + range + "  "@ + context
    }
}

/// Whether a row has a line on the new side, and on the old side.
pub open spec fn on_new_side(r: DiffRow) -> bool {
    r is Ctx || r is Add
}

pub open spec fn on_old_side(r: DiffRow) -> bool {
    r is Ctx || r is Del
}

/// How many of the first `k` rows have a line on the new side.
pub open spec fn new_before(rows: Seq<DiffRow>, k: int) -> nat
    decreases k,
{
    if k <= 0 {
        0
    } else {
        new_before(rows, k - 1) + (if on_new_side(rows[k - 1]) {
            1nat
        } else {
            0nat
        })
    }
}

/// How many of the first `k` rows have a line on the old side.
pub open spec fn old_before(rows: Seq<DiffRow>, k: int) -> nat
    decreases k,
{
    if k <= 0 {
        0
    } else {
        old_before(rows, k - 1) + (if on_old_side(rows[k - 1]) {
            1nat
        } else {
            0nat
        })
    }
}

/// The line row `k` becomes, before word diffing. Context and added lines
/// are numbered in the new side's pseudo-document, deleted lines in the
/// old side's.
pub open spec fn line_of_row(rows: Seq<DiffRow>, k: int) -> DiffLineView {
    match rows[k] {
        DiffRow::Hunk { range, context } => DiffLineView {
            old: None,
            new: None,
            kind: DiffKind::Hunk,
            side: DiffSide::Neither,
            doc_line: 0,
            text: hunk_text(range@, context@),
            word: seq![],
        },
        DiffRow::Ctx { old, new, text } => DiffLineView {
            old: Some(old),
            new: Some(new),
            kind: DiffKind::Ctx,
            side: DiffSide::New,
            doc_line: new_before(rows, k) as usize,
            text: text@,
            word: seq![],
        },
        DiffRow::Add { new, text } => DiffLineView {
            old: None,
            new: Some(new),
            kind: DiffKind::Add,
            side: DiffSide::New,
            doc_line: new_before(rows, k) as usize,
            text: text@,
            word: seq![],
        },
        DiffRow::Del { old, text } => DiffLineView {
            old: Some(old),
            new: None,
            kind: DiffKind::Del,
            side: DiffSide::Old,
            doc_line: old_before(rows, k) as usize,
            text: text@,
            word: seq![],
        },
    }
}

/// The lines of the rows, before word diffing.
pub open spec fn raw_lines(rows: Seq<DiffRow>) -> Seq<DiffLineView> {
    Seq::new(rows.len(), |k: int| line_of_row(rows, k))
}

/// The diff's lines: one per row, numbered into each side's
/// pseudo-document, with word emphasis between replaced lines.
pub fn diff_lines(rows: &Vec<DiffRow>) -> (r: Vec<DiffLine>)
    ensures
        word_diffed(raw_lines(rows@), lines_view(r@)),
{
    let ghost raw = raw_lines(rows@);
    let mut lines: Vec<DiffLine> = Vec::new();
    let mut new_count: usize = 0;
    let mut old_count: usize = 0;
    let mut k: usize = 0;
    while k < rows.len()
        invariant
            k <= rows@.len(),
            raw == raw_lines(rows@),
            new_count == new_before(rows@, k as int),
            old_count == old_before(rows@, k as int),
            new_count <= k,
            old_count <= k,
            lines@.len() == k,
            forall|x: int| 0 <= x < k ==> #[trigger] lines@[x]@ == raw[x],
        decreases rows@.len() - k,
    {
        let line = match &rows[k] {
            DiffRow::Hunk { range, context } => {
                let mut t = chars_of("@@ ");
                append_chars(&mut t, &chars_of(range.as_str()));
                let c = chars_of(context.as_str());
                if c.len() > 0 {
                    append_chars(&mut t, &chars_of("  "));
                    append_chars(&mut t, &c);
                }
                DiffLine {
                    old: None,
                    new: None,
                    kind: DiffKind::Hunk,
                    side: DiffSide::Neither,
                    doc_line: 0,
                    text: string_of(&t),
                    word: Vec::new(),
                }
            },
            DiffRow::Ctx { old, new, text } => {
                let doc_line = new_count;
                new_count += 1;
                old_count += 1;
                DiffLine {
                    old: Some(*old),
                    new: Some(*new),
                    kind: DiffKind::Ctx,
                    side: DiffSide::New,
                    doc_line,
                    text: text.clone(),
                    word: Vec::new(),
                }
            },
            DiffRow::Add { new, text } => {
                let doc_line = new_count;
                new_count += 1;
                DiffLine {
                    old: None,
                    new: Some(*new),
                    kind: DiffKind::Add,
                    side: DiffSide::New,
                    doc_line,
                    text: text.clone(),
                    word: Vec::new(),
                }
            },
            DiffRow::Del { old, text } => {
                let doc_line = old_count;
                old_count += 1;
                DiffLine {
                    old: Some(*old),
                    new: None,
                    kind: DiffKind::Del,
                    side: DiffSide::Old,
                    doc_line,
                    text: text.clone(),
                    word: Vec::new(),
                }
            },
        };
        proof {
            assert(spans_view(line.word@) =~= Seq::<(usize, usize)>::empty());
            assert(line@ == raw[k as int]);
        }
        lines.push(line);
        k += 1;
    }
    assert(lines_view(lines@) =~= raw);
    compute_word_diff(&mut lines);
    lines
}

/// The texts of the lines on one side, in order: context and additions
/// for the new side, context and deletions for the old.
pub open spec fn side_texts(ls: Seq<DiffLineView>, new_side: bool) -> Seq<Seq<char>>
    decreases ls.len(),
{
    if ls.len() == 0 {
        seq![]
    } else {
        let prev = side_texts(ls.drop_last(), new_side);
        let k = ls.last().kind;
        if k == DiffKind::Ctx || (new_side && k == DiffKind::Add) || (!new_side && k
            == DiffKind::Del) {
            prev.push(ls.last().text)
        } else {
            prev
        }
    }
}

/// Each side's pseudo-document: its lines joined by newlines, so that a
/// line's `doc_line` indexes into it.
pub fn side_documents(lines: &Vec<DiffLine>) -> (r: (String, String))
    ensures
        r.0@ == join_with(side_texts(lines_view(lines@), true), '\n'),
        r.1@ == join_with(side_texts(lines_view(lines@), false), '\n'),
{
    let ghost lv = lines_view(lines@);
    let mut new_doc: Vec<char> = Vec::new();
    let mut old_doc: Vec<char> = Vec::new();
    let mut new_n: usize = 0;
    let mut old_n: usize = 0;
    let mut k: usize = 0;
    while k < lines.len()
        invariant
            k <= lines@.len(),
            lv == lines_view(lines@),
            new_doc@ == join_with(side_texts(lv.take(k as int), true), '\n'),
            old_doc@ == join_with(side_texts(lv.take(k as int), false), '\n'),
            new_n == side_texts(lv.take(k as int), true).len(),
            old_n == side_texts(lv.take(k as int), false).len(),
            new_n <= k,
            old_n <= k,
        decreases lines@.len() - k,
    {
        let ghost pre = lv.take(k as int);
        assert(lv.take(k + 1).drop_last() =~= pre);
        assert(lv.take(k + 1).last() == lines@[k as int]@);
        let kind = lines[k].kind;
        let text = chars_of(lines[k].text.as_str());
        if kind == DiffKind::Ctx || kind == DiffKind::Add {
            proof {
                lemma_join_push(side_texts(pre, true), text@);
            }
            if new_n > 0 {
                new_doc.push('\n');
            }
            append_chars(&mut new_doc, &text);
            new_n += 1;
        }
        if kind == DiffKind::Ctx || kind == DiffKind::Del {
            proof {
                lemma_join_push(side_texts(pre, false), text@);
            }
            if old_n > 0 {
                old_doc.push('\n');
            }
            append_chars(&mut old_doc, &text);
            old_n += 1;
        }
        k += 1;
    }
    assert(lv.take(lines@.len() as int) =~= lv);
    (string_of(&new_doc), string_of(&old_doc))
}

/// Joining one more part adds a separator unless it is the first.
pub(crate) proof fn lemma_join_push_sep(parts: Seq<Seq<char>>, x: Seq<char>, sep: char)
    ensures
        join_with(parts.push(x), sep) == (if parts.len() == 0 {
            seq![]
        } else {
            join_with(parts, sep) + seq![sep]
        }) + x,
{
    let q = parts.push(x);
    assert(q.drop_last() =~= parts);
    assert(q.last() == x);
    if parts.len() == 0 {
        assert(q.len() == 1);
        assert(q[0] == x);
        assert(seq![] + x =~= x);
    }
}

/// Joining one more line adds a newline unless it is the first.
pub(crate) proof fn lemma_join_push(parts: Seq<Seq<char>>, x: Seq<char>)
    ensures
        join_with(parts.push(x), '\n') == (if parts.len() == 0 {
            seq![]
        } else {
            join_with(parts, '\n') + seq!['\n']
        }) + x,
{
    let q = parts.push(x);
    assert(q.drop_last() =~= parts);
    assert(q.last() == x);
    if parts.len() == 0 {
        assert(q.len() == 1);
        assert(q[0] == x);
        assert(seq![] + x =~= x);
    }
}


proof fn lemma_counts_bounded(rows: Seq<DiffRow>, k: int)
    requires
        0 <= k,
    ensures
        new_before(rows, k) <= k,
        old_before(rows, k) <= k,
    decreases k,
{
    if k > 0 {
        lemma_counts_bounded(rows, k - 1);
    }
}

/// The kind and text of the line a row becomes.
pub open spec fn row_kind(r: DiffRow) -> DiffKind {
    match r {
        DiffRow::Hunk { .. } => DiffKind::Hunk,
        DiffRow::Ctx { .. } => DiffKind::Ctx,
        DiffRow::Add { .. } => DiffKind::Add,
        DiffRow::Del { .. } => DiffKind::Del,
    }
}

pub open spec fn row_text(r: DiffRow) -> Seq<char> {
    match r {
        DiffRow::Hunk { range, context } => hunk_text(range@, context@),
        DiffRow::Ctx { text, .. } => text@,
        DiffRow::Add { text, .. } => text@,
        DiffRow::Del { text, .. } => text@,
    }
}

/// The texts of the first `m` rows on one side.
pub open spec fn row_side_texts(rows: Seq<DiffRow>, m: int, new_side: bool) -> Seq<Seq<char>>
    decreases m,
{
    if m <= 0 {
        seq![]
    } else {
        let prev = row_side_texts(rows, m - 1, new_side);
        if (new_side && on_new_side(rows[m - 1])) || (!new_side && on_old_side(rows[m - 1])) {
            prev.push(row_text(rows[m - 1]))
        } else {
            prev
        }
    }
}

/// Side texts read only kinds and texts.
proof fn lemma_side_texts_rows(rows: Seq<DiffRow>, ls: Seq<DiffLineView>, m: int, new_side: bool)
    requires
        0 <= m <= ls.len(),
        ls.len() == rows.len(),
        forall|x: int|
            0 <= x < ls.len() ==> (#[trigger] ls[x]).kind == row_kind(rows[x]) && ls[x].text
                == row_text(rows[x]),
    ensures
        side_texts(ls.take(m), new_side) == row_side_texts(rows, m, new_side),
    decreases m,
{
    if m > 0 {
        lemma_side_texts_rows(rows, ls, m - 1, new_side);
        assert(ls.take(m).drop_last() =~= ls.take(m - 1));
        assert(ls.take(m).last() == ls[m - 1]);
    } else {
        assert(ls.take(0) =~= Seq::<DiffLineView>::empty());
    }
}

/// Each side holds as many texts as rows before `m` have a line there, and
/// a row's count finds its text.
proof fn lemma_row_sides(rows: Seq<DiffRow>, m: int, k: int)
    requires
        0 <= k < m <= rows.len(),
    ensures
        row_side_texts(rows, m, true).len() == new_before(rows, m),
        row_side_texts(rows, m, false).len() == old_before(rows, m),
        on_new_side(rows[k]) ==> row_side_texts(rows, m, true)[new_before(rows, k) as int] == row_text(
            rows[k],
        ),
        on_old_side(rows[k]) ==> row_side_texts(rows, m, false)[old_before(rows, k) as int] == row_text(
            rows[k],
        ),
    decreases m,
{
    lemma_row_lens(rows, m);
    if m > k + 1 {
        lemma_row_sides(rows, m - 1, k);
        lemma_row_lens(rows, m - 1);
        lemma_new_before_mono(rows, k + 1, m - 1);
        lemma_old_before_mono(rows, k + 1, m - 1);
    } else {
        lemma_row_lens(rows, k);
    }
}

proof fn lemma_row_lens(rows: Seq<DiffRow>, m: int)
    requires
        0 <= m,
    ensures
        row_side_texts(rows, m, true).len() == new_before(rows, m),
        row_side_texts(rows, m, false).len() == old_before(rows, m),
    decreases m,
{
    if m > 0 {
        lemma_row_lens(rows, m - 1);
    }
}

/// What word diffing keeps of the line row `x` becomes.
proof fn lemma_diffed_line(rows: Seq<DiffRow>, ls: Seq<DiffLineView>, x: int)
    requires
        word_diffed(raw_lines(rows), ls),
        0 <= x < rows.len(),
    ensures
        ls[x].kind == row_kind(rows[x]),
        ls[x].text == row_text(rows[x]),
        on_new_side(rows[x]) ==> ls[x].doc_line == new_before(rows, x) as usize,
        rows[x] is Del ==> ls[x].doc_line == old_before(rows, x) as usize,
{
    let raw = raw_lines(rows);
    assert(ls[x] == (DiffLineView { word: raw[x].word + word_extra(raw, x), ..raw[x] }));
    assert(raw[x] == line_of_row(rows, x));
}

/// Every context or added line's `doc_line` finds its text in the new
/// side's pseudo-document, and every deleted line's finds it in the old
/// side's.
pub proof fn lemma_doc_lines_index_documents(rows: Seq<DiffRow>, ls: Seq<DiffLineView>, k: int)
    requires
        word_diffed(raw_lines(rows), ls),
        0 <= k < rows.len(),
        rows.len() <= usize::MAX,
    ensures
        (ls[k].kind == DiffKind::Ctx || ls[k].kind == DiffKind::Add) ==> ls[k].doc_line < side_texts(
            ls,
            true,
        ).len() && side_texts(ls, true)[ls[k].doc_line as int] == ls[k].text,
        ls[k].kind == DiffKind::Del ==> ls[k].doc_line < side_texts(ls, false).len() && side_texts(
            ls,
            false,
        )[ls[k].doc_line as int] == ls[k].text,
{
    let n = rows.len() as int;
    assert forall|x: int| 0 <= x < ls.len() implies (#[trigger] ls[x]).kind == row_kind(rows[x])
        && ls[x].text == row_text(rows[x]) by {
        lemma_diffed_line(rows, ls, x);
    }
    lemma_side_texts_rows(rows, ls, n, true);
    lemma_side_texts_rows(rows, ls, n, false);
    assert(ls.take(n) =~= ls);
    lemma_row_sides(rows, n, k);
    lemma_counts_bounded(rows, k);
    lemma_diffed_line(rows, ls, k);
    if on_new_side(rows[k]) {
        lemma_new_before_mono(rows, k + 1, n);
    }
    if on_old_side(rows[k]) {
        lemma_old_before_mono(rows, k + 1, n);
    }
}

proof fn lemma_new_before_mono(rows: Seq<DiffRow>, a: int, b: int)
    requires
        0 <= a <= b,
    ensures
        new_before(rows, a) <= new_before(rows, b),
    decreases b - a,
{
    if a < b {
        lemma_new_before_mono(rows, a, b - 1);
    }
}

proof fn lemma_old_before_mono(rows: Seq<DiffRow>, a: int, b: int)
    requires
        0 <= a <= b,
    ensures
        old_before(rows, a) <= old_before(rows, b),
    decreases b - a,
{
    if a < b {
        lemma_old_before_mono(rows, a, b - 1);
    }
}

} // verus!
