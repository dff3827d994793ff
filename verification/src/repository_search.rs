//! Unified repository search for Quick Open.
//!
//! File paths, syntax-tree declarations, and Git commits share one ranked
//! result list. Reading files, parsing them, and checking the cancel flag
//! between steps is the caller's part; candidates are scored with
//! `nucleo-matcher` and ranked here.
use nucleo_matcher::pattern::{CaseMatching, Normalization, Pattern};
use vstd::prelude::*;

use crate::file_index::IndexedFile;
use crate::git::Commit;
use crate::highlight::Lang;
use crate::paths::{extension, path_extension};
use crate::text::{
    append_chars, byte_slice, chars_eq, chars_of, get_byte_range, lemma_lex_strict, lemma_lex_trans,
    lex_less, lex_lt, string_of,
};

verus! {

/// Results shown at most.
pub const MAX_RESULTS: usize = 80;

/// One Quick Open result.
#[derive(Clone, Debug, PartialEq, Eq)]
pub enum RepositoryResult {
    File { relative: String, absolute: String },
    Symbol { name: String, declaration: String, relative: String, absolute: String, line: usize },
    Commit { short_hash: String, subject: String, author: String },
}

/// The text results tie-break on.
pub open spec fn sort_key_of(r: RepositoryResult) -> Seq<char> {
    match r {
        RepositoryResult::File { relative, .. } => relative@,
        RepositoryResult::Symbol { name, relative, .. } => relative@ + ":"@ + name@,
        RepositoryResult::Commit { short_hash, subject, .. } => short_hash@ + ":"@ + subject@,
    }
}

fn joined2(a: &str, sep: &str, b: &str) -> (r: Vec<char>)
    ensures
        r@ == a@ + sep@ + b@,
{
    let mut out = chars_of(a);
    append_chars(&mut out, &chars_of(sep));
    append_chars(&mut out, &chars_of(b));
    out
}

fn joined3(a: &str, sep: &str, b: &str, sep2: &str, c: &str) -> (r: Vec<char>)
    ensures
        r@ == a@ + sep@ + b@ + sep2@ + c@,
{
    let mut out = joined2(a, sep, b);
    append_chars(&mut out, &chars_of(sep2));
    append_chars(&mut out, &chars_of(c));
    out
}

/// The tie-break text of a result.
pub fn result_sort_key(result: &RepositoryResult) -> (r: String)
    ensures
        r@ == sort_key_of(*result),
{
    match result {
        RepositoryResult::File { relative, .. } => relative.clone(),
        RepositoryResult::Symbol { name, relative, .. } => {
            let v = joined2(relative.as_str(), ":", name.as_str());
            string_of(&v)
        },
        RepositoryResult::Commit { short_hash, subject, .. } => {
            let v = joined2(short_hash.as_str(), ":", subject.as_str());
            string_of(&v)
        },
    }
}

/// A copy of a result.
pub fn copy_result(r: &RepositoryResult) -> (c: RepositoryResult)
    ensures
        c == *r,
{
    match r {
        RepositoryResult::File { relative, absolute } => RepositoryResult::File {
            relative: relative.clone(),
            absolute: absolute.clone(),
        },
        RepositoryResult::Symbol { name, declaration, relative, absolute, line } => {
            RepositoryResult::Symbol {
                name: name.clone(),
                declaration: declaration.clone(),
                relative: relative.clone(),
                absolute: absolute.clone(),
                line: *line,
            }
        },
        RepositoryResult::Commit { short_hash, subject, author } => RepositoryResult::Commit {
            short_hash: short_hash.clone(),
            subject: subject.clone(),
            author: author.clone(),
        },
    }
}

/// A result with its score and kind rank (symbols 0, files 1, commits 2).
pub struct ScoredResult {
    pub score: u32,
    pub kind_order: u8,
    pub result: RepositoryResult,
}

/// Ranking order: higher score first, then lower kind rank, then by
/// tie-break text.
pub open spec fn ranks_before(a: ScoredResult, b: ScoredResult) -> bool {
    a.score > b.score || (a.score == b.score && a.kind_order < b.kind_order) || (a.score == b.score
        && a.kind_order == b.kind_order && lex_lt(sort_key_of(a.result), sort_key_of(b.result)))
}

proof fn lemma_ranks_before(a: ScoredResult, b: ScoredResult, c: ScoredResult)
    ensures
        ranks_before(a, b) ==> !ranks_before(b, a),
        ranks_before(a, b) && ranks_before(b, c) ==> ranks_before(a, c),
{
    lemma_lex_strict(sort_key_of(a.result), sort_key_of(b.result));
    if ranks_before(a, b) && ranks_before(b, c) && a.score == b.score && b.score == c.score
        && a.kind_order == b.kind_order && b.kind_order == c.kind_order {
        lemma_lex_trans(sort_key_of(a.result), sort_key_of(b.result), sort_key_of(c.result));
    }
}

/// Two results that rank alike: same score, kind rank and tie-break text.
pub open spec fn tied(a: ScoredResult, b: ScoredResult) -> bool {
    a.score == b.score && a.kind_order == b.kind_order && sort_key_of(a.result) == sort_key_of(
        b.result,
    )
}

/// The results that rank alike with `x`.
pub open spec fn tied_with(x: ScoredResult) -> spec_fn(ScoredResult) -> bool {
    |y: ScoredResult| tied(y, x)
}

pub(crate) proof fn lemma_filter_insert<A>(
    s: Seq<A>,
    p: int,
    x: A,
    f: spec_fn(A) -> bool,
)
    requires
        0 <= p <= s.len(),
    ensures
        !f(x) ==> s.insert(p, x).filter(f) == s.filter(f),
        f(x) && (forall|j: int| p <= j < s.len() ==> !f(#[trigger] s[j])) ==> s.insert(p, x).filter(f)
            == s.filter(f).push(x),
{
    let a = s.take(p);
    let b = s.skip(p);
    assert(s =~= a + b);
    assert(s.insert(p, x) =~= a.push(x) + b);
    Seq::filter_distributes_over_add(a, b, f);
    Seq::filter_distributes_over_add(a.push(x), b, f);
    a.lemma_filter_push(x, f);
    if f(x) && (forall|j: int| p <= j < s.len() ==> !f(#[trigger] s[j])) {
        assert(b.all(|y: A| !f(y))) by {
            assert forall|j: int| 0 <= j < b.len() implies !f(#[trigger] b[j]) by {
                assert(b[j] == s[p + j]);
            }
        }
        b.lemma_all_neg_filter_empty(f);
        assert(b.filter(f) =~= Seq::<A>::empty());
        assert(a.filter(f) + b.filter(f) =~= a.filter(f));
        assert(a.filter(f).push(x) + b.filter(f) =~= a.filter(f).push(x));
    }
}

/// Whether `out` is `scored` ranked (sorted, nothing lost or added, results
/// that rank alike in the order they came) and cut to `MAX_RESULTS`.
pub open spec fn ranked_results(scored: Seq<ScoredResult>, out: Seq<RepositoryResult>) -> bool {
    exists|sorted: Seq<ScoredResult>|
        #![trigger sorted.to_multiset()]
        {
            &&& sorted.to_multiset() == scored.to_multiset()
            &&& forall|i: int, j: int|
                0 <= i < j < sorted.len() ==> !ranks_before(#[trigger] sorted[j], #[trigger] sorted[i])
            &&& forall|x: ScoredResult|
                #[trigger] sorted.filter(tied_with(x)) == scored.filter(tied_with(x))
            &&& out == sorted.take(
                if sorted.len() > MAX_RESULTS {
                    MAX_RESULTS as int
                } else {
                    sorted.len() as int
                },
            ).map_values(|s: ScoredResult| s.result)
        }
}

proof fn lemma_insert_multiset_scored(s: Seq<ScoredResult>, p: int, x: ScoredResult)
    requires
        0 <= p <= s.len(),
    ensures
        s.insert(p, x).to_multiset() == s.to_multiset().insert(x),
{
    broadcast use vstd::seq_lib::group_to_multiset_ensures;

    let a = s.take(p);
    let b = s.skip(p);
    assert(s =~= a + b);
    assert(s.insert(p, x) =~= a.push(x) + b);
    vstd::seq_lib::lemma_multiset_commutative(a.push(x), b);
    vstd::seq_lib::lemma_multiset_commutative(a, b);
    assert(a.push(x).to_multiset() =~= a.to_multiset().insert(x));
    assert(a.to_multiset().insert(x).add(b.to_multiset()) =~= a.to_multiset().add(
        b.to_multiset(),
    ).insert(x));
}

fn ranked_before(a: &ScoredResult, ak: &Vec<char>, b: &ScoredResult, bk: &Vec<char>) -> (r: bool)
    requires
        ak@ == sort_key_of(a.result),
        bk@ == sort_key_of(b.result),
    ensures
        r == ranks_before(*a, *b),
{
    a.score > b.score || (a.score == b.score && a.kind_order < b.kind_order) || (a.score == b.score
        && a.kind_order == b.kind_order && lex_less(ak, bk))
}

/// Ranks the scored results and keeps the first `MAX_RESULTS`; results that
/// rank alike keep their order.
pub fn rank(scored: Vec<ScoredResult>) -> (r: Vec<RepositoryResult>)
    ensures
        ranked_results(scored@, r@),
{
    let ghost all = scored@;
    let mut out: Vec<ScoredResult> = Vec::new();
    let mut keys: Vec<Vec<char>> = Vec::new();
    let total = scored.len();
    let mut rest = scored;
    let mut k: usize = 0;
    assert(all.take(0) =~= Seq::<ScoredResult>::empty());
    while rest.len() > 0
        invariant
            k + rest@.len() == all.len(),
            all.len() == total,
            rest@ == all.skip(k as int),
            keys@.len() == out@.len(),
            forall|i: int| 0 <= i < out@.len() ==> #[trigger] keys@[i]@ == sort_key_of(out@[i].result),
            out@.to_multiset() == all.take(k as int).to_multiset(),
            forall|i: int, j: int|
                0 <= i < j < out@.len() ==> !ranks_before(#[trigger] out@[j], #[trigger] out@[i]),
            forall|z: ScoredResult|
                #[trigger] out@.filter(tied_with(z)) == all.take(k as int).filter(tied_with(z)),
        decreases rest@.len(),
    {
        let x = rest.remove(0);
        assert(x == all[k as int]);
        let xk = chars_of(result_sort_key(&x.result).as_str());
        let mut p: usize = 0;
        while p < out.len() && !ranked_before(&x, &xk, &out[p], &keys[p])
            invariant
                p <= out@.len(),
                keys@.len() == out@.len(),
                xk@ == sort_key_of(x.result),
                forall|i: int| 0 <= i < out@.len() ==> #[trigger] keys@[i]@ == sort_key_of(
                    out@[i].result,
                ),
                forall|i: int| 0 <= i < p ==> !ranks_before(x, #[trigger] out@[i]),
            decreases out@.len() - p,
        {
            p += 1;
        }
        let ghost old_out = out@;
        let ghost old_keys = keys@;
        assert(p < old_out.len() ==> ranks_before(x, old_out[p as int]));
        out.insert(p, x);
        keys.insert(p, xk);
        proof {
            lemma_insert_multiset_scored(old_out, p as int, all[k as int]);
            assert(all.take(k + 1) =~= all.take(k as int).push(all[k as int]));
            all.take(k as int).to_multiset_ensures();
            assert(all.skip(k + 1) =~= all.skip(k as int).drop_first());
            assert forall|i: int| 0 <= i < out@.len() implies #[trigger] keys@[i]@ == sort_key_of(
                out@[i].result,
            ) by {
                if i > p {
                    assert(out@[i] == old_out[i - 1]);
                    assert(keys@[i] == old_keys[i - 1]);
                } else if i < p {
                    assert(out@[i] == old_out[i]);
                    assert(keys@[i] == old_keys[i]);
                }
            }
            assert forall|z: ScoredResult|
                #[trigger] out@.filter(tied_with(z)) == all.take(k + 1).filter(tied_with(z)) by {
                let f = tied_with(z);
                let y = all[k as int];
                lemma_filter_insert(old_out, p as int, y, f);
                all.take(k as int).lemma_filter_push(y, f);
                if f(y) {
                    assert forall|j: int| p <= j < old_out.len() implies !f(#[trigger] old_out[j]) by {
                        if f(old_out[j]) {
                            assert(tied(old_out[j], y));
                            assert(ranks_before(y, old_out[p as int]));
                            lemma_lex_strict(sort_key_of(y.result), sort_key_of(y.result));
                            if j > p {
                                assert(!ranks_before(old_out[j], old_out[p as int]));
                                assert(ranks_before(old_out[j], old_out[p as int]));
                            } else {
                                assert(ranks_before(old_out[p as int], old_out[p as int]));
                            }
                        }
                    }
                }
            }
            assert forall|i: int, j: int| 0 <= i < j < out@.len() implies !ranks_before(
                #[trigger] out@[j],
                #[trigger] out@[i],
            ) by {
                let y = all[k as int];
                if i < p && j == p {
                } else if i < p && j > p {
                    assert(out@[i] == old_out[i]);
                    assert(out@[j] == old_out[j - 1]);
                } else if i == p && j > p {
                    assert(out@[j] == old_out[j - 1]);
                    lemma_ranks_before(old_out[j - 1], y, old_out[p as int]);
                } else if i > p {
                    assert(out@[i] == old_out[i - 1]);
                    assert(out@[j] == old_out[j - 1]);
                } else {
                    assert(out@[i] == old_out[i]);
                    assert(out@[j] == old_out[j]);
                }
            }
        }
        k += 1;
    }
    assert(all.take(all.len() as int) =~= all);
    let n = if out.len() > MAX_RESULTS {
        MAX_RESULTS
    } else {
        out.len()
    };
    let mut results: Vec<RepositoryResult> = Vec::new();
    let mut i: usize = 0;
    while i < n
        invariant
            i <= n,
            n <= out@.len(),
            results@ == out@.take(i as int).map_values(|s: ScoredResult| s.result),
        decreases n - i,
    {
        results.push(copy_result(&out[i].result));
        assert(out@.take(i + 1).map_values(|s: ScoredResult| s.result) =~= out@.take(
            i as int,
        ).map_values(|s: ScoredResult| s.result).push(out@[i as int].result));
        i += 1;
    }
    proof {
        let w = out@;
        assert(w.to_multiset() == all.to_multiset());
        assert(ranked_results(all, results@));
    }
    results
}

#[verifier::external_type_specification]
#[verifier::external_body]
pub struct ExNucleoPattern(nucleo_matcher::pattern::Pattern);

#[verifier::external_type_specification]
#[verifier::external_body]
pub struct ExNucleoMatcher(nucleo_matcher::Matcher);

#[verifier::external_type_specification]
#[verifier::external_body]
pub struct ExNucleoConfig(nucleo_matcher::Config);

/// The score `nucleo-matcher` gives a candidate for a query (parsed with
/// case ignored and smart normalisation), with the matcher configured for
/// paths or for plain text; `None` when it does not match.
pub uninterp spec fn fuzzy_score_of(query: Seq<char>, paths: bool, candidate: Seq<char>) -> Option<u32>;

/// `Pattern::parse` with `CaseMatching::Ignore` and `Normalization::Smart`.
#[verifier::external_body]
fn parse_pattern(query: &str) -> nucleo_matcher::pattern::Pattern {
    Pattern::parse(query, CaseMatching::Ignore, Normalization::Smart)
}

/// `Config::DEFAULT`.
#[verifier::external_body]
fn default_config() -> nucleo_matcher::Config {
    nucleo_matcher::Config::DEFAULT
}

/// `Config::match_paths`.
#[verifier::external_body]
fn paths_config(c: nucleo_matcher::Config) -> nucleo_matcher::Config {
    c.match_paths()
}

/// `Matcher::new`.
#[verifier::external_body]
fn new_matcher(c: nucleo_matcher::Config) -> nucleo_matcher::Matcher {
    nucleo_matcher::Matcher::new(c)
}

/// A parsed Quick Open query.
pub struct FuzzyPattern {
    query: String,
    pattern: nucleo_matcher::pattern::Pattern,
}

/// A matcher configured for paths or for plain text.
pub struct FuzzyMatcher {
    paths: bool,
    matcher: nucleo_matcher::Matcher,
}

impl FuzzyPattern {
    pub closed spec fn query(&self) -> Seq<char> {
        self.query@
    }

    /// The query as a case-insensitive pattern with smart normalization.
    pub fn new(query: &str) -> (r: FuzzyPattern)
        ensures
            r.query() == query@,
    {
        FuzzyPattern { query: query.to_string(), pattern: parse_pattern(query) }
    }
}

impl FuzzyMatcher {
    pub closed spec fn paths(&self) -> bool {
        self.paths
    }

    /// A matcher with path bonuses, or one for plain text.
    pub fn new(paths: bool) -> (r: FuzzyMatcher)
        ensures
            r.paths() == paths,
    {
        let config = if paths {
            paths_config(default_config())
        } else {
            default_config()
        };
        FuzzyMatcher { paths, matcher: new_matcher(config) }
    }
}

/// `Pattern::score` of a candidate; the score is named `fuzzy_score_of`.
/// The crate asserts that a candidate has at most `u32::MAX` characters.
#[verifier::external_body]
fn pattern_score(q: &FuzzyPattern, m: &mut FuzzyMatcher, candidate: &str) -> (r: Option<u32>)
    requires
        candidate@.len() <= u32::MAX,
    ensures
        r == fuzzy_score_of(q.query(), old(m).paths(), candidate@),
        final(m).paths() == old(m).paths(),
{
    let mut buffer = Vec::new();
    q.pattern.score(nucleo_matcher::Utf32Str::new(candidate, &mut buffer), &mut m.matcher)
}

/// The score of a file, matched by its relative path.
pub fn score_file(q: &FuzzyPattern, m: &mut FuzzyMatcher, file: &IndexedFile) -> (r: Option<
    ScoredResult,
>)
    requires
        old(m).paths(),
        file.relative@.len() <= u32::MAX,
    ensures
        final(m).paths(),
        match fuzzy_score_of(q.query(), true, file.relative@) {
            Some(s) => r matches Some(x) && x.score == s && x.kind_order == 1 && x.result
                == RepositoryResult::File { relative: file.relative, absolute: file.absolute },
            None => r is None,
        },
{
    match pattern_score(q, m, file.relative.as_str()) {
        Some(score) => Some(
            ScoredResult {
                score,
                kind_order: 1,
                result: RepositoryResult::File {
                    relative: file.relative.clone(),
                    absolute: file.absolute.clone(),
                },
            },
        ),
        None => None,
    }
}

/// The text a commit is matched by: hash, subject and author.
pub fn commit_candidate(c: &Commit) -> (r: String)
    ensures
        r@ == c.short_hash@ + " "@ + c.subject@ + " "@ + c.author@,
{
    string_of(&joined3(c.short_hash.as_str(), " ", c.subject.as_str(), " ", c.author.as_str()))
}

/// The score of a commit.
pub fn score_commit(q: &FuzzyPattern, m: &mut FuzzyMatcher, c: &Commit) -> (r: Option<
    ScoredResult,
>)
    requires
        !old(m).paths(),
        (c.short_hash@ + " "@ + c.subject@ + " "@ + c.author@).len() <= u32::MAX,
    ensures
        !final(m).paths(),
        match fuzzy_score_of(q.query(), false, c.short_hash@ + " "@ + c.subject@ + " "@ + c.author@) {
            Some(s) => r matches Some(x) && x.score == s && x.kind_order == 2 && x.result
                == RepositoryResult::Commit {
                short_hash: c.short_hash,
                subject: c.subject,
                author: c.author,
            },
            None => r is None,
        },
{
    let candidate = commit_candidate(c);
    match pattern_score(q, m, candidate.as_str()) {
        Some(score) => Some(
            ScoredResult {
                score,
                kind_order: 2,
                result: RepositoryResult::Commit {
                    short_hash: c.short_hash.clone(),
                    subject: c.subject.clone(),
                    author: c.author.clone(),
                },
            },
        ),
        None => None,
    }
}

/// One declaration found in a syntax tree.
#[derive(Clone, Debug)]
pub struct Declaration {
    pub name: String,
    pub kind: String,
    pub line: usize,
}

/// The score of a declaration in `file`: matched by name, kind and path,
/// and lifted by 8 (saturating) so symbols lead equally good paths.
pub fn score_declaration(q: &FuzzyPattern, m: &mut FuzzyMatcher, d: &Declaration, file: &IndexedFile) -> (r:
    Option<ScoredResult>)
    requires
        !old(m).paths(),
        (d.name@ + " "@ + d.kind@ + " "@ + file.relative@).len() <= u32::MAX,
    ensures
        !final(m).paths(),
        match fuzzy_score_of(q.query(), false, d.name@ + " "@ + d.kind@ + " "@ + file.relative@) {
            Some(s) => r matches Some(x) && x.score == (if s + 8 > u32::MAX {
                u32::MAX as int
            } else {
                s + 8
            }) && x.kind_order == 0 && x.result == RepositoryResult::Symbol {
                name: d.name,
                declaration: d.kind,
                relative: file.relative,
                absolute: file.absolute,
                line: d.line,
            },
            None => r is None,
        },
{
    let candidate = string_of(
        &joined3(d.name.as_str(), " ", d.kind.as_str(), " ", file.relative.as_str()),
    );
    match pattern_score(q, m, candidate.as_str()) {
        Some(score) => Some(
            ScoredResult {
                score: score.saturating_add(8),
                kind_order: 0,
                result: RepositoryResult::Symbol {
                    name: d.name.clone(),
                    declaration: d.kind.clone(),
                    relative: file.relative.clone(),
                    absolute: file.absolute.clone(),
                    line: d.line,
                },
            },
        ),
        None => None,
    }
}

/// Whether a file's size, when its metadata could be read, is within
/// `MAX_TEXT_BYTES`; a file whose size is unknown is left out.
pub fn within_text_limit(size: Option<u64>) -> (r: bool)
    ensures
        r == (size matches Some(n) && n <= crate::file_index::MAX_TEXT_BYTES),
{
    match size {
        Some(n) => n <= crate::file_index::MAX_TEXT_BYTES,
        None => false,
    }
}

/// The results for an empty query: the files within the size limit, in
/// index order, at most `MAX_RESULTS` of them. `within[i]` tells whether
/// file `i` is within the limit.
pub fn first_files(files: &Vec<IndexedFile>, within: &Vec<bool>) -> (r: Vec<RepositoryResult>)
    requires
        files@.len() == within@.len(),
    ensures
        r@ == first_files_of(files@, within@, files@.len() as int),
{
    let mut out: Vec<RepositoryResult> = Vec::new();
    let mut i: usize = 0;
    while i < files.len()
        invariant
            i <= files@.len(),
            files@.len() == within@.len(),
            out@ == first_files_of(files@, within@, i as int),
        decreases files@.len() - i,
    {
        if within[i] && out.len() < MAX_RESULTS {
            out.push(
                RepositoryResult::File {
                    relative: files[i].relative.clone(),
                    absolute: files[i].absolute.clone(),
                },
            );
        }
        i += 1;
    }
    out
}

/// The first `MAX_RESULTS` of the first `n` files that are within the limit.
pub open spec fn first_files_of(files: Seq<IndexedFile>, within: Seq<bool>, n: int) -> Seq<
    RepositoryResult,
>
    decreases n,
{
    if n <= 0 {
        seq![]
    } else {
        let before = first_files_of(files, within, n - 1);
        if within[n - 1] && before.len() < MAX_RESULTS {
            before.push(
                RepositoryResult::File {
                    relative: files[n - 1].relative,
                    absolute: files[n - 1].absolute,
                },
            )
        } else {
            before
        }
    }
}

/// A syntax-tree node as the declaration walk reads it: its kind, its
/// start row, the byte ranges of its `name` and `declaration_kind` field
/// children when it has them, its own byte range, and its named children.
#[derive(Debug)]
pub struct SyntaxNode {
    pub kind: String,
    pub row: usize,
    pub name_field: Option<(usize, usize)>,
    pub kind_field: Option<(usize, usize)>,
    pub start: usize,
    pub end: usize,
    pub children: Vec<SyntaxNode>,
}

pub struct DeclarationView {
    pub name: Seq<char>,
    pub kind: Seq<char>,
    pub line: int,
}

impl View for Declaration {
    type V = DeclarationView;

    open spec fn view(&self) -> DeclarationView {
        DeclarationView { name: self.name@, kind: self.kind@, line: self.line as int }
    }
}

pub open spec fn declarations_view(ds: Seq<Declaration>) -> Seq<DeclarationView> {
    ds.map_values(|d: Declaration| d@)
}

/// Kinds of node that name a declaration when no `name` field does.
pub open spec fn identifier_kind(k: Seq<char>) -> bool {
    k == "identifier"@ || k == "type_identifier"@ || k == "simple_identifier"@ || k
        == "property_identifier"@
}

/// The byte range of the first named child of an identifier kind.
pub open spec fn first_identifier(ns: Seq<SyntaxNode>, n: int) -> Option<(usize, usize)>
    decreases n,
{
    if n <= 0 {
        None
    } else {
        match first_identifier(ns, n - 1) {
            Some(r) => Some(r),
            None => if identifier_kind(ns[n - 1].kind@) {
                Some((ns[n - 1].start, ns[n - 1].end))
            } else {
                None
            },
        }
    }
}

/// The name of a declaration node: the text of its `name` field, else of
/// its first identifier child; `None` when neither exists or the range does
/// not fall on the source's characters.
pub open spec fn declaration_name_of(source: Seq<char>, n: SyntaxNode) -> Option<Seq<char>> {
    let range = match n.name_field {
        Some(r) => Some(r),
        None => first_identifier(n.children@, n.children@.len() as int),
    };
    match range {
        Some((a, b)) => byte_slice(source, a as int, b as int),
        None => None,
    }
}

/// The label of a Swift-style declaration, read from its
/// `declaration_kind` field; `fallback` otherwise.
pub open spec fn declaration_label_of(source: Seq<char>, n: SyntaxNode, fallback: Seq<char>) -> Seq<
    char,
> {
    match n.kind_field {
        None => fallback,
        Some((a, b)) => match byte_slice(source, a as int, b as int) {
            Some(t) => if t == "actor"@ {
                "Actor"@
            } else if t == "class"@ {
                "Class"@
            } else if t == "enum"@ {
                "Enum"@
            } else if t == "extension"@ {
                "Extension"@
            } else if t == "protocol"@ {
                "Protocol"@
            } else if t == "struct"@ {
                "Struct"@
            } else {
                fallback
            },
            None => fallback,
        },
    }
}

/// The label a node kind declares, from a table of (kind, label) pairs.
pub open spec fn kind_label(kinds: Seq<(Seq<char>, Seq<char>)>, k: Seq<char>, n: int) -> Option<
    Seq<char>,
>
    decreases n,
{
    if n <= 0 {
        None
    } else {
        match kind_label(kinds, k, n - 1) {
            Some(l) => Some(l),
            None => if kinds[n - 1].0 == k {
                Some(kinds[n - 1].1)
            } else {
                None
            },
        }
    }
}

/// The declaration a node itself makes, if any.
pub open spec fn own_declaration(
    source: Seq<char>,
    kinds: Seq<(Seq<char>, Seq<char>)>,
    n: SyntaxNode,
) -> Seq<DeclarationView> {
    match kind_label(kinds, n.kind@, kinds.len() as int) {
        Some(label) => match declaration_name_of(source, n) {
            Some(name) => seq![
                DeclarationView {
                    name,
                    kind: declaration_label_of(source, n, label),
                    line: n.row + 1,
                },
            ],
            None => seq![],
        },
        None => seq![],
    }
}

/// The declarations of a node and its descendants, in document order.
pub open spec fn declarations_in(
    source: Seq<char>,
    kinds: Seq<(Seq<char>, Seq<char>)>,
    n: SyntaxNode,
) -> Seq<DeclarationView>
    decreases n,
{
    own_declaration(source, kinds, n) + declarations_in_all(source, kinds, n.children@)
}

pub open spec fn declarations_in_all(
    source: Seq<char>,
    kinds: Seq<(Seq<char>, Seq<char>)>,
    ns: Seq<SyntaxNode>,
) -> Seq<DeclarationView>
    decreases ns,
{
    if ns.len() == 0 {
        seq![]
    } else {
        declarations_in_all(source, kinds, ns.drop_last()) + declarations_in(
            source,
            kinds,
            ns.last(),
        )
    }
}

/// Every row of a tree is below `usize::MAX`, so its line number fits.
pub open spec fn rows_fit(n: SyntaxNode) -> bool
    decreases n,
{
    n.row < usize::MAX && rows_fit_all(n.children@)
}

pub open spec fn rows_fit_all(ns: Seq<SyntaxNode>) -> bool
    decreases ns,
{
    ns.len() == 0 || (rows_fit_all(ns.drop_last()) && rows_fit(ns.last()))
}

pub open spec fn kinds_view(kinds: Seq<(&'static str, &'static str)>) -> Seq<(Seq<char>, Seq<char>)> {
    kinds.map_values(|p: (&'static str, &'static str)| (p.0@, p.1@))
}

proof fn lemma_rows_fit_all(ns: Seq<SyntaxNode>)
    requires
        rows_fit_all(ns),
    ensures
        forall|i: int| 0 <= i < ns.len() ==> rows_fit(#[trigger] ns[i]),
    decreases ns.len(),
{
    if ns.len() > 0 {
        lemma_rows_fit_all(ns.drop_last());
        assert forall|i: int| 0 <= i < ns.len() implies rows_fit(#[trigger] ns[i]) by {
            if i < ns.len() - 1 {
                assert(ns[i] == ns.drop_last()[i]);
            }
        }
    }
}

fn find_kind(kinds: &Vec<(&'static str, &'static str)>, k: &str) -> (r: Option<&'static str>)
    ensures
        match r {
            Some(l) => kind_label(kinds_view(kinds@), k@, kinds@.len() as int) == Some(l@),
            None => kind_label(kinds_view(kinds@), k@, kinds@.len() as int) is None,
        },
{
    let ghost kv = kinds_view(kinds@);
    let mut i: usize = 0;
    while i < kinds.len()
        invariant
            i <= kinds@.len(),
            kv == kinds_view(kinds@),
            kind_label(kv, k@, i as int) is None,
        decreases kinds@.len() - i,
    {
        assert(kv[i as int] == (kinds@[i as int].0@, kinds@[i as int].1@));
        if crate::text::same_text(kinds[i].0, k) {
            proof {
                lemma_kind_label_stable(kv, k@, i + 1, kinds@.len() as int);
            }
            return Some(kinds[i].1);
        }
        i += 1;
    }
    None
}

proof fn lemma_kind_label_stable(kinds: Seq<(Seq<char>, Seq<char>)>, k: Seq<char>, m: int, n: int)
    requires
        0 <= m <= n,
        kind_label(kinds, k, m) is Some,
    ensures
        kind_label(kinds, k, n) == kind_label(kinds, k, m),
    decreases n - m,
{
    if n > m {
        lemma_kind_label_stable(kinds, k, m, n - 1);
    }
}

proof fn lemma_first_identifier_stable(ns: Seq<SyntaxNode>, m: int, n: int)
    requires
        0 <= m <= n,
        first_identifier(ns, m) is Some,
    ensures
        first_identifier(ns, n) == first_identifier(ns, m),
    decreases n - m,
{
    if n > m {
        lemma_first_identifier_stable(ns, m, n - 1);
    }
}

fn is_identifier_kind(k: &str) -> (r: bool)
    ensures
        r == identifier_kind(k@),
{
    crate::text::same_text(k, "identifier") || crate::text::same_text(k, "type_identifier")
        || crate::text::same_text(k, "simple_identifier") || crate::text::same_text(
        k,
        "property_identifier",
    )
}

/// The name of a declaration node.
fn declaration_name(node: &SyntaxNode, source: &[char], offsets: &Vec<u128>) -> (r: Option<String>)
    requires
        offsets@.len() == source@.len() + 1,
        forall|k: int| 0 <= k <= source@.len() ==> offsets@[k] == crate::text::byte_offset(source@, k),
    ensures
        match r {
            Some(s) => declaration_name_of(source@, *node) == Some(s@),
            None => declaration_name_of(source@, *node) is None,
        },
{
    let range = match node.name_field {
        Some(r) => Some(r),
        None => {
            let mut found: Option<(usize, usize)> = None;
            let mut i: usize = 0;
            let ghost ns = node.children@;
            while i < node.children.len() && found.is_none()
                invariant
                    i <= node.children@.len(),
                    ns == node.children@,
                    found is None ==> first_identifier(ns, i as int) is None,
                    found is Some ==> first_identifier(ns, ns.len() as int) == found,
                decreases node.children@.len() - i + (if found is None {
                    1int
                } else {
                    0int
                }),
            {
                if is_identifier_kind(node.children[i].kind.as_str()) {
                    found = Some((node.children[i].start, node.children[i].end));
                    proof {
                        lemma_first_identifier_stable(ns, i + 1, ns.len() as int);
                    }
                } else {
                    i += 1;
                }
            }
            found
        },
    };
    match range {
        Some((a, b)) => match get_byte_range(source, offsets, a, b) {
            Some(t) => Some(string_of(&t)),
            None => None,
        },
        None => None,
    }
}

/// The label of a declaration node.
fn declaration_label(node: &SyntaxNode, fallback: &str, source: &[char], offsets: &Vec<u128>) -> (r:
    String)
    requires
        offsets@.len() == source@.len() + 1,
        forall|k: int| 0 <= k <= source@.len() ==> offsets@[k] == crate::text::byte_offset(source@, k),
    ensures
        r@ == declaration_label_of(source@, *node, fallback@),
{
    let t = match node.kind_field {
        None => return fallback.to_string(),
        Some((a, b)) => match get_byte_range(source, offsets, a, b) {
            Some(t) => t,
            None => return fallback.to_string(),
        },
    };
    let label = if chars_eq(&t, &chars_of("actor")) {
        "Actor"
    } else if chars_eq(&t, &chars_of("class")) {
        "Class"
    } else if chars_eq(&t, &chars_of("enum")) {
        "Enum"
    } else if chars_eq(&t, &chars_of("extension")) {
        "Extension"
    } else if chars_eq(&t, &chars_of("protocol")) {
        "Protocol"
    } else if chars_eq(&t, &chars_of("struct")) {
        "Struct"
    } else {
        fallback
    };
    label.to_string()
}

/// Appends the declarations of `node` and its descendants, in document
/// order. Returns false, with the output cut short, once `cancel` is seen
/// cancelled.
pub fn collect_declarations(
    node: &SyntaxNode,
    source: &[char],
    offsets: &Vec<u128>,
    kinds: &Vec<(&'static str, &'static str)>,
    cancel: &crate::search::Cancel,
    out: &mut Vec<Declaration>,
) -> (r: bool)
    requires
        offsets@.len() == source@.len() + 1,
        forall|k: int| 0 <= k <= source@.len() ==> offsets@[k] == crate::text::byte_offset(source@, k),
        rows_fit(*node),
    ensures
        r ==> declarations_view(final(out)@) == declarations_view(old(out)@) + declarations_in(
            source@,
            kinds_view(kinds@),
            *node,
        ),
        !r ==> exists|p: Seq<DeclarationView>|
            p.is_prefix_of(declarations_in(source@, kinds_view(kinds@), *node))
                && declarations_view(final(out)@) == declarations_view(old(out)@) + p,
    decreases node,
{
    if cancel.is_cancelled() {
        assert(Seq::<DeclarationView>::empty().is_prefix_of(declarations_in(source@, kinds_view(kinds@), *node)));
        assert(declarations_view(out@) =~= declarations_view(out@) + Seq::<DeclarationView>::empty());
        return false;
    }
    let ghost kv = kinds_view(kinds@);
    let ghost start = declarations_view(out@);
    if let Some(label) = find_kind(kinds, node.kind.as_str()) {
        if let Some(name) = declaration_name(node, source, offsets) {
            let kind = declaration_label(node, label, source, offsets);
            out.push(Declaration { name, kind, line: node.row + 1 });
        }
    }
    let ghost own = own_declaration(source@, kv, *node);
    assert(declarations_view(out@) =~= start + own);
    proof {
        lemma_rows_fit_all(node.children@);
    }
    let mut i: usize = 0;
    let ghost ns = node.children@;
    assert(ns.take(0) =~= Seq::<SyntaxNode>::empty());
    while i < node.children.len()
        invariant
            i <= node.children@.len(),
            ns == node.children@,
            kv == kinds_view(kinds@),
            offsets@.len() == source@.len() + 1,
            forall|k: int| 0 <= k <= source@.len() ==> offsets@[k] == crate::text::byte_offset(source@, k),
            forall|j: int| 0 <= j < ns.len() ==> rows_fit(#[trigger] ns[j]),
            declarations_view(out@) == start + own + declarations_in_all(source@, kv, ns.take(i as int)),
            start == declarations_view(old(out)@),
            own == own_declaration(source@, kv, *node),
        decreases node.children@.len() - i,
    {
        assert(ns.take(i + 1).drop_last() =~= ns.take(i as int));
        assert(ns.take(i + 1).last() == ns[i as int]);
        assert(decreases_to!(node => node.children));
        let ghost before_child = declarations_view(out@);
        if !collect_declarations(&node.children[i], source, offsets, kinds, cancel, out) {
            proof {
                let pc = choose|p: Seq<DeclarationView>|
                    p.is_prefix_of(declarations_in(source@, kv, ns[i as int]))
                        && declarations_view(out@) == before_child + p;
                let whole = declarations_in(source@, kv, *node);
                let got = own + declarations_in_all(source@, kv, ns.take(i as int)) + pc;
                lemma_all_prefix(source@, kv, ns, i + 1);
                assert(declarations_in_all(source@, kv, ns.take(i + 1)) == declarations_in_all(
                    source@,
                    kv,
                    ns.take(i as int),
                ) + declarations_in(source@, kv, ns[i as int]));
                assert(ns.take(ns.len() as int) =~= ns);
                assert(whole == own + declarations_in_all(source@, kv, ns)) by {
                    reveal_with_fuel(declarations_in, 2);
                }
                let a = declarations_in_all(source@, kv, ns.take(i + 1));
                let b = declarations_in_all(source@, kv, ns);
                let full_i = own + a;
                assert(a.is_prefix_of(b));
                assert(got.len() <= full_i.len());
                assert forall|q: int| 0 <= q < got.len() implies got[q] == whole[q] by {
                    assert(got[q] == full_i[q]);
                    if q < own.len() {
                        assert(full_i[q] == own[q]);
                        assert(whole[q] == own[q]);
                    } else {
                        assert(full_i[q] == a[q - own.len()]);
                        assert(a[q - own.len()] == b[q - own.len()]);
                        assert(whole[q] == b[q - own.len()]);
                    }
                }
                assert(got.is_prefix_of(whole));
                assert(declarations_view(out@) =~= start + got);
                assert(start == declarations_view(old(out)@));
                assert(got.is_prefix_of(declarations_in(source@, kinds_view(kinds@), *node))
                    && declarations_view(out@) == declarations_view(old(out)@) + got);
            }
            return false;
        }
        assert(declarations_view(out@) =~= start + own + declarations_in_all(source@, kv, ns.take(i + 1)));
        i += 1;
    }
    assert(ns.take(ns.len() as int) =~= ns);
    true
}

/// The grammar a file's declarations are read with, by exact extension.
pub open spec fn declaration_language_of(e: Option<Seq<char>>) -> Option<Lang> {
    match e {
        Some(x) => if x == "rs"@ {
            Some(Lang::Rust)
        } else if x == "swift"@ {
            Some(Lang::Swift)
        } else if x == "py"@ || x == "pyi"@ || x == "pyw"@ {
            Some(Lang::Python)
        } else if x == "js"@ || x == "jsx"@ || x == "mjs"@ || x == "cjs"@ {
            Some(Lang::JavaScript)
        } else if x == "ts"@ || x == "mts"@ || x == "cts"@ {
            Some(Lang::TypeScript)
        } else if x == "tsx"@ {
            Some(Lang::Tsx)
        } else if x == "sh"@ || x == "bash"@ || x == "zsh"@ {
            Some(Lang::Bash)
        } else {
            None
        },
        None => None,
    }
}

/// Which grammar a file's declarations are read with, by its extension:
/// Rust for `rs`; Swift for `swift`; Python for `py`, `pyi`, `pyw`;
/// JavaScript for `js`, `jsx`, `mjs`, `cjs`; TypeScript for `ts`, `mts`,
/// `cts`; TSX for `tsx`; Bash for `sh`, `bash`, `zsh`. A path without an
/// extension, or with any other one, has no declarations.
pub proof fn lemma_declaration_languages(path: Seq<char>)
    ensures
        extension(path) == Some("rs"@) ==> declaration_language_of(extension(path)) == Some(Lang::Rust),
        extension(path) == Some("swift"@) ==> declaration_language_of(extension(path)) == Some(Lang::Swift),
        extension(path) == Some("py"@) ==> declaration_language_of(extension(path)) == Some(Lang::Python),
        extension(path) == Some("pyi"@) ==> declaration_language_of(extension(path)) == Some(Lang::Python),
        extension(path) == Some("pyw"@) ==> declaration_language_of(extension(path)) == Some(Lang::Python),
        extension(path) == Some("js"@) ==> declaration_language_of(extension(path)) == Some(Lang::JavaScript),
        extension(path) == Some("jsx"@) ==> declaration_language_of(extension(path)) == Some(Lang::JavaScript),
        extension(path) == Some("mjs"@) ==> declaration_language_of(extension(path)) == Some(Lang::JavaScript),
        extension(path) == Some("cjs"@) ==> declaration_language_of(extension(path)) == Some(Lang::JavaScript),
        extension(path) == Some("ts"@) ==> declaration_language_of(extension(path)) == Some(Lang::TypeScript),
        extension(path) == Some("mts"@) ==> declaration_language_of(extension(path)) == Some(Lang::TypeScript),
        extension(path) == Some("cts"@) ==> declaration_language_of(extension(path)) == Some(Lang::TypeScript),
        extension(path) == Some("tsx"@) ==> declaration_language_of(extension(path)) == Some(Lang::Tsx),
        extension(path) == Some("sh"@) ==> declaration_language_of(extension(path)) == Some(Lang::Bash),
        extension(path) == Some("bash"@) ==> declaration_language_of(extension(path)) == Some(Lang::Bash),
        extension(path) == Some("zsh"@) ==> declaration_language_of(extension(path)) == Some(Lang::Bash),
        extension(path) is None ==> declaration_language_of(extension(path)) is None,
        (extension(path) matches Some(e) && e != "rs"@ && e != "swift"@ && e != "py"@ && e != "pyi"@
            && e != "pyw"@ && e != "js"@ && e != "jsx"@ && e != "mjs"@ && e != "cjs"@ && e != "ts"@
            && e != "mts"@ && e != "cts"@ && e != "tsx"@ && e != "sh"@ && e != "bash"@ && e != "zsh"@)
            ==> declaration_language_of(extension(path)) is None,
{
    reveal_strlit("rs");
    reveal_strlit("swift");
    reveal_strlit("py");
    reveal_strlit("pyi");
    reveal_strlit("pyw");
    reveal_strlit("js");
    reveal_strlit("jsx");
    reveal_strlit("mjs");
    reveal_strlit("cjs");
    reveal_strlit("ts");
    reveal_strlit("mts");
    reveal_strlit("cts");
    reveal_strlit("tsx");
    reveal_strlit("sh");
    reveal_strlit("bash");
    reveal_strlit("zsh");
    assert("swift"@ != "rs"@) by { assert("swift"@.len() != "rs"@.len()); }
    assert("py"@ != "rs"@) by { assert("py"@[0] != "rs"@[0]); }
    assert("py"@ != "swift"@) by { assert("py"@.len() != "swift"@.len()); }
    assert("pyi"@ != "rs"@) by { assert("pyi"@.len() != "rs"@.len()); }
    assert("pyi"@ != "swift"@) by { assert("pyi"@.len() != "swift"@.len()); }
    assert("pyi"@ != "py"@) by { assert("pyi"@.len() != "py"@.len()); }
    assert("pyw"@ != "rs"@) by { assert("pyw"@.len() != "rs"@.len()); }
    assert("pyw"@ != "swift"@) by { assert("pyw"@.len() != "swift"@.len()); }
    assert("pyw"@ != "py"@) by { assert("pyw"@.len() != "py"@.len()); }
    assert("pyw"@ != "pyi"@) by { assert("pyw"@[2] != "pyi"@[2]); }
    assert("js"@ != "rs"@) by { assert("js"@[0] != "rs"@[0]); }
    assert("js"@ != "swift"@) by { assert("js"@.len() != "swift"@.len()); }
    assert("js"@ != "py"@) by { assert("js"@[0] != "py"@[0]); }
    assert("js"@ != "pyi"@) by { assert("js"@.len() != "pyi"@.len()); }
    assert("js"@ != "pyw"@) by { assert("js"@.len() != "pyw"@.len()); }
    assert("jsx"@ != "rs"@) by { assert("jsx"@.len() != "rs"@.len()); }
    assert("jsx"@ != "swift"@) by { assert("jsx"@.len() != "swift"@.len()); }
    assert("jsx"@ != "py"@) by { assert("jsx"@.len() != "py"@.len()); }
    assert("jsx"@ != "pyi"@) by { assert("jsx"@[0] != "pyi"@[0]); }
    assert("jsx"@ != "pyw"@) by { assert("jsx"@[0] != "pyw"@[0]); }
    assert("jsx"@ != "js"@) by { assert("jsx"@.len() != "js"@.len()); }
    assert("mjs"@ != "rs"@) by { assert("mjs"@.len() != "rs"@.len()); }
    assert("mjs"@ != "swift"@) by { assert("mjs"@.len() != "swift"@.len()); }
    assert("mjs"@ != "py"@) by { assert("mjs"@.len() != "py"@.len()); }
    assert("mjs"@ != "pyi"@) by { assert("mjs"@[0] != "pyi"@[0]); }
    assert("mjs"@ != "pyw"@) by { assert("mjs"@[0] != "pyw"@[0]); }
    assert("mjs"@ != "js"@) by { assert("mjs"@.len() != "js"@.len()); }
    assert("mjs"@ != "jsx"@) by { assert("mjs"@[0] != "jsx"@[0]); }
    assert("cjs"@ != "rs"@) by { assert("cjs"@.len() != "rs"@.len()); }
    assert("cjs"@ != "swift"@) by { assert("cjs"@.len() != "swift"@.len()); }
    assert("cjs"@ != "py"@) by { assert("cjs"@.len() != "py"@.len()); }
    assert("cjs"@ != "pyi"@) by { assert("cjs"@[0] != "pyi"@[0]); }
    assert("cjs"@ != "pyw"@) by { assert("cjs"@[0] != "pyw"@[0]); }
    assert("cjs"@ != "js"@) by { assert("cjs"@.len() != "js"@.len()); }
    assert("cjs"@ != "jsx"@) by { assert("cjs"@[0] != "jsx"@[0]); }
    assert("cjs"@ != "mjs"@) by { assert("cjs"@[0] != "mjs"@[0]); }
    assert("ts"@ != "rs"@) by { assert("ts"@[0] != "rs"@[0]); }
    assert("ts"@ != "swift"@) by { assert("ts"@.len() != "swift"@.len()); }
    assert("ts"@ != "py"@) by { assert("ts"@[0] != "py"@[0]); }
    assert("ts"@ != "pyi"@) by { assert("ts"@.len() != "pyi"@.len()); }
    assert("ts"@ != "pyw"@) by { assert("ts"@.len() != "pyw"@.len()); }
    assert("ts"@ != "js"@) by { assert("ts"@[0] != "js"@[0]); }
    assert("ts"@ != "jsx"@) by { assert("ts"@.len() != "jsx"@.len()); }
    assert("ts"@ != "mjs"@) by { assert("ts"@.len() != "mjs"@.len()); }
    assert("ts"@ != "cjs"@) by { assert("ts"@.len() != "cjs"@.len()); }
    assert("mts"@ != "rs"@) by { assert("mts"@.len() != "rs"@.len()); }
    assert("mts"@ != "swift"@) by { assert("mts"@.len() != "swift"@.len()); }
    assert("mts"@ != "py"@) by { assert("mts"@.len() != "py"@.len()); }
    assert("mts"@ != "pyi"@) by { assert("mts"@[0] != "pyi"@[0]); }
    assert("mts"@ != "pyw"@) by { assert("mts"@[0] != "pyw"@[0]); }
    assert("mts"@ != "js"@) by { assert("mts"@.len() != "js"@.len()); }
    assert("mts"@ != "jsx"@) by { assert("mts"@[0] != "jsx"@[0]); }
    assert("mts"@ != "mjs"@) by { assert("mts"@[1] != "mjs"@[1]); }
    assert("mts"@ != "cjs"@) by { assert("mts"@[0] != "cjs"@[0]); }
    assert("mts"@ != "ts"@) by { assert("mts"@.len() != "ts"@.len()); }
    assert("cts"@ != "rs"@) by { assert("cts"@.len() != "rs"@.len()); }
    assert("cts"@ != "swift"@) by { assert("cts"@.len() != "swift"@.len()); }
    assert("cts"@ != "py"@) by { assert("cts"@.len() != "py"@.len()); }
    assert("cts"@ != "pyi"@) by { assert("cts"@[0] != "pyi"@[0]); }
    assert("cts"@ != "pyw"@) by { assert("cts"@[0] != "pyw"@[0]); }
    assert("cts"@ != "js"@) by { assert("cts"@.len() != "js"@.len()); }
    assert("cts"@ != "jsx"@) by { assert("cts"@[0] != "jsx"@[0]); }
    assert("cts"@ != "mjs"@) by { assert("cts"@[0] != "mjs"@[0]); }
    assert("cts"@ != "cjs"@) by { assert("cts"@[1] != "cjs"@[1]); }
    assert("cts"@ != "ts"@) by { assert("cts"@.len() != "ts"@.len()); }
    assert("cts"@ != "mts"@) by { assert("cts"@[0] != "mts"@[0]); }
    assert("tsx"@ != "rs"@) by { assert("tsx"@.len() != "rs"@.len()); }
    assert("tsx"@ != "swift"@) by { assert("tsx"@.len() != "swift"@.len()); }
    assert("tsx"@ != "py"@) by { assert("tsx"@.len() != "py"@.len()); }
    assert("tsx"@ != "pyi"@) by { assert("tsx"@[0] != "pyi"@[0]); }
    assert("tsx"@ != "pyw"@) by { assert("tsx"@[0] != "pyw"@[0]); }
    assert("tsx"@ != "js"@) by { assert("tsx"@.len() != "js"@.len()); }
    assert("tsx"@ != "jsx"@) by { assert("tsx"@[0] != "jsx"@[0]); }
    assert("tsx"@ != "mjs"@) by { assert("tsx"@[0] != "mjs"@[0]); }
    assert("tsx"@ != "cjs"@) by { assert("tsx"@[0] != "cjs"@[0]); }
    assert("tsx"@ != "ts"@) by { assert("tsx"@.len() != "ts"@.len()); }
    assert("tsx"@ != "mts"@) by { assert("tsx"@[0] != "mts"@[0]); }
    assert("tsx"@ != "cts"@) by { assert("tsx"@[0] != "cts"@[0]); }
    assert("sh"@ != "rs"@) by { assert("sh"@[0] != "rs"@[0]); }
    assert("sh"@ != "swift"@) by { assert("sh"@.len() != "swift"@.len()); }
    assert("sh"@ != "py"@) by { assert("sh"@[0] != "py"@[0]); }
    assert("sh"@ != "pyi"@) by { assert("sh"@.len() != "pyi"@.len()); }
    assert("sh"@ != "pyw"@) by { assert("sh"@.len() != "pyw"@.len()); }
    assert("sh"@ != "js"@) by { assert("sh"@[0] != "js"@[0]); }
    assert("sh"@ != "jsx"@) by { assert("sh"@.len() != "jsx"@.len()); }
    assert("sh"@ != "mjs"@) by { assert("sh"@.len() != "mjs"@.len()); }
    assert("sh"@ != "cjs"@) by { assert("sh"@.len() != "cjs"@.len()); }
    assert("sh"@ != "ts"@) by { assert("sh"@[0] != "ts"@[0]); }
    assert("sh"@ != "mts"@) by { assert("sh"@.len() != "mts"@.len()); }
    assert("sh"@ != "cts"@) by { assert("sh"@.len() != "cts"@.len()); }
    assert("sh"@ != "tsx"@) by { assert("sh"@.len() != "tsx"@.len()); }
    assert("bash"@ != "rs"@) by { assert("bash"@.len() != "rs"@.len()); }
    assert("bash"@ != "swift"@) by { assert("bash"@.len() != "swift"@.len()); }
    assert("bash"@ != "py"@) by { assert("bash"@.len() != "py"@.len()); }
    assert("bash"@ != "pyi"@) by { assert("bash"@.len() != "pyi"@.len()); }
    assert("bash"@ != "pyw"@) by { assert("bash"@.len() != "pyw"@.len()); }
    assert("bash"@ != "js"@) by { assert("bash"@.len() != "js"@.len()); }
    assert("bash"@ != "jsx"@) by { assert("bash"@.len() != "jsx"@.len()); }
    assert("bash"@ != "mjs"@) by { assert("bash"@.len() != "mjs"@.len()); }
    assert("bash"@ != "cjs"@) by { assert("bash"@.len() != "cjs"@.len()); }
    assert("bash"@ != "ts"@) by { assert("bash"@.len() != "ts"@.len()); }
    assert("bash"@ != "mts"@) by { assert("bash"@.len() != "mts"@.len()); }
    assert("bash"@ != "cts"@) by { assert("bash"@.len() != "cts"@.len()); }
    assert("bash"@ != "tsx"@) by { assert("bash"@.len() != "tsx"@.len()); }
    assert("bash"@ != "sh"@) by { assert("bash"@.len() != "sh"@.len()); }
    assert("zsh"@ != "rs"@) by { assert("zsh"@.len() != "rs"@.len()); }
    assert("zsh"@ != "swift"@) by { assert("zsh"@.len() != "swift"@.len()); }
    assert("zsh"@ != "py"@) by { assert("zsh"@.len() != "py"@.len()); }
    assert("zsh"@ != "pyi"@) by { assert("zsh"@[0] != "pyi"@[0]); }
    assert("zsh"@ != "pyw"@) by { assert("zsh"@[0] != "pyw"@[0]); }
    assert("zsh"@ != "js"@) by { assert("zsh"@.len() != "js"@.len()); }
    assert("zsh"@ != "jsx"@) by { assert("zsh"@[0] != "jsx"@[0]); }
    assert("zsh"@ != "mjs"@) by { assert("zsh"@[0] != "mjs"@[0]); }
    assert("zsh"@ != "cjs"@) by { assert("zsh"@[0] != "cjs"@[0]); }
    assert("zsh"@ != "ts"@) by { assert("zsh"@.len() != "ts"@.len()); }
    assert("zsh"@ != "mts"@) by { assert("zsh"@[0] != "mts"@[0]); }
    assert("zsh"@ != "cts"@) by { assert("zsh"@[0] != "cts"@[0]); }
    assert("zsh"@ != "tsx"@) by { assert("zsh"@[0] != "tsx"@[0]); }
    assert("zsh"@ != "sh"@) by { assert("zsh"@.len() != "sh"@.len()); }
    assert("zsh"@ != "bash"@) by { assert("zsh"@.len() != "bash"@.len()); }
}

/// The grammar declarations are read with, by the file's extension.
pub fn declaration_language(path: &str) -> (r: Option<Lang>)
    ensures
        r == declaration_language_of(extension(path@)),
{
    let e = match path_extension(path) {
        Some(e) => e,
        None => return None,
    };
    let is = |a: &str| -> (b: bool)
        ensures
            b == (e@ == a@),
        { chars_eq(&e, &chars_of(a)) };
    if is("rs") {
        Some(Lang::Rust)
    } else if is("swift") {
        Some(Lang::Swift)
    } else if is("py") || is("pyi") || is("pyw") {
        Some(Lang::Python)
    } else if is("js") || is("jsx") || is("mjs") || is("cjs") {
        Some(Lang::JavaScript)
    } else if is("ts") || is("mts") || is("cts") {
        Some(Lang::TypeScript)
    } else if is("tsx") {
        Some(Lang::Tsx)
    } else if is("sh") || is("bash") || is("zsh") {
        Some(Lang::Bash)
    } else {
        None
    }
}

/// The node kinds that declare something in a language, with their labels.
pub fn declaration_kinds(lang: Lang) -> (r: Vec<(&'static str, &'static str)>)
    ensures
        kinds_view(r@) == declaration_kinds_of(lang),
{
    let r: Vec<(&'static str, &'static str)> = match lang {
        Lang::Rust => vec![
            ("function_item", "Function"),
            ("struct_item", "Struct"),
            ("enum_item", "Enum"),
            ("trait_item", "Trait"),
            ("type_item", "Type"),
            ("const_item", "Constant"),
            ("static_item", "Static"),
            ("mod_item", "Module"),
            ("macro_definition", "Macro"),
        ],
        Lang::Swift => vec![
            ("function_declaration", "Function"),
            ("class_declaration", "Class"),
            ("protocol_declaration", "Protocol"),
            ("typealias_declaration", "Type"),
        ],
        Lang::Python => vec![("function_definition", "Function"), ("class_definition", "Class")],
        Lang::JavaScript => vec![
            ("function_declaration", "Function"),
            ("generator_function_declaration", "Function"),
            ("class_declaration", "Class"),
            ("method_definition", "Method"),
        ],
        Lang::TypeScript | Lang::Tsx => vec![
            ("function_declaration", "Function"),
            ("generator_function_declaration", "Function"),
            ("class_declaration", "Class"),
            ("method_definition", "Method"),
            ("interface_declaration", "Interface"),
            ("type_alias_declaration", "Type"),
            ("enum_declaration", "Enum"),
        ],
        Lang::Bash => vec![("function_definition", "Function")],
        _ => vec![],
    };
    assert(kinds_view(r@) =~= declaration_kinds_of(lang));
    r
}

pub open spec fn declaration_kinds_of(lang: Lang) -> Seq<(Seq<char>, Seq<char>)> {
    match lang {
        Lang::Rust => seq![
            ("function_item"@, "Function"@),
            ("struct_item"@, "Struct"@),
            ("enum_item"@, "Enum"@),
            ("trait_item"@, "Trait"@),
            ("type_item"@, "Type"@),
            ("const_item"@, "Constant"@),
            ("static_item"@, "Static"@),
            ("mod_item"@, "Module"@),
            ("macro_definition"@, "Macro"@),
        ],
        Lang::Swift => seq![
            ("function_declaration"@, "Function"@),
            ("class_declaration"@, "Class"@),
            ("protocol_declaration"@, "Protocol"@),
            ("typealias_declaration"@, "Type"@),
        ],
        Lang::Python => seq![("function_definition"@, "Function"@), ("class_definition"@, "Class"@)],
        Lang::JavaScript => seq![
            ("function_declaration"@, "Function"@),
            ("generator_function_declaration"@, "Function"@),
            ("class_declaration"@, "Class"@),
            ("method_definition"@, "Method"@),
        ],
        Lang::TypeScript | Lang::Tsx => seq![
            ("function_declaration"@, "Function"@),
            ("generator_function_declaration"@, "Function"@),
            ("class_declaration"@, "Class"@),
            ("method_definition"@, "Method"@),
            ("interface_declaration"@, "Interface"@),
            ("type_alias_declaration"@, "Type"@),
            ("enum_declaration"@, "Enum"@),
        ],
        Lang::Bash => seq![("function_definition"@, "Function"@)],
        _ => seq![],
    }
}


/// The declarations of the first `m` nodes lead those of all of them.
proof fn lemma_all_prefix(
    source: Seq<char>,
    kinds: Seq<(Seq<char>, Seq<char>)>,
    ns: Seq<SyntaxNode>,
    m: int,
)
    requires
        0 <= m <= ns.len(),
    ensures
        declarations_in_all(source, kinds, ns.take(m)).is_prefix_of(
            declarations_in_all(source, kinds, ns),
        ),
    decreases ns.len() - m,
{
    if m < ns.len() {
        lemma_all_prefix(source, kinds, ns, m + 1);
        assert(ns.take(m + 1).drop_last() =~= ns.take(m));
        assert(ns.take(m + 1).last() == ns[m]);
    } else {
        assert(ns.take(m) =~= ns);
    }
}


/// The syntax tree a fresh parse of `source` in the grammar of `lang`
/// gives, read as `SyntaxNode`s from the root.
pub uninterp spec fn syntax_tree_of(lang: Lang, source: Seq<char>) -> SyntaxNode;

/// The tree a parsed source gives, read as `SyntaxNode`s from the root:
/// each node's kind, start row, `name` and `declaration_kind` field ranges,
/// byte range and named children. For a tree parsed afresh (upon no
/// earlier tree), this is named `syntax_tree_of` its language and source.
#[verifier::external_body]
fn syntax_root(tree: &crate::highlight::ParsedTree) -> (r: SyntaxNode)
    ensures
        tree.history() == seq![tree.source()] ==> r == syntax_tree_of(tree.lang(), tree.source()),
{
    syntax_node(tree.tree_root())
}

/// One `tree_sitter::Node` read as a `SyntaxNode`, with its named
/// children.
#[verifier::external_body]
fn syntax_node(node: tree_sitter::Node) -> SyntaxNode {
    let range = |n: tree_sitter::Node| (n.start_byte(), n.end_byte());
    let mut cursor = node.walk();
    let children = node.named_children(&mut cursor).map(syntax_node).collect();
    SyntaxNode {
        kind: node.kind().to_string(),
        row: node.start_position().row,
        name_field: node.child_by_field_name("name").map(range),
        kind_field: node.child_by_field_name("declaration_kind").map(range),
        start: node.start_byte(),
        end: node.end_byte(),
        children,
    }
}

#[verifier::external_type_specification]
#[verifier::external_body]
pub struct ExTsNode<'a>(tree_sitter::Node<'a>);

/// Whether every row of a tree is below `usize::MAX`.
fn check_rows_fit(node: &SyntaxNode) -> (r: bool)
    ensures
        r == rows_fit(*node),
    decreases node,
{
    if node.row == usize::MAX {
        return false;
    }
    let mut i: usize = 0;
    let ghost ns = node.children@;
    assert(ns.take(0) =~= Seq::<SyntaxNode>::empty());
    while i < node.children.len()
        invariant
            i <= ns.len(),
            ns == node.children@,
            rows_fit_all(ns.take(i as int)),
        decreases ns.len() - i,
    {
        assert(decreases_to!(node => node.children));
        assert(ns.take(i + 1).drop_last() =~= ns.take(i as int));
        assert(ns.take(i + 1).last() == ns[i as int]);
        if !check_rows_fit(&node.children[i]) {
            proof {
                lemma_rows_fit_all_prefix(ns, i + 1);
            }
            return false;
        }
        i += 1;
    }
    assert(ns.take(ns.len() as int) =~= ns);
    true
}

proof fn lemma_rows_fit_all_prefix(ns: Seq<SyntaxNode>, m: int)
    requires
        0 < m <= ns.len(),
        !rows_fit(ns[m - 1]),
    ensures
        !rows_fit_all(ns),
    decreases ns.len(),
{
    if m < ns.len() {
        lemma_rows_fit_all_prefix(ns.drop_last(), m);
    } else {
        assert(ns.last() == ns[m - 1]);
    }
}

/// The grammar of a language the declaration walk reads.
fn declaration_grammar(lang: Lang) -> (r: Option<crate::highlight::Grammar>)
    ensures
        r is Some <==> declaration_kinds_of(lang).len() > 0,
        r matches Some(g) ==> g.lang() == lang,
{
    match lang {
        Lang::Rust => Some(crate::highlight::rust_grammar()),
        Lang::Swift => Some(crate::highlight::swift_grammar()),
        Lang::Python => Some(crate::highlight::python_grammar()),
        Lang::JavaScript => Some(crate::highlight::javascript_grammar()),
        Lang::TypeScript => Some(crate::highlight::typescript_grammar()),
        Lang::Tsx => Some(crate::highlight::tsx_grammar()),
        Lang::Bash => Some(crate::highlight::bash_grammar()),
        _ => None,
    }
}

/// What reading one file's declarations gave.
pub enum FileDeclarations {
    /// The file has no grammar, or its source would not parse.
    Skipped,
    /// The search was cancelled during the walk.
    Cancelled,
    /// The declarations, in document order.
    Found(Vec<Declaration>),
}

/// Parses a source with the grammar of `lang` and collects its
/// declarations, in document order; a cancelled walk stops at once. A file
/// is skipped when its language has no declaration kinds, its grammar does
/// not load, or a row of its tree does not fit a line number.
pub fn file_declarations(lang: Lang, source: &str, cancel: &crate::search::Cancel) -> (r:
    FileDeclarations)
    ensures
        declaration_kinds_of(lang).len() == 0 ==> r is Skipped,
        (r is Skipped) == (declaration_kinds_of(lang).len() == 0 || !crate::highlight::grammar_loads(
            lang,
        ) || !rows_fit(syntax_tree_of(lang, source@))),
        r matches FileDeclarations::Found(ds) ==> declarations_view(ds@) == declarations_in(
            source@,
            declaration_kinds_of(lang),
            syntax_tree_of(lang, source@),
        ),
{
    let grammar = match declaration_grammar(lang) {
        Some(g) => g,
        None => return FileDeclarations::Skipped,
    };
    let mut parser = match crate::highlight::load_grammar(crate::highlight::new_parser(), &grammar) {
        Some(p) => p,
        None => return FileDeclarations::Skipped,
    };
    let tree = match crate::highlight::parse_source(&mut parser, source, None) {
        Some(t) => t,
        None => return FileDeclarations::Skipped,
    };
    let root = syntax_root(&tree);
    if !check_rows_fit(&root) {
        return FileDeclarations::Skipped;
    }
    let chars = chars_of(source);
    let offsets = crate::text::byte_offsets(&chars);
    let kinds = declaration_kinds(lang);
    let mut out: Vec<Declaration> = Vec::new();
    if !collect_declarations(&root, &chars, &offsets, &kinds, cancel, &mut out) {
        return FileDeclarations::Cancelled;
    }
    assert(declarations_view(out@) =~= declarations_in(source@, declaration_kinds_of(lang), root));
    FileDeclarations::Found(out)
}

/// A result as contracts compare it: its text by view.
pub enum ResultView {
    File { relative: Seq<char>, absolute: Seq<char> },
    Symbol {
        name: Seq<char>,
        declaration: Seq<char>,
        relative: Seq<char>,
        absolute: Seq<char>,
        line: int,
    },
    Commit { short_hash: Seq<char>, subject: Seq<char>, author: Seq<char> },
}

pub open spec fn result_view(r: RepositoryResult) -> ResultView {
    match r {
        RepositoryResult::File { relative, absolute } => ResultView::File {
            relative: relative@,
            absolute: absolute@,
        },
        RepositoryResult::Symbol { name, declaration, relative, absolute, line } => ResultView::Symbol {
            name: name@,
            declaration: declaration@,
            relative: relative@,
            absolute: absolute@,
            line: line as int,
        },
        RepositoryResult::Commit { short_hash, subject, author } => ResultView::Commit {
            short_hash: short_hash@,
            subject: subject@,
            author: author@,
        },
    }
}

/// A scored result as (score, kind rank, result).
pub open spec fn scored_view(x: ScoredResult) -> (int, int, ResultView) {
    (x.score as int, x.kind_order as int, result_view(x.result))
}

/// The text a commit is matched by.
pub open spec fn commit_text(c: Commit) -> Seq<char> {
    c.short_hash@ + " "@ + c.subject@ + " "@ + c.author@
}

/// The scored files among the first `n`: each within the limit whose
/// relative path matches, in index order.
pub open spec fn file_hits(files: Seq<IndexedFile>, within: Seq<bool>, q: Seq<char>, n: int) -> Seq<
    (int, int, ResultView),
>
    decreases n,
{
    if n <= 0 {
        seq![]
    } else {
        let before = file_hits(files, within, q, n - 1);
        let f = files[n - 1];
        if within[n - 1] {
            match fuzzy_score_of(q, true, f.relative@) {
                Some(sc) => before.push(
                    (sc as int, 1int, ResultView::File { relative: f.relative@, absolute: f.absolute@ }),
                ),
                None => before,
            }
        } else {
            before
        }
    }
}

/// The scored commits among the first `n`, in order.
pub open spec fn commit_hits(commits: Seq<Commit>, q: Seq<char>, n: int) -> Seq<(int, int, ResultView)>
    decreases n,
{
    if n <= 0 {
        seq![]
    } else {
        let before = commit_hits(commits, q, n - 1);
        let c = commits[n - 1];
        match fuzzy_score_of(q, false, commit_text(c)) {
            Some(sc) => before.push(
                (
                    sc as int,
                    2int,
                    ResultView::Commit { short_hash: c.short_hash@, subject: c.subject@, author: c.author@ },
                ),
            ),
            None => before,
        }
    }
}

/// The text a declaration in a file is matched by.
pub open spec fn declaration_text(d: DeclarationView, relative: Seq<char>) -> Seq<char> {
    d.name + " "@ + d.kind + " "@ + relative
}

/// The scored declarations among the first `n` of a file, lifted by 8
/// (saturating); one whose text is longer than `u32::MAX` characters is
/// not scored.
pub open spec fn declaration_hits(
    ds: Seq<DeclarationView>,
    q: Seq<char>,
    f: IndexedFile,
    n: int,
) -> Seq<(int, int, ResultView)>
    decreases n,
{
    if n <= 0 {
        seq![]
    } else {
        let before = declaration_hits(ds, q, f, n - 1);
        let d = ds[n - 1];
        let t = declaration_text(d, f.relative@);
        if t.len() <= u32::MAX {
            match fuzzy_score_of(q, false, t) {
                Some(sc) => before.push(
                    (
                        if sc + 8 > u32::MAX {
                            u32::MAX as int
                        } else {
                            sc + 8
                        },
                        0int,
                        ResultView::Symbol {
                            name: d.name,
                            declaration: d.kind,
                            relative: f.relative@,
                            absolute: f.absolute@,
                            line: d.line,
                        },
                    ),
                ),
                None => before,
            }
        } else {
            before
        }
    }
}

/// The declarations a file brings: those of its source, when it is within
/// the limit, its extension names a grammar with declaration kinds, the
/// grammar loads and the rows of its tree fit.
pub open spec fn file_declaration_list(f: IndexedFile, within: bool, source: Option<String>) -> Seq<
    DeclarationView,
> {
    if !within {
        seq![]
    } else {
        match (declaration_language_of(extension(f.absolute@)), source) {
            (Some(lang), Some(src)) => if declaration_kinds_of(lang).len() > 0
                && crate::highlight::grammar_loads(lang) && rows_fit(syntax_tree_of(lang, src@)) {
                declarations_in(src@, declaration_kinds_of(lang), syntax_tree_of(lang, src@))
            } else {
                seq![]
            },
            _ => seq![],
        }
    }
}

/// The scored declarations of the first `n` files, file by file.
pub open spec fn symbol_hits(
    files: Seq<IndexedFile>,
    within: Seq<bool>,
    sources: Seq<Option<String>>,
    q: Seq<char>,
    n: int,
) -> Seq<(int, int, ResultView)>
    decreases n,
{
    if n <= 0 {
        seq![]
    } else {
        let ds = file_declaration_list(files[n - 1], within[n - 1], sources[n - 1]);
        symbol_hits(files, within, sources, q, n - 1) + declaration_hits(ds, q, files[n - 1], ds.len() as int)
    }
}

/// Everything a query scores: files, then commits, then declarations.
pub open spec fn all_hits(
    files: Seq<IndexedFile>,
    within: Seq<bool>,
    sources: Seq<Option<String>>,
    commits: Seq<Commit>,
    q: Seq<char>,
) -> Seq<(int, int, ResultView)> {
    file_hits(files, within, q, files.len() as int) + commit_hits(commits, q, commits.len() as int)
        + symbol_hits(files, within, sources, q, files.len() as int)
}

/// Quick Open over the file index and the commits. `within[i]` tells
/// whether file `i` is within the size limit and `sources[i]` is its text
/// when it could be read within that limit. A blank query lists the first
/// files within the limit; otherwise every file, commit and declaration
/// the trimmed query matches is scored and ranked. A cancelled search
/// gives nothing.
pub fn run(
    files: &Vec<IndexedFile>,
    within: &Vec<bool>,
    sources: &Vec<Option<String>>,
    commits: &Vec<Commit>,
    query: &str,
    cancel: &crate::search::Cancel,
) -> (r: Vec<RepositoryResult>)
    requires
        within@.len() == files@.len(),
        sources@.len() == files@.len(),
        forall|i: int| 0 <= i < files@.len() ==> (#[trigger] files@[i]).relative@.len() <= u32::MAX,
        forall|i: int| 0 <= i < commits@.len() ==> commit_text(#[trigger] commits@[i]).len() <= u32::MAX,
    ensures
        crate::text::trim(query@).len() == 0 ==> r@.len() == 0 || r@ == first_files_of(
            files@,
            within@,
            files@.len() as int,
        ),
        crate::text::trim(query@).len() > 0 ==> r@.len() == 0 || exists|all: Seq<ScoredResult>|
            all.map_values(|x: ScoredResult| scored_view(x)) == all_hits(
                files@,
                within@,
                sources@,
                commits@,
                crate::text::trim(query@),
            ) && #[trigger] ranked_results(all, r@),
{
    if cancel.is_cancelled() {
        return Vec::new();
    }
    let t = crate::text::trim_ws(&chars_of(query));
    if t.len() == 0 {
        return first_files(files, within);
    }
    let ghost q = t@;
    let pattern = FuzzyPattern::new(string_of(&t).as_str());
    let mut paths = FuzzyMatcher::new(true);
    let mut text = FuzzyMatcher::new(false);
    let mut all: Vec<ScoredResult> = Vec::new();
    let mut i: usize = 0;
    while i < files.len()
        invariant
            i <= files@.len(),
            within@.len() == files@.len(),
            pattern.query() == q,
            paths.paths(),
            forall|j: int| 0 <= j < files@.len() ==> (#[trigger] files@[j]).relative@.len() <= u32::MAX,
            all@.map_values(|x: ScoredResult| scored_view(x)) == file_hits(files@, within@, q, i as int),
        decreases files@.len() - i,
    {
        if within[i] {
            if cancel.is_cancelled() {
                return Vec::new();
            }
            let ghost before = all@;
            match score_file(&pattern, &mut paths, &files[i]) {
                Some(x) => {
                    all.push(x);
                    assert(all@.map_values(|x: ScoredResult| scored_view(x)) =~= before.map_values(
                        |x: ScoredResult| scored_view(x),
                    ).push(scored_view(x)));
                },
                None => {},
            }
        }
        i += 1;
    }
    let ghost fh = all@.map_values(|x: ScoredResult| scored_view(x));
    let mut c: usize = 0;
    while c < commits.len()
        invariant
            c <= commits@.len(),
            pattern.query() == q,
            !text.paths(),
            forall|j: int| 0 <= j < commits@.len() ==> commit_text(#[trigger] commits@[j]).len() <= u32::MAX,
            fh == file_hits(files@, within@, q, files@.len() as int),
            all@.map_values(|x: ScoredResult| scored_view(x)) == fh + commit_hits(commits@, q, c as int),
        decreases commits@.len() - c,
    {
        if cancel.is_cancelled() {
            return Vec::new();
        }
        let ghost before = all@;
        assert(commit_text(commits@[c as int]).len() <= u32::MAX);
        match score_commit(&pattern, &mut text, &commits[c]) {
            Some(x) => {
                all.push(x);
                assert(all@.map_values(|x: ScoredResult| scored_view(x)) =~= before.map_values(
                    |x: ScoredResult| scored_view(x),
                ).push(scored_view(x)));
            },
            None => {},
        }
        c += 1;
    }
    let ghost ch = fh + commit_hits(commits@, q, commits@.len() as int);
    let mut i: usize = 0;
    while i < files.len()
        invariant
            i <= files@.len(),
            within@.len() == files@.len(),
            sources@.len() == files@.len(),
            pattern.query() == q,
            !text.paths(),
            all@.map_values(|x: ScoredResult| scored_view(x)) == ch + symbol_hits(
                files@,
                within@,
                sources@,
                q,
                i as int,
            ),
        decreases files@.len() - i,
    {
        if cancel.is_cancelled() {
            return Vec::new();
        }
        let file = &files[i];
        let ghost dl = file_declaration_list(files@[i as int], within@[i as int], sources@[i as int]);
        let ghost base = all@.map_values(|x: ScoredResult| scored_view(x));
        if within[i] {
            if let Some(lang) = declaration_language(file.absolute.as_str()) {
                if let Some(src) = &sources[i] {
                    match file_declarations(lang, src.as_str(), cancel) {
                        FileDeclarations::Skipped => {},
                        FileDeclarations::Cancelled => {
                            return Vec::new();
                        },
                        FileDeclarations::Found(ds) => {
                            assert(declarations_view(ds@) == dl);
                            let mut k: usize = 0;
                            while k < ds.len()
                                invariant
                                    k <= ds@.len(),
                                    declarations_view(ds@) == dl,
                                    pattern.query() == q,
                                    !text.paths(),
                                    all@.map_values(|x: ScoredResult| scored_view(x)) == base
                                        + declaration_hits(dl, q, *file, k as int),
                                decreases ds@.len() - k,
                            {
                                if cancel.is_cancelled() {
                                    return Vec::new();
                                }
                                let d = &ds[k];
                                assert(dl[k as int] == d@);
                                let ghost before = all@;
                                let fits = chars_of(d.name.as_str()).len() as u128 + chars_of(
                                    d.kind.as_str(),
                                ).len() as u128 + chars_of(file.relative.as_str()).len() as u128 + 2
                                    <= u32::MAX as u128;
                                proof {
                                    assert(declaration_text(d@, file.relative@).len() == d.name@.len()
                                        + d.kind@.len() + file.relative@.len() + 2) by {
                                        reveal_strlit(" ");
                                    }
                                }
                                if fits {
                                    match score_declaration(&pattern, &mut text, d, file) {
                                        Some(x) => {
                                            all.push(x);
                                            assert(all@.map_values(|x: ScoredResult| scored_view(x))
                                                =~= before.map_values(|x: ScoredResult| scored_view(x)).push(
                                                scored_view(x),
                                            ));
                                        },
                                        None => {},
                                    }
                                }
                                k += 1;
                            }
                            assert(all@.map_values(|x: ScoredResult| scored_view(x)) == base
                                + declaration_hits(dl, q, *file, dl.len() as int));
                        },
                    }
                }
            }
        }
        proof {
            let f = files@[i as int];
            if dl.len() == 0 {
                assert(declaration_hits(dl, q, f, 0) =~= Seq::<(int, int, ResultView)>::empty());
                assert(all@.map_values(|x: ScoredResult| scored_view(x)) =~= base);
            }
            assert(all@.map_values(|x: ScoredResult| scored_view(x)) == base + declaration_hits(
                dl,
                q,
                f,
                dl.len() as int,
            ));
            assert(ch + symbol_hits(files@, within@, sources@, q, i + 1) =~= ch + symbol_hits(
                files@,
                within@,
                sources@,
                q,
                i as int,
            ) + declaration_hits(dl, q, f, dl.len() as int));
        }
        i += 1;
    }
    if cancel.is_cancelled() {
        return Vec::new();
    }
    let r = rank(all);
    r
}

} // verus!
