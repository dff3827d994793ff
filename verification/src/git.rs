//! Git state and the decisions around Git commands.
//!
//! The working-tree status and recent commits arrive as plain values; every
//! write is a `git` command line that this module builds and whose outcome
//! it interprets.
use vstd::prelude::*;

use crate::markdown::{join_with, lines, lines_of};
use crate::text::{
    append_chars, chars_of, decimal_chars, decimal_string, lemma_lex_strict, lemma_lex_trans,
    lex_less, lex_lt, string_of, trim, trim_ws,
};

verus! {

/// How a path changed.
#[derive(Clone, Copy, PartialEq, Eq, Debug)]
pub enum ChangeKind {
    Added,
    Modified,
    Deleted,
    Renamed,
    Untracked,
    Conflicted,
}

pub open spec fn short_of(k: ChangeKind) -> Seq<char> {
    match k {
        ChangeKind::Added => "A"@,
        ChangeKind::Modified => "M"@,
        ChangeKind::Deleted => "D"@,
        ChangeKind::Renamed => "R"@,
        ChangeKind::Untracked => "U"@,
        ChangeKind::Conflicted => "!"@,
    }
}

impl ChangeKind {
    /// The one-letter badge of a change row.
    pub fn short(self) -> (r: &'static str)
        ensures
            r@ == short_of(self),
    {
        match self {
            ChangeKind::Added => "A",
            ChangeKind::Modified => "M",
            ChangeKind::Deleted => "D",
            ChangeKind::Renamed => "R",
            ChangeKind::Untracked => "U",
            ChangeKind::Conflicted => "!",
        }
    }
}

/// One changed path.
#[derive(Clone, Debug)]
pub struct Change {
    pub path: String,
    pub kind: ChangeKind,
    pub staged: bool,
}

impl Change {
    /// A copy of this change.
    pub fn copy(&self) -> (r: Change)
        ensures
            r == *self,
    {
        Change { path: self.path.clone(), kind: self.kind, staged: self.staged }
    }
}

/// One entry in the recent-commit list.
#[derive(Clone, Debug)]
pub struct Commit {
    pub short_hash: String,
    pub subject: String,
    pub author: String,
    /// Seconds since the epoch, so the relative label is computed at render.
    pub seconds: i64,
}

/// The repository as the Git panel shows it.
#[derive(Clone, Debug)]
pub struct GitSnapshot {
    pub is_repo: bool,
    pub branch: String,
    pub head_short: String,
    pub staged: Vec<Change>,
    pub unstaged: Vec<Change>,
    pub commits: Vec<Commit>,
}

impl Default for GitSnapshot {
    /// The snapshot of a folder that is no repository.
    fn default() -> (r: GitSnapshot)
        ensures
            !r.is_repo,
            r.branch@.len() == 0,
            r.head_short@.len() == 0,
            r.staged@.len() == 0,
            r.unstaged@.len() == 0,
            r.commits@.len() == 0,
    {
        GitSnapshot {
            is_repo: false,
            branch: String::new(),
            head_short: String::new(),
            staged: Vec::new(),
            unstaged: Vec::new(),
            commits: Vec::new(),
        }
    }
}

pub open spec fn change_paths(cs: Seq<Change>) -> Seq<Seq<char>> {
    cs.map_values(|c: Change| c.path@)
}

/// The paths a snapshot lists, staged or not.
pub open spec fn changed_paths(s: GitSnapshot) -> Set<Seq<char>> {
    (change_paths(s.staged@) + change_paths(s.unstaged@)).to_set()
}

/// Adds the paths of `cs` not yet in `seen` to `seen`.
fn note_paths(seen: &mut Vec<Vec<char>>, cs: &Vec<Change>, Ghost(prior): Ghost<Seq<Seq<char>>>)
    requires
        old(seen)@.map_values(|v: Vec<char>| v@).no_duplicates(),
        old(seen)@.map_values(|v: Vec<char>| v@).to_set() == prior.to_set(),
    ensures
        final(seen)@.map_values(|v: Vec<char>| v@).no_duplicates(),
        final(seen)@.map_values(|v: Vec<char>| v@).to_set() == (prior + change_paths(cs@)).to_set(),
{
    let ghost all = prior + change_paths(cs@);
    let ghost np = prior.len();
    let mut i: usize = 0;
    assert(all.take(np as int) =~= prior);
    while i < cs.len()
        invariant
            all == prior + change_paths(cs@),
            np == prior.len(),
            i <= cs@.len(),
            seen@.map_values(|v: Vec<char>| v@).no_duplicates(),
            seen@.map_values(|v: Vec<char>| v@).to_set() == all.take(np + i).to_set(),
        decreases cs@.len() - i,
    {
        let path = chars_of(cs[i].path.as_str());
        assert(path@ == all[np + i]);
        let ghost sv = seen@.map_values(|v: Vec<char>| v@);
        let mut j: usize = 0;
        let mut found = false;
        while j < seen.len() && !found
            invariant
                j <= seen@.len(),
                sv == seen@.map_values(|v: Vec<char>| v@),
                found ==> sv.contains(path@),
                !found ==> forall|q: int| 0 <= q < j ==> sv[q] != path@,
            decreases seen@.len() - j + (if found {
                0int
            } else {
                1int
            }),
        {
            if crate::text::chars_eq(&seen[j], &path) {
                found = true;
                assert(sv[j as int] == path@);
            } else {
                j += 1;
            }
        }
        assert(all.take(np + i + 1) =~= all.take(np + i).push(all[np + i]));
        proof {
            all.take(np + i).lemma_push_to_set_commute(all[np + i]);
        }
        if !found {
            assert(!sv.contains(path@));
            seen.push(path);
            assert(seen@.map_values(|v: Vec<char>| v@) =~= sv.push(all[np + i]));
            proof {
                sv.lemma_push_to_set_commute(all[np + i]);
            }
        } else {
            assert(sv.to_set().contains(all[np + i]));
            assert(all.take(np + i).to_set().insert(all[np + i]) =~= all.take(np + i).to_set());
        }
        i += 1;
    }
    assert(all.take((np + cs@.len()) as int) =~= all);
}

impl GitSnapshot {
    /// How many distinct paths have changes; a path that is both staged and
    /// unstaged counts once.
    pub fn changed_count(&self) -> (r: usize)
        ensures
            r == changed_paths(*self).len(),
    {
        let mut seen: Vec<Vec<char>> = Vec::new();
        proof {
            Seq::<Seq<char>>::empty().unique_seq_to_set();
        }
        assert(seen@.map_values(|v: Vec<char>| v@) =~= Seq::<Seq<char>>::empty());
        note_paths(&mut seen, &self.staged, Ghost(Seq::<Seq<char>>::empty()));
        assert(Seq::<Seq<char>>::empty() + change_paths(self.staged@) =~= change_paths(self.staged@));
        note_paths(&mut seen, &self.unstaged, Ghost(change_paths(self.staged@)));
        proof {
            seen@.map_values(|v: Vec<char>| v@).unique_seq_to_set();
        }
        seen.len()
    }
}

/// The relative label of a commit `delta` seconds old.
pub open spec fn relative_label_of(delta: nat) -> Seq<char> {
    if delta < 60 {
        "just now"@
    } else if delta < 3600 {
        decimal_chars(delta / 60) + "m"@
    } else if delta < 86_400 {
        decimal_chars(delta / 3600) + "h"@
    } else if delta < 2_592_000 {
        decimal_chars(delta / 86_400) + "d"@
    } else {
        decimal_chars(delta / 2_592_000) + "mo"@
    }
}

/// A compact label for an age in seconds: "just now", minutes, hours,
/// days, then 30-day months.
pub fn relative_label(delta: u64) -> (r: String)
    ensures
        r@ == relative_label_of(delta as nat),
{
    if delta < 60 {
        return String::from_str("just now");
    }
    let (n, unit) = if delta < 3600 {
        (delta / 60, "m")
    } else if delta < 86_400 {
        (delta / 3600, "h")
    } else if delta < 2_592_000 {
        (delta / 86_400, "d")
    } else {
        (delta / 2_592_000, "mo")
    };
    let mut out = decimal_string(n);
    append_chars(&mut out, &chars_of(unit));
    string_of(&out)
}

/// Reads the system clock as whole seconds since the epoch; `None` when the
/// clock stands before it.
#[verifier::external_body]
fn clock_seconds() -> Option<u64> {
    std::time::SystemTime::now().duration_since(std::time::UNIX_EPOCH).ok().map(|d| d.as_secs())
}

/// The age in seconds of a commit made at `seconds` when the clock reads
/// `now` (as an `i64`); a commit dated in the future is no age at all, and
/// without a clock reading the commit counts as made now.
pub open spec fn age_of(seconds: i64, now: Option<u64>) -> nat {
    let n: int = match now {
        Some(n) => (n as i64) as int,
        None => seconds as int,
    };
    if n - seconds < 0 {
        0
    } else {
        (n - seconds) as nat
    }
}

/// The label of a commit made at `seconds`, when the clock reads `now`.
pub fn relative_time_at(seconds: i64, now: Option<u64>) -> (r: String)
    ensures
        r@ == relative_label_of(age_of(seconds, now)),
{
    let n: i128 = match now {
        Some(n) => {
            let wide: i64 = n as i64;
            wide as i128
        },
        None => seconds as i128,
    };
    let d: i128 = n - seconds as i128;
    let delta: u64 = if d < 0 {
        0
    } else {
        d as u64
    };
    relative_label(delta)
}

/// The age of a commit made at `seconds`, as `relative_label` words it,
/// against the system clock.
pub fn relative_time(seconds: i64) -> (r: String)
    ensures
        exists|now: Option<u64>| r@ == relative_label_of(age_of(seconds, now)),
{
    let now = clock_seconds();
    relative_time_at(seconds, now)
}

/// A `git` invocation: its arguments after `git`, run in the workspace.
pub open spec fn args_view(a: Seq<String>) -> Seq<Seq<char>> {
    a.map_values(|s: String| s@)
}

/// `git add -- <path>`.
pub fn stage(path: &str) -> (r: Vec<String>)
    ensures
        args_view(r@) == seq!["add"@, "--"@, path@],
{
    let r = vec![String::from_str("add"), String::from_str("--"), path.to_string()];
    assert(args_view(r@) =~= seq!["add"@, "--"@, path@]);
    r
}

/// `git restore --staged -- <path>`.
pub fn unstage(path: &str) -> (r: Vec<String>)
    ensures
        args_view(r@) == seq!["restore"@, "--staged"@, "--"@, path@],
{
    let r = vec![
        String::from_str("restore"),
        String::from_str("--staged"),
        String::from_str("--"),
        path.to_string(),
    ];
    assert(args_view(r@) =~= seq!["restore"@, "--staged"@, "--"@, path@]);
    r
}

/// `git add -A`.
pub fn stage_all() -> (r: Vec<String>)
    ensures
        args_view(r@) == seq!["add"@, "-A"@],
{
    let r = vec![String::from_str("add"), String::from_str("-A")];
    assert(args_view(r@) =~= seq!["add"@, "-A"@]);
    r
}

/// `git diff --no-color [--staged] -- <path>`.
pub fn diff_args(path: &str, staged: bool) -> (r: Vec<String>)
    ensures
        args_view(r@) == (if staged {
            seq!["diff"@, "--no-color"@, "--staged"@, "--"@, path@]
        } else {
            seq!["diff"@, "--no-color"@, "--"@, path@]
        }),
{
    let mut r = vec![String::from_str("diff"), String::from_str("--no-color")];
    if staged {
        r.push(String::from_str("--staged"));
    }
    r.push(String::from_str("--"));
    r.push(path.to_string());
    assert(args_view(r@) =~= (if staged {
        seq!["diff"@, "--no-color"@, "--staged"@, "--"@, path@]
    } else {
        seq!["diff"@, "--no-color"@, "--"@, path@]
    }));
    r
}

/// Where the stage-commit-push sequence stands.
#[derive(Clone, Copy, PartialEq, Eq, Debug)]
pub enum CommitStage {
    Staging,
    Committing,
    Pushing,
}

/// What the sequence asks for next: a `git` run, or its final answer.
#[derive(Debug)]
pub enum CommitAction {
    Run(CommitStage, Vec<String>),
    Finish(Result<String, String>),
}

pub enum CommitActionView {
    Run(CommitStage, Seq<Seq<char>>),
    Finish(Result<Seq<char>, Seq<char>>),
}

impl View for CommitAction {
    type V = CommitActionView;

    open spec fn view(&self) -> CommitActionView {
        match self {
            CommitAction::Run(s, a) => CommitActionView::Run(*s, args_view(a@)),
            CommitAction::Finish(Ok(m)) => CommitActionView::Finish(Ok(m@)),
            CommitAction::Finish(Err(m)) => CommitActionView::Finish(Err(m@)),
        }
    }
}

/// The first step of committing with `subject`.
pub open spec fn commit_start(subject: Seq<char>) -> CommitActionView {
    if trim(subject).len() == 0 {
        CommitActionView::Finish(Err("commit subject is empty"@))
    } else {
        CommitActionView::Run(CommitStage::Staging, seq!["add"@, "-A"@])
    }
}

/// The step after a `git` run at `stage` ended in `outcome` (its output, or
/// its error text).
pub open spec fn commit_next(
    stage: CommitStage,
    subject: Seq<char>,
    outcome: Result<Seq<char>, Seq<char>>,
) -> CommitActionView {
    match (stage, outcome) {
        (CommitStage::Staging, Ok(_)) => CommitActionView::Run(
            CommitStage::Committing,
            seq!["commit"@, "-m"@, subject],
        ),
        (CommitStage::Staging, Err(e)) => CommitActionView::Finish(Err(e)),
        (CommitStage::Committing, Ok(_)) => CommitActionView::Run(
            CommitStage::Pushing,
            seq!["push"@],
        ),
        (CommitStage::Committing, Err(e)) => CommitActionView::Finish(
            Err("commit failed: "@ + e),
        ),
        (CommitStage::Pushing, Ok(_)) => CommitActionView::Finish(Ok("committed and pushed"@)),
        (CommitStage::Pushing, Err(e)) => CommitActionView::Finish(
            Ok("committed; push failed: "@ + trim(e)),
        ),
    }
}

/// Stages everything, commits with `subject`, then pushes the current
/// branch: the first step. A blank subject is refused before any `git`
/// run. The caller runs each `Run` and hands its outcome to `commit_step`.
pub fn commit_and_push(subject: &str) -> (r: CommitAction)
    ensures
        r@ == commit_start(subject@),
{
    let chars = chars_of(subject);
    let t = trim_ws(&chars);
    if t.len() == 0 {
        return CommitAction::Finish(Err(String::from_str("commit subject is empty")));
    }
    let args = stage_all();
    CommitAction::Run(CommitStage::Staging, args)
}

/// The step after the `git` run at `stage` ended in `outcome`.
pub fn commit_step(stage: CommitStage, subject: &str, outcome: Result<String, String>) -> (r:
    CommitAction)
    ensures
        r@ == commit_next(
            stage,
            subject@,
            match outcome {
                Ok(o) => Ok(o@),
                Err(e) => Err(e@),
            },
        ),
{
    match (stage, outcome) {
        (CommitStage::Staging, Ok(_)) => {
            let r = vec![String::from_str("commit"), String::from_str("-m"), subject.to_string()];
            assert(args_view(r@) =~= seq!["commit"@, "-m"@, subject@]);
            CommitAction::Run(CommitStage::Committing, r)
        },
        (CommitStage::Staging, Err(e)) => CommitAction::Finish(Err(e)),
        (CommitStage::Committing, Ok(_)) => {
            let r = vec![String::from_str("push")];
            assert(args_view(r@) =~= seq!["push"@]);
            CommitAction::Run(CommitStage::Pushing, r)
        },
        (CommitStage::Committing, Err(e)) => {
            let mut m = chars_of("commit failed: ");
            append_chars(&mut m, &chars_of(e.as_str()));
            CommitAction::Finish(Err(string_of(&m)))
        },
        (CommitStage::Pushing, Ok(_)) => CommitAction::Finish(
            Ok(String::from_str("committed and pushed")),
        ),
        (CommitStage::Pushing, Err(e)) => {
            let mut m = chars_of("committed; push failed: ");
            append_chars(&mut m, &trim_ws(&chars_of(e.as_str())));
            CommitAction::Finish(Ok(string_of(&m)))
        },
    }
}

/// The diff shown for an untracked file: every line of its text as an
/// addition.
pub open spec fn untracked_diff_of(text: Seq<char>) -> Seq<char> {
    join_with(lines_of(text).map_values(|l: Seq<char>| seq!['+'] + l), '\n')
}

/// Prefixes each line of an untracked file's text with `+`.
pub fn untracked_diff(text: &str) -> (r: String)
    ensures
        r@ == untracked_diff_of(text@),
{
    let ls = lines(&chars_of(text));
    let ghost tv = lines_of(text@).map_values(|l: Seq<char>| seq!['+'] + l);
    let mut out: Vec<char> = Vec::new();
    let mut i: usize = 0;
    while i < ls.len()
        invariant
            i <= ls@.len(),
            ls@.len() == lines_of(text@).len(),
            tv == lines_of(text@).map_values(|l: Seq<char>| seq!['+'] + l),
            forall|k: int| 0 <= k < ls@.len() ==> #[trigger] ls@[k]@ == lines_of(text@)[k],
            out@ == join_with(tv.take(i as int), '\n'),
        decreases ls@.len() - i,
    {
        assert(tv.take(i + 1).drop_last() == tv.take(i as int));
        assert(tv.take(i + 1).last() == seq!['+'] + ls@[i as int]@);
        if i > 0 {
            out.push('\n');
        } else {
            assert(tv.take(1).len() == 1);
            assert(out@ =~= seq![]);
        }
        out.push('+');
        append_chars(&mut out, &ls[i]);
        if i == 0 {
            assert(out@ =~= join_with(tv.take(1), '\n'));
        } else {
            assert(out@ =~= join_with(tv.take(i as int), '\n') + seq!['\n'] + (seq!['+'] + ls@[i as int]@));
        }
        i += 1;
    }
    assert(tv.take(tv.len() as int) == tv);
    string_of(&out)
}

/// `changes` ordered by path (`str` order), as the Git panel lists them.
pub open spec fn sorted_by_path(changes: Seq<Change>) -> bool {
    forall|i: int, j: int|
        0 <= i < j < changes.len() ==> !lex_lt(changes[j].path@, changes[i].path@)
}

proof fn lemma_insert_multiset_change(s: Seq<Change>, p: int, x: Change)
    requires
        0 <= p <= s.len(),
    ensures
        s.insert(p, x).to_multiset() == s.to_multiset().insert(x),
{
    broadcast use vstd::seq_lib::group_to_multiset_ensures;

    let a = s.take(p);
    let b = s.skip(p);
    assert(s =~= a + b);
    assert(s.insert(p, x) =~= a.push(x) + b);
    vstd::seq_lib::lemma_multiset_commutative(a.push(x), b);
    vstd::seq_lib::lemma_multiset_commutative(a, b);
    assert(a.push(x).to_multiset() =~= a.to_multiset().insert(x));
    assert(a.to_multiset().insert(x).add(b.to_multiset()) =~= a.to_multiset().add(
        b.to_multiset(),
    ).insert(x));
}

/// The changes with the path of `x`.
pub open spec fn path_is(x: Change) -> spec_fn(Change) -> bool {
    |y: Change| y.path@ == x.path@
}

/// Orders changes by path, keeping the order of equal paths.
pub fn sort_changes(changes: Vec<Change>) -> (r: Vec<Change>)
    ensures
        r@.to_multiset() == changes@.to_multiset(),
        sorted_by_path(r@),
        forall|x: Change| #[trigger] r@.filter(path_is(x)) == changes@.filter(path_is(x)),
{
    let mut out: Vec<Change> = Vec::new();
    let mut names: Vec<Vec<char>> = Vec::new();
    let mut k: usize = 0;
    let mut rest = changes;
    let ghost all = rest@;
    assert(all.take(0) =~= Seq::<Change>::empty());
    while k < rest.len()
        invariant
            all == rest@,
            k <= rest@.len(),
            names@.len() == out@.len(),
            forall|i: int| 0 <= i < out@.len() ==> #[trigger] names@[i]@ == out@[i].path@,
            out@.to_multiset() == all.take(k as int).to_multiset(),
            sorted_by_path(out@),
            forall|z: Change| #[trigger] out@.filter(path_is(z)) == all.take(k as int).filter(path_is(z)),
        decreases rest@.len() - k,
    {
        let c = rest[k].copy();
        assert(c == all[k as int]);
        let name = chars_of(c.path.as_str());
        let mut p: usize = 0;
        while p < out.len() && !lex_less(&name, &names[p])
            invariant
                p <= out@.len(),
                names@.len() == out@.len(),
                name@ == c.path@,
                forall|i: int| 0 <= i < out@.len() ==> #[trigger] names@[i]@ == out@[i].path@,
                forall|i: int| 0 <= i < p ==> !lex_lt(c.path@, #[trigger] out@[i].path@),
            decreases out@.len() - p,
        {
            p += 1;
        }
        let ghost old_out = out@;
        let ghost old_names = names@;
        assert(p < old_out.len() ==> lex_lt(c.path@, old_out[p as int].path@));
        out.insert(p, c);
        names.insert(p, name);
        proof {
            lemma_insert_multiset_change(old_out, p as int, all[k as int]);
            assert(all.take(k + 1) =~= all.take(k as int).push(all[k as int]));
            all.take(k as int).to_multiset_ensures();
            assert forall|i: int| 0 <= i < out@.len() implies #[trigger] names@[i]@ == out@[i].path@ by {
                if i > p {
                    assert(out@[i] == old_out[i - 1]);
                    assert(names@[i] == old_names[i - 1]);
                } else if i < p {
                    assert(out@[i] == old_out[i]);
                    assert(names@[i] == old_names[i]);
                }
            }
            assert forall|z: Change| #[trigger] out@.filter(path_is(z)) == all.take(k + 1).filter(
                path_is(z),
            ) by {
                let f = path_is(z);
                let y = all[k as int];
                crate::repository_search::lemma_filter_insert(old_out, p as int, y, f);
                all.take(k as int).lemma_filter_push(y, f);
                if f(y) {
                    assert forall|j: int| p <= j < old_out.len() implies !f(#[trigger] old_out[j]) by {
                        if f(old_out[j]) {
                            assert(old_out[j].path@ == y.path@);
                            lemma_lex_strict(y.path@, y.path@);
                            if j > p {
                                assert(!lex_lt(old_out[j].path@, old_out[p as int].path@));
                            }
                        }
                    }
                }
            }
            assert forall|i: int, j: int| 0 <= i < j < out@.len() implies !lex_lt(
                out@[j].path@,
                out@[i].path@,
            ) by {
                let x = all[k as int].path@;
                if i < p && j == p {
                } else if i < p && j > p {
                    assert(out@[i] == old_out[i]);
                    assert(out@[j] == old_out[j - 1]);
                } else if i == p && j > p {
                    assert(out@[j] == old_out[j - 1]);
                    lemma_lex_strict(old_out[j - 1].path@, x);
                    if lex_lt(old_out[j - 1].path@, x) {
                        lemma_lex_trans(old_out[j - 1].path@, x, old_out[p as int].path@);
                    }
                } else if i > p {
                    assert(out@[i] == old_out[i - 1]);
                    assert(out@[j] == old_out[j - 1]);
                } else {
                    assert(out@[i] == old_out[i]);
                    assert(out@[j] == old_out[j]);
                }
            }
        }
        k += 1;
    }
    assert(all.take(all.len() as int) =~= all);
    out
}


/// What the index reports of a path against HEAD.
#[derive(Clone, Copy, Debug, PartialEq, Eq)]
pub enum IndexChange {
    Addition,
    Deletion,
    Modification,
    Rewrite,
}

/// What the working tree reports of a tracked path against the index.
#[derive(Clone, Copy, Debug, PartialEq, Eq)]
pub enum WorktreeEntry {
    Conflict,
    IntentToAdd,
    Other,
}

/// One item of a status walk, as far as the Git panel reads it.
pub enum StatusItem {
    /// A staged change.
    Index { path: String, change: IndexChange },
    /// A tracked path changed in the working tree.
    Modified { path: String, entry: WorktreeEntry },
    /// An untracked entry; `is_directory` also when its kind is unknown.
    Untracked { path: String, is_directory: bool },
    /// A path the working tree renamed.
    Renamed { path: String },
}

/// The staged change an item is, if it is one.
pub open spec fn staged_change(item: StatusItem) -> Option<Change> {
    match item {
        StatusItem::Index { path, change } => Some(
            Change {
                path,
                kind: match change {
                    IndexChange::Addition => ChangeKind::Added,
                    IndexChange::Deletion => ChangeKind::Deleted,
                    IndexChange::Modification => ChangeKind::Modified,
                    IndexChange::Rewrite => ChangeKind::Renamed,
                },
                staged: true,
            },
        ),
        _ => None,
    }
}

/// The unstaged change an item is, if it is one. An untracked directory is
/// none: nothing can be staged from it.
pub open spec fn unstaged_change(item: StatusItem) -> Option<Change> {
    match item {
        StatusItem::Modified { path, entry } => Some(
            Change {
                path,
                kind: match entry {
                    WorktreeEntry::Conflict => ChangeKind::Conflicted,
                    WorktreeEntry::IntentToAdd => ChangeKind::Added,
                    WorktreeEntry::Other => ChangeKind::Modified,
                },
                staged: false,
            },
        ),
        StatusItem::Untracked { path, is_directory } => if is_directory {
            None
        } else {
            Some(Change { path, kind: ChangeKind::Untracked, staged: false })
        },
        StatusItem::Renamed { path } => Some(
            Change { path, kind: ChangeKind::Renamed, staged: false },
        ),
        _ => None,
    }
}

/// The changes `pick` finds in the items, in walk order.
pub open spec fn picked_changes(items: Seq<StatusItem>, staged: bool) -> Seq<Change>
    decreases items.len(),
{
    if items.len() == 0 {
        Seq::empty()
    } else {
        let rest = picked_changes(items.drop_last(), staged);
        match (if staged {
            staged_change(items.last())
        } else {
            unstaged_change(items.last())
        }) {
            Some(c) => rest.push(c),
            None => rest,
        }
    }
}

proof fn lemma_picked_has(items: Seq<StatusItem>, staged: bool, i: int)
    requires
        0 <= i < items.len(),
    ensures
        (if staged {
            staged_change(items[i])
        } else {
            unstaged_change(items[i])
        }) matches Some(c) ==> picked_changes(items, staged).contains(c),
    decreases items.len(),
{
    let pick = if staged {
        staged_change(items[i])
    } else {
        unstaged_change(items[i])
    };
    if let Some(c) = pick {
        let rest = picked_changes(items.drop_last(), staged);
        if i == items.len() - 1 {
            assert(items.last() == items[i]);
            assert(rest.push(c)[rest.len() as int] == c);
        } else {
            assert(items.drop_last()[i] == items[i]);
            lemma_picked_has(items.drop_last(), staged, i);
            let j = choose|j: int| 0 <= j < rest.len() && rest[j] == c;
            let all = picked_changes(items, staged);
            assert(all[j] == c);
        }
    }
}

proof fn lemma_picked_from(items: Seq<StatusItem>, staged: bool, c: Change)
    requires
        picked_changes(items, staged).contains(c),
    ensures
        exists|i: int|
            0 <= i < items.len() && (if staged {
                staged_change(#[trigger] items[i])
            } else {
                unstaged_change(items[i])
            }) == Some(c),
    decreases items.len(),
{
    let rest = picked_changes(items.drop_last(), staged);
    let all = picked_changes(items, staged);
    let j = choose|j: int| 0 <= j < all.len() && all[j] == c;
    let n = items.len() - 1;
    let pick = if staged {
        staged_change(items.last())
    } else {
        unstaged_change(items.last())
    };
    assert(items.last() == items[n]);
    if j < rest.len() {
        assert(all[j] == rest[j]);
        lemma_picked_from(items.drop_last(), staged, c);
        let i = choose|i: int|
            0 <= i < items.drop_last().len() && (if staged {
                staged_change(#[trigger] items.drop_last()[i])
            } else {
                unstaged_change(items.drop_last()[i])
            }) == Some(c);
        assert(items.drop_last()[i] == items[i]);
    }
}

/// How a status walk reads as changes. A staged change is listed, staged,
/// for every index item: an addition as Added, a deletion as Deleted, a
/// modification as Modified, a rewrite as Renamed. An unstaged change is
/// listed for every working-tree item: a conflict as Conflicted, an
/// intent-to-add as Added, any other modification as Modified, an
/// untracked file as Untracked, a rename as Renamed; an untracked directory
/// gives none. And nothing else is listed: every staged change comes from
/// an index item and every unstaged one from a working-tree item, with the
/// kind above. `staged` and `unstaged` are what `split_status` returns.
pub proof fn lemma_status_kinds(items: Seq<StatusItem>, staged: Seq<Change>, unstaged: Seq<Change>)
    requires
        staged.to_multiset() == picked_changes(items, true).to_multiset(),
        unstaged.to_multiset() == picked_changes(items, false).to_multiset(),
    ensures
        forall|i: int|
            0 <= i < items.len() ==> (#[trigger] items[i] matches StatusItem::Index { path, change: IndexChange::Addition }
                ==> staged.contains(Change { path, kind: ChangeKind::Added, staged: true })),
        forall|i: int|
            0 <= i < items.len() ==> (#[trigger] items[i] matches StatusItem::Index { path, change: IndexChange::Deletion }
                ==> staged.contains(Change { path, kind: ChangeKind::Deleted, staged: true })),
        forall|i: int|
            0 <= i < items.len() ==> (#[trigger] items[i] matches StatusItem::Index { path, change: IndexChange::Modification }
                ==> staged.contains(Change { path, kind: ChangeKind::Modified, staged: true })),
        forall|i: int|
            0 <= i < items.len() ==> (#[trigger] items[i] matches StatusItem::Index { path, change: IndexChange::Rewrite }
                ==> staged.contains(Change { path, kind: ChangeKind::Renamed, staged: true })),
        forall|i: int|
            0 <= i < items.len() ==> (#[trigger] items[i] matches StatusItem::Modified { path, entry: WorktreeEntry::Conflict }
                ==> unstaged.contains(Change { path, kind: ChangeKind::Conflicted, staged: false })),
        forall|i: int|
            0 <= i < items.len() ==> (#[trigger] items[i] matches StatusItem::Modified { path, entry: WorktreeEntry::IntentToAdd }
                ==> unstaged.contains(Change { path, kind: ChangeKind::Added, staged: false })),
        forall|i: int|
            0 <= i < items.len() ==> (#[trigger] items[i] matches StatusItem::Modified { path, entry: WorktreeEntry::Other }
                ==> unstaged.contains(Change { path, kind: ChangeKind::Modified, staged: false })),
        forall|i: int|
            0 <= i < items.len() ==> (#[trigger] items[i] matches StatusItem::Untracked { path, is_directory: false }
                ==> unstaged.contains(Change { path, kind: ChangeKind::Untracked, staged: false })),
        forall|i: int|
            0 <= i < items.len() ==> (#[trigger] items[i] matches StatusItem::Renamed { path }
                ==> unstaged.contains(Change { path, kind: ChangeKind::Renamed, staged: false })),
        forall|c: Change|
            #[trigger] staged.contains(c) ==> c.staged && exists|i: int|
                0 <= i < items.len() && match #[trigger] items[i] {
                    StatusItem::Index { path, change } => path == c.path && match change {
                        IndexChange::Addition => c.kind == ChangeKind::Added,
                        IndexChange::Deletion => c.kind == ChangeKind::Deleted,
                        IndexChange::Modification => c.kind == ChangeKind::Modified,
                        IndexChange::Rewrite => c.kind == ChangeKind::Renamed,
                    },
                    _ => false,
                },
        forall|c: Change|
            #[trigger] unstaged.contains(c) ==> !c.staged && exists|i: int|
                0 <= i < items.len() && match #[trigger] items[i] {
                    StatusItem::Modified { path, entry } => path == c.path && match entry {
                        WorktreeEntry::Conflict => c.kind == ChangeKind::Conflicted,
                        WorktreeEntry::IntentToAdd => c.kind == ChangeKind::Added,
                        WorktreeEntry::Other => c.kind == ChangeKind::Modified,
                    },
                    StatusItem::Untracked { path, is_directory } => !is_directory && path == c.path
                        && c.kind == ChangeKind::Untracked,
                    StatusItem::Renamed { path } => path == c.path && c.kind == ChangeKind::Renamed,
                    _ => false,
                },
{
    let ps = picked_changes(items, true);
    let pu = picked_changes(items, false);
    assert forall|i: int| 0 <= i < items.len() implies (staged_change(#[trigger] items[i]) matches Some(c)
        ==> staged.contains(c)) && (unstaged_change(items[i]) matches Some(c) ==> unstaged.contains(c)) by {
        lemma_picked_has(items, true, i);
        lemma_picked_has(items, false, i);
        if let Some(c) = staged_change(items[i]) {
            vstd::seq_lib::to_multiset_contains(ps, c);
            vstd::seq_lib::to_multiset_contains(staged, c);
        }
        if let Some(c) = unstaged_change(items[i]) {
            vstd::seq_lib::to_multiset_contains(pu, c);
            vstd::seq_lib::to_multiset_contains(unstaged, c);
        }
    }
    assert forall|c: Change| #[trigger] staged.contains(c) implies c.staged && exists|i: int|
        0 <= i < items.len() && match #[trigger] items[i] {
            StatusItem::Index { path, change } => path == c.path && match change {
                IndexChange::Addition => c.kind == ChangeKind::Added,
                IndexChange::Deletion => c.kind == ChangeKind::Deleted,
                IndexChange::Modification => c.kind == ChangeKind::Modified,
                IndexChange::Rewrite => c.kind == ChangeKind::Renamed,
            },
            _ => false,
        } by {
        vstd::seq_lib::to_multiset_contains(ps, c);
        vstd::seq_lib::to_multiset_contains(staged, c);
        lemma_picked_from(items, true, c);
        let i = choose|i: int| 0 <= i < items.len() && staged_change(#[trigger] items[i]) == Some(c);
        assert(staged_change(items[i]) == Some(c));
    }
    assert forall|c: Change| #[trigger] unstaged.contains(c) implies !c.staged && exists|i: int|
        0 <= i < items.len() && match #[trigger] items[i] {
            StatusItem::Modified { path, entry } => path == c.path && match entry {
                WorktreeEntry::Conflict => c.kind == ChangeKind::Conflicted,
                WorktreeEntry::IntentToAdd => c.kind == ChangeKind::Added,
                WorktreeEntry::Other => c.kind == ChangeKind::Modified,
            },
            StatusItem::Untracked { path, is_directory } => !is_directory && path == c.path
                && c.kind == ChangeKind::Untracked,
            StatusItem::Renamed { path } => path == c.path && c.kind == ChangeKind::Renamed,
            _ => false,
        } by {
        vstd::seq_lib::to_multiset_contains(pu, c);
        vstd::seq_lib::to_multiset_contains(unstaged, c);
        lemma_picked_from(items, false, c);
        let i = choose|i: int| 0 <= i < items.len() && unstaged_change(#[trigger] items[i]) == Some(c);
        assert(unstaged_change(items[i]) == Some(c));
    }
}

/// Splits a status walk into the staged and the unstaged changes, each
/// ordered by path.
pub fn split_status(items: Vec<StatusItem>) -> (r: (Vec<Change>, Vec<Change>))
    ensures
        r.0@.to_multiset() == picked_changes(items@, true).to_multiset(),
        sorted_by_path(r.0@),
        forall|x: Change| #[trigger] r.0@.filter(path_is(x)) == picked_changes(items@, true).filter(path_is(x)),
        r.1@.to_multiset() == picked_changes(items@, false).to_multiset(),
        sorted_by_path(r.1@),
        forall|x: Change| #[trigger] r.1@.filter(path_is(x)) == picked_changes(items@, false).filter(path_is(x)),
{
    let ghost all = items@;
    let mut staged: Vec<Change> = Vec::new();
    let mut unstaged: Vec<Change> = Vec::new();
    let mut i: usize = 0;
    while i < items.len()
        invariant
            i <= items@.len(),
            all == items@,
            staged@ == picked_changes(all.subrange(0, i as int), true),
            unstaged@ == picked_changes(all.subrange(0, i as int), false),
        decreases items@.len() - i,
    {
        assert(all.subrange(0, i + 1).drop_last() =~= all.subrange(0, i as int));
        match &items[i] {
            StatusItem::Index { path, change } => {
                let kind = match change {
                    IndexChange::Addition => ChangeKind::Added,
                    IndexChange::Deletion => ChangeKind::Deleted,
                    IndexChange::Modification => ChangeKind::Modified,
                    IndexChange::Rewrite => ChangeKind::Renamed,
                };
                staged.push(Change { path: path.clone(), kind, staged: true });
            },
            StatusItem::Modified { path, entry } => {
                let kind = match entry {
                    WorktreeEntry::Conflict => ChangeKind::Conflicted,
                    WorktreeEntry::IntentToAdd => ChangeKind::Added,
                    WorktreeEntry::Other => ChangeKind::Modified,
                };
                unstaged.push(Change { path: path.clone(), kind, staged: false });
            },
            StatusItem::Untracked { path, is_directory } => {
                if !*is_directory {
                    unstaged.push(
                        Change { path: path.clone(), kind: ChangeKind::Untracked, staged: false },
                    );
                }
            },
            StatusItem::Renamed { path } => {
                unstaged.push(Change { path: path.clone(), kind: ChangeKind::Renamed, staged: false });
            },
        }
        i += 1;
    }
    assert(all.subrange(0, all.len() as int) =~= all);
    (sort_changes(staged), sort_changes(unstaged))
}

} // verus!
