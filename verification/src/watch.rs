//! What filesystem events are worth to the workspaces that watch them.
//!
//! Two filters keep the expensive work rare, because a rebuild of the file
//! index walks the whole tree:
//!
//! - A path under the hard ignore list or the root `.gitignore` is dropped,
//!   so a build that writes into `target` costs nothing.
//! - A write into a file that already exists asks for a Git snapshot only.
//!   Only a create, a remove or a rename can change the file set, so only
//!   those ask for an index rebuild.
//!
//! Receiving events, reading `.gitignore` files and the debounce timing are
//! the caller's part; each event is folded in here.
use vstd::prelude::*;

use crate::fs_tree::{
    PathKey, hard_ignored, is_hard_ignored, key_has_prefix, key_of, key_starts_with, key_text,
    key_to_text, keys_equal, path_key,
};
use crate::paths::{
    components, is_absolute, lemma_components_plain, lemma_join_relative, path_components,
    same_path, views,
};
use crate::text::{byte_len, byte_length, chars_eq, chars_of, string_of};

verus! {

/// What one root needs once a burst of filesystem events settles.
#[derive(Clone, Debug, PartialEq, Eq)]
pub struct RootChange {
    pub root: String,
    /// The set of files changed, so the index and the tree are both stale.
    pub index: bool,
    /// Tracked content or Git metadata changed, so the snapshot is stale.
    pub git: bool,
}

pub struct RootChangeView {
    pub root: Seq<char>,
    pub index: bool,
    pub git: bool,
}

impl View for RootChange {
    type V = RootChangeView;

    open spec fn view(&self) -> RootChangeView {
        RootChangeView { root: self.root@, index: self.index, git: self.git }
    }
}

pub open spec fn changes_view(cs: Seq<RootChange>) -> Seq<RootChangeView> {
    cs.map_values(|c: RootChange| c@)
}

impl RootChange {
    /// A change of `root` that asks for nothing yet.
    pub fn empty(root: &str) -> (r: RootChange)
        ensures
            r@ == (RootChangeView { root: root@, index: false, git: false }),
    {
        RootChange { root: root.to_string(), index: false, git: false }
    }
}

/// The kind of a filesystem event, as far as the filters care.
#[derive(Clone, Copy, PartialEq, Eq, Debug)]
pub enum EventClass {
    /// A file was opened or read.
    Access,
    Create,
    Remove,
    /// A rename.
    ModifyName,
    /// A write, or a change of metadata.
    ModifyOther,
    /// An event that carries no detail.
    Other,
}

/// True when the event can add, remove or rename a path, which is the only
/// reason to walk the workspace again. An event without detail counts.
pub open spec fn structural(kind: EventClass) -> bool {
    match kind {
        EventClass::ModifyOther => false,
        _ => true,
    }
}

/// Whether an event may add, remove or rename paths: everything but a
/// plain content or metadata change.
pub fn is_structural(kind: EventClass) -> (r: bool)
    ensures
        r == structural(kind),
{
    match kind {
        EventClass::ModifyOther => false,
        _ => true,
    }
}

/// Which events rebuild the file index and tree: every event that can
/// add, remove or rename a path (a creation, a removal, a rename) and an
/// event that carries no detail; a plain write or metadata change does
/// not, it only refreshes Git.
pub proof fn lemma_structural_events(kind: EventClass)
    ensures
        kind == EventClass::Create ==> structural(kind),
        kind == EventClass::Remove ==> structural(kind),
        kind == EventClass::ModifyName ==> structural(kind),
        kind == EventClass::Other ==> structural(kind),
        kind == EventClass::ModifyOther ==> !structural(kind),
        kind != EventClass::Access ==> (structural(kind) <==> kind != EventClass::ModifyOther),
{
}

/// Files under `.git` that describe HEAD, the index or the refs. Everything
/// else there is object churn, which no surface reads.
pub open spec fn git_metadata(name: Seq<char>) -> bool {
    name == "HEAD"@ || name == "index"@ || name == "ORIG_HEAD"@ || name == "MERGE_HEAD"@ || name
        == "refs"@
}

/// Whether a name directly under `.git` is one the Git panel reads.
pub fn is_git_metadata(name: &[char]) -> (r: bool)
    ensures
        r == git_metadata(name@),
{
    chars_eq(name, &chars_of("HEAD")) || chars_eq(name, &chars_of("index")) || chars_eq(
        name,
        &chars_of("ORIG_HEAD"),
    ) || chars_eq(name, &chars_of("MERGE_HEAD")) || chars_eq(name, &chars_of("refs"))
}

/// The named components of a relative path: `.` and `..` are left out.
pub open spec fn normal_names(cs: Seq<Seq<char>>) -> Seq<Seq<char>> {
    cs.filter(|c: Seq<char>| c != seq!['.'] && c != seq!['.', '.'])
}

/// The refresh a path is worth, given its names below the root and whether
/// the root's `.gitignore` ignores it: `(index, git)`, or `None` to drop it.
pub open spec fn effect_of(names: Seq<Seq<char>>, ignored: bool, structural: bool) -> Option<
    (bool, bool),
> {
    if names.len() == 0 {
        None
    } else if names[0] == ".git"@ {
        if names.len() >= 2 && git_metadata(names[1]) {
            Some((false, true))
        } else {
            None
        }
    } else if exists|i: int| 0 <= i < names.len() && hard_ignored(#[trigger] names[i]) {
        None
    } else if ignored {
        None
    } else {
        Some((structural, true))
    }
}

#[verifier::external_type_specification]
#[verifier::external_body]
pub struct ExGitignore(ignore::gitignore::Gitignore);

#[verifier::external_type_specification]
#[verifier::external_body]
pub struct ExGitignoreBuilder(ignore::gitignore::GitignoreBuilder);

/// Whether the `.gitignore` of `root` with these lines ignores `relative`
/// or one of its parent folders, as `ignore` matches it.
pub uninterp spec fn gitignore_ignores(
    root: Seq<char>,
    lines: Seq<Seq<char>>,
    relative: Seq<char>,
) -> bool;

/// `GitignoreBuilder::new` for a root folder.
#[verifier::external_body]
fn gitignore_builder(root: &str) -> ignore::gitignore::GitignoreBuilder {
    ignore::gitignore::GitignoreBuilder::new(root)
}

/// `GitignoreBuilder::add_line`; a line that is no valid glob is skipped,
/// as a `.gitignore` file read by `add` skips it.
#[verifier::external_body]
fn gitignore_add_line(b: &mut ignore::gitignore::GitignoreBuilder, from: &str, line: &str) {
    let _ = b.add_line(Some(std::path::PathBuf::from(from)), line);
}

/// `GitignoreBuilder::build`, or the empty matcher when the set of globs
/// cannot be built.
#[verifier::external_body]
fn gitignore_build(b: &ignore::gitignore::GitignoreBuilder) -> ignore::gitignore::Gitignore {
    match b.build() {
        Ok(g) => g,
        Err(_) => ignore::gitignore::Gitignore::empty(),
    }
}

/// The root `.gitignore` of a watched folder, compiled.
pub struct RootIgnore {
    root: String,
    lines: Vec<String>,
    compiled: ignore::gitignore::Gitignore,
}

impl RootIgnore {
    pub closed spec fn root(&self) -> Seq<char> {
        self.root@
    }

    pub closed spec fn lines(&self) -> Seq<Seq<char>> {
        self.lines@.map_values(|l: String| l@)
    }

    /// Compiles the lines of `root`'s `.gitignore` (none when it is
    /// missing). A byte-order mark before the first line is dropped.
    pub fn new(root: &str, lines: Vec<String>) -> (r: RootIgnore)
        ensures
            r.root() == root@,
            r.lines() == lines@.map_values(|l: String| l@),
    {
        let mut b = gitignore_builder(root);
        let from = crate::paths::join_name(root, &chars_of(".gitignore"));
        let mut i: usize = 0;
        while i < lines.len()
            invariant
                i <= lines@.len(),
            decreases lines@.len() - i,
        {
            if i == 0 {
                let first = chars_of(lines[0].as_str());
                let trimmed = crate::text::trim_start_char(&first, '\u{feff}');
                gitignore_add_line(&mut b, from.as_str(), string_of(&trimmed).as_str());
            } else {
                gitignore_add_line(&mut b, from.as_str(), lines[i].as_str());
            }
            i += 1;
        }
        let compiled = gitignore_build(&b);
        RootIgnore { root: root.to_string(), lines, compiled }
    }
}

/// A relative path written plainly: its components joined by `/`, so with
/// no empty part, no `.` but a leading one, and no leading `/`.
pub open spec fn plain_relative(s: Seq<char>) -> bool {
    s == key_text((false, components(s)))
}

/// `Gitignore::matched_path_or_any_parents` on a file path below the root,
/// then `Match::is_ignore`; the answer is named `gitignore_ignores`. The
/// crate panics when the path, with a leading `./` and the root's prefix
/// stripped, still starts at a root (as `.//x` does), so the path must be
/// written plainly.
#[verifier::external_body]
fn ignores(g: &RootIgnore, relative: &str) -> (r: bool)
    requires
        plain_relative(relative@),
    ensures
        r == gitignore_ignores(g.root(), g.lines(), relative@),
{
    g.compiled.matched_path_or_any_parents(relative, false).is_ignore()
}

/// A watched workspace.
pub struct WatchRoot {
    path: String,
    key: PathKey,
    ignore: RootIgnore,
}

impl WatchRoot {
    pub closed spec fn path(&self) -> Seq<char> {
        self.path@
    }

    pub closed spec fn wf(&self) -> bool {
        &&& self.key.key() == key_of(self.path@)
        &&& self.ignore.root() == self.path@
    }

    pub closed spec fn ignore_lines(&self) -> Seq<Seq<char>> {
        self.ignore.lines()
    }
}

/// The names of `comps` that are neither `.` nor `..`.
fn names_of(comps: &Vec<Vec<char>>) -> (r: Vec<Vec<char>>)
    ensures
        views(r@) == normal_names(views(comps@)),
{
    let ghost cv = views(comps@);
    let ghost pred = |c: Seq<char>| c != seq!['.'] && c != seq!['.', '.'];
    let mut out: Vec<Vec<char>> = Vec::new();
    let mut i: usize = 0;
    let dot: Vec<char> = vec!['.'];
    let dotdot: Vec<char> = vec!['.', '.'];
    assert(dot@ == seq!['.']);
    assert(dotdot@ == seq!['.', '.']);
    proof {
        reveal(Seq::filter);
        assert(cv.take(0) =~= Seq::<Seq<char>>::empty());
    }
    assert(views(out@) =~= cv.take(0).filter(pred));
    while i < comps.len()
        invariant
            i <= comps@.len(),
            cv == views(comps@),
            dot@ == seq!['.'],
            dotdot@ == seq!['.', '.'],
            pred == (|c: Seq<char>| c != seq!['.'] && c != seq!['.', '.']),
            views(out@) == cv.take(i as int).filter(pred),
        decreases comps@.len() - i,
    {
        proof {
            reveal(Seq::filter);
            assert(cv.take(i + 1).drop_last() =~= cv.take(i as int));
            assert(cv.take(i + 1).last() == comps@[i as int]@);
        }
        if !chars_eq(&comps[i], &dot) && !chars_eq(&comps[i], &dotdot) {
            out.push(crate::text::copy_chars(&comps[i]));
            assert(views(out@) =~= cv.take(i + 1).filter(pred));
        } else {
            assert(views(out@) =~= cv.take(i + 1).filter(pred));
        }
        i += 1;
    }
    assert(cv.take(comps@.len() as int) =~= cv);
    out
}

impl WatchRoot {
    /// Starts watching `path` with its `.gitignore` lines.
    pub fn new(path: &str, ignore_lines: Vec<String>) -> (r: WatchRoot)
        ensures
            r.wf(),
            r.path() == path@,
            r.ignore_lines() == ignore_lines@.map_values(|l: String| l@),
    {
        WatchRoot {
            path: path.to_string(),
            key: path_key(path),
            ignore: RootIgnore::new(path, ignore_lines),
        }
    }

    fn effect_parts(&self, relative: &Vec<Vec<char>>, text: &str, structural: bool) -> (r: Option<
        (bool, bool),
    >)
        requires
            self.wf(),
            plain_relative(text@),
        ensures
            r == effect_of(
                normal_names(views(relative@)),
                gitignore_ignores(self.path(), self.ignore_lines(), text@),
                structural,
            ),
    {
        let names = names_of(relative);
        let ghost nv = views(names@);
        if names.len() == 0 {
            return None;
        }
        assert(nv[0] == names@[0]@);
        if names.len() >= 2 {
            assert(nv[1] == names@[1]@);
        }
        if chars_eq(&names[0], &chars_of(".git")) {
            if names.len() < 2 {
                return None;
            }
            if !is_git_metadata(&names[1]) {
                return None;
            }
            return Some((false, true));
        }
        let mut i: usize = 0;
        while i < names.len()
            invariant
                i <= names@.len(),
                nv == views(names@),
                nv == normal_names(views(relative@)),
                nv.len() > 0,
                nv[0] != ".git"@,
                forall|j: int| 0 <= j < i ==> !hard_ignored(#[trigger] nv[j]),
            decreases names@.len() - i,
        {
            if is_hard_ignored(string_of(&names[i]).as_str()) {
                assert(hard_ignored(nv[i as int]));
                return None;
            }
            i += 1;
        }
        if ignores(&self.ignore, text) {
            return None;
        }
        Some((structural, true))
    }

    /// What a path below this root, given relative to it and written
    /// plainly, is worth: `(index, git)`, or `None` to drop it.
    pub fn effect(&self, relative: &str, structural: bool) -> (r: Option<(bool, bool)>)
        requires
            self.wf(),
            plain_relative(relative@),
        ensures
            r == effect_of(
                normal_names(components(relative@)),
                gitignore_ignores(self.path(), self.ignore_lines(), relative@),
                structural,
            ),
    {
        let comps = path_components(relative);
        assert(views(comps@) =~= components(relative@));
        self.effect_parts(&comps, relative, structural)
    }
}

/// The components of `c` from the `k`-th on.
fn comps_from(c: &Vec<Vec<char>>, k: usize) -> (r: Vec<Vec<char>>)
    requires
        k <= c@.len(),
    ensures
        views(r@) == views(c@).skip(k as int),
{
    let mut out: Vec<Vec<char>> = Vec::new();
    let mut i: usize = k;
    while i < c.len()
        invariant
            k <= i <= c@.len(),
            views(out@) =~= views(c@).subrange(k as int, i as int),
        decreases c@.len() - i,
    {
        let x = crate::text::copy_chars(&c[i]);
        let ghost before = views(out@);
        out.push(x);
        assert(views(out@) =~= before.push(x@));
        assert(views(c@).subrange(k as int, i + 1) =~= views(c@).subrange(k as int, i as int).push(
            c@[i as int]@,
        ));
        i += 1;
    }
    out
}

/// The slot of `root` among the pending changes.
pub open spec fn change_slot(out: Seq<RootChangeView>, k: (bool, Seq<Seq<char>>)) -> Option<int>
    decreases out.len(),
{
    if out.len() == 0 {
        None
    } else if key_of(out.last().root) == k {
        Some(out.len() - 1)
    } else {
        change_slot(out.drop_last(), k)
    }
}

/// The pending changes after `root` is asked for `index` and `git`: its
/// entry accumulates them, or a new one starts.
pub open spec fn noted(out: Seq<RootChangeView>, root: Seq<char>, index: bool, git: bool) -> Seq<
    RootChangeView,
> {
    match change_slot(out, key_of(root)) {
        Some(j) => out.update(
            j,
            RootChangeView { root: out[j].root, index: out[j].index || index, git: out[j].git || git },
        ),
        None => out.push(RootChangeView { root, index, git }),
    }
}

/// Asks for `index` and `git` on behalf of `root`.
fn note_change(out: &mut Vec<RootChange>, root: &str, index: bool, git: bool)
    ensures
        changes_view(final(out)@) == noted(changes_view(old(out)@), root@, index, git),
{
    let rk = path_key(root);
    let ghost ov = changes_view(out@);
    let mut j: usize = out.len();
    assert(ov.take(ov.len() as int) =~= ov);
    while j > 0
        invariant
            j <= out@.len(),
            out@ == old(out)@,
            ov == changes_view(out@),
            out@.len() == ov.len(),
            rk.key() == key_of(root@),
            change_slot(ov, key_of(root@)) == change_slot(ov.take(j as int), key_of(root@)),
        decreases j,
    {
        assert(ov.take(j as int).drop_last() =~= ov.take(j - 1));
        let ek = path_key(out[j - 1].root.as_str());
        assert(ov[j - 1] == out@[j - 1]@);
        assert(ov.take(j as int).last() == ov[j - 1]);
        if keys_equal(&ek, &rk) {
            assert(key_of(ov[j - 1].root) == key_of(root@));
            assert(change_slot(ov, key_of(root@)) == Some((j - 1) as int));
            let updated = RootChange {
                root: out[j - 1].root.clone(),
                index: out[j - 1].index || index,
                git: out[j - 1].git || git,
            };
            out.set(j - 1, updated);
            assert(changes_view(out@) =~= noted(ov, root@, index, git));
            return ;
        }
        j -= 1;
    }
    out.push(RootChange::empty(root));
    let last = out.len() - 1;
    let e = RootChange { root: root.to_string(), index, git };
    out.set(last, e);
    assert(changes_view(out@) =~= noted(ov, root@, index, git));
}

/// The root that claims a path: the deepest one containing it, the later
/// one among equally long root paths.
pub open spec fn deepest_root(roots: Seq<Seq<char>>, p: (bool, Seq<Seq<char>>), n: int) -> Option<
    int,
>
    decreases n,
{
    if n <= 0 {
        None
    } else {
        let b = deepest_root(roots, p, n - 1);
        if key_starts_with(p, key_of(roots[n - 1])) && (match b {
            None => true,
            Some(i) => byte_len(roots[n - 1]) >= byte_len(roots[i]),
        }) {
            Some(n - 1)
        } else {
            b
        }
    }
}

/// The watched roots and their ignore rules.
pub struct Registry {
    roots: Vec<WatchRoot>,
}

impl Registry {
    pub closed spec fn wf(&self) -> bool {
        forall|i: int| 0 <= i < self.roots@.len() ==> (#[trigger] self.roots@[i]).wf()
    }

    /// The watched root paths.
    pub closed spec fn paths(&self) -> Seq<Seq<char>> {
        self.roots@.map_values(|r: WatchRoot| r.path())
    }

    /// The `.gitignore` lines each root was last given.
    pub closed spec fn ignore_lines(&self) -> Seq<Seq<Seq<char>>> {
        self.roots@.map_values(|r: WatchRoot| r.ignore_lines())
    }

    /// A registry watching nothing.
    pub fn new() -> (r: Registry)
        ensures
            r.wf(),
            r.paths().len() == 0,
    {
        let r = Registry { roots: Vec::new() };
        assert(r.paths() =~= Seq::<Seq<char>>::empty());
        r
    }

    /// Starts watching a root.
    pub fn add_root(&mut self, root: WatchRoot)
        requires
            old(self).wf(),
            root.wf(),
        ensures
            final(self).wf(),
            final(self).paths() == old(self).paths().push(root.path()),
            final(self).ignore_lines() == old(self).ignore_lines().push(root.ignore_lines()),
    {
        let ghost p = self.paths();
        let ghost l = self.ignore_lines();
        self.roots.push(root);
        assert(self.paths() =~= p.push(root.path()));
        assert(self.ignore_lines() =~= l.push(root.ignore_lines()));
    }

    /// Whether `path` is watched already.
    pub fn contains_root(&self, path: &str) -> (r: bool)
        ensures
            r == exists|i: int| 0 <= i < self.paths().len() && same_path(#[trigger] self.paths()[i], path@),
    {
        let k = path_key(path);
        let mut i: usize = 0;
        while i < self.roots.len()
            invariant
                i <= self.roots@.len(),
                k.key() == key_of(path@),
                forall|j: int| 0 <= j < i ==> !same_path(#[trigger] self.paths()[j], path@),
            decreases self.roots@.len() - i,
        {
            let rk = path_key(self.roots[i].path.as_str());
            assert(self.paths()[i as int] == self.roots@[i as int].path@);
            if keys_equal(&rk, &k) {
                return true;
            }
            i += 1;
        }
        false
    }

    /// The root that claims `path`.
    pub fn root_index_for(&self, path: &str) -> (r: Option<usize>)
        ensures
            match r {
                Some(i) => deepest_root(self.paths(), key_of(path@), self.paths().len() as int) == Some(
                    i as int,
                ),
                None => deepest_root(self.paths(), key_of(path@), self.paths().len() as int) is None,
            },
    {
        let k = path_key(path);
        let mut best: Option<usize> = None;
        let mut best_len: u128 = 0;
        let mut i: usize = 0;
        let ghost ps = self.paths();
        while i < self.roots.len()
            invariant
                i <= self.roots@.len(),
                ps == self.paths(),
                ps.len() == self.roots@.len(),
                k.key() == key_of(path@),
                match best {
                    Some(b) => deepest_root(ps, key_of(path@), i as int) == Some(b as int) && b < i
                        && best_len == byte_len(ps[b as int]),
                    None => deepest_root(ps, key_of(path@), i as int) is None,
                },
            decreases self.roots@.len() - i,
        {
            let rk = path_key(self.roots[i].path.as_str());
            assert(ps[i as int] == self.roots@[i as int].path@);
            if key_has_prefix(&k, &rk) {
                let len = byte_length(&chars_of(self.roots[i].path.as_str()));
                let take = match best {
                    None => true,
                    Some(_) => len >= best_len,
                };
                if take {
                    best = Some(i);
                    best_len = len;
                }
            }
            i += 1;
        }
        best
    }

    /// Every root is read again from disk: the event stream dropped events.
    pub fn rescan(&self, out: &mut Vec<RootChange>)
        ensures
            changes_view(final(out)@) == rescanned(changes_view(old(out)@), self.paths()),
    {
        let ghost ps = self.paths();
        let mut i: usize = 0;
        assert(ps.take(0) =~= Seq::<Seq<char>>::empty());
        while i < self.roots.len()
            invariant
                i <= self.roots@.len(),
                ps == self.paths(),
                ps.len() == self.roots@.len(),
                changes_view(out@) == rescanned(changes_view(old(out)@), ps.take(i as int)),
            decreases self.roots@.len() - i,
        {
            assert(ps.take(i + 1).drop_last() =~= ps.take(i as int));
            assert(ps[i as int] == self.roots@[i as int].path@);
            note_change(out, self.roots[i].path.as_str(), true, true);
            i += 1;
        }
        assert(ps.take(ps.len() as int) =~= ps);
    }

    /// Folds one changed path into the pending changes. Returns the index of
    /// a root whose `.gitignore` was just rewritten: its lines must be read
    /// again, and handed to `reload_ignore` before the next path.
    pub fn fold_path(&self, path: &str, structural: bool, out: &mut Vec<RootChange>) -> (r: Option<
        usize,
    >)
        requires
            self.wf(),
        ensures
            folded(
                self.paths(),
                self.ignore_lines(),
                key_of(path@),
                structural,
                changes_view(old(out)@),
                changes_view(final(out)@),
                r,
            ),
    {
        let i = match self.root_index_for(path) {
            Some(i) => i,
            None => return None,
        };
        proof {
            lemma_deepest_root(self.paths(), key_of(path@), self.paths().len() as int);
        }
        let root = &self.roots[i];
        assert(self.paths()[i as int] == root.path@);
        assert(self.ignore_lines()[i as int] == root.ignore_lines());
        assert(self.roots@[i as int].wf());
        let k = path_key(path);
        let rest = comps_from(&k.comps, root.key.comps.len());
        let rest_key = PathKey { abs: false, comps: rest };
        let text = key_to_text(&rest_key);
        proof {
            lemma_components_plain(path@);
            assert forall|q: int| 0 <= q < views(rest_key.comps@).len() implies (
            #[trigger] views(rest_key.comps@)[q]).len() > 0 && !views(rest_key.comps@)[q].contains(
                '/',
            ) by {
                assert(views(rest_key.comps@)[q] == components(path@)[q + root.key.comps@.len()]);
            }
            lemma_join_relative(views(rest_key.comps@));
            crate::paths::lemma_components_writable(path@);
            assert(crate::paths::plain_parts(false, views(rest_key.comps@))) by {
                assert forall|q: int| 0 <= q < views(rest_key.comps@).len() && views(
                    rest_key.comps@,
                )[q] == seq!['.'] implies q == 0 by {
                    assert(views(rest_key.comps@)[q] == components(path@)[q
                        + root.key.comps@.len()]);
                }
            }
            crate::paths::lemma_key_round_trip(false, views(rest_key.comps@));
        }
        let gitignore_name: Vec<char> = chars_of(".gitignore");
        let rewrote = rest_key.comps.len() == 1 && chars_eq(&rest_key.comps[0], &gitignore_name);
        proof {
            if rewrote {
                assert(views(rest_key.comps@) =~= seq![".gitignore"@]);
            } else if views(rest_key.comps@) == seq![".gitignore"@] {
                assert(views(rest_key.comps@)[0] == rest_key.comps@[0]@);
            }
        }
        match root.effect_parts(&rest_key.comps, text.as_str(), structural || rewrote) {
            None => None,
            Some((index, git)) => {
                note_change(out, root.path.as_str(), index, git);
                if rewrote {
                    Some(i)
                } else {
                    None
                }
            },
        }
    }

    /// Replaces the `.gitignore` lines of root `i`.
    pub fn reload_ignore(&mut self, i: usize, lines: Vec<String>)
        requires
            old(self).wf(),
            i < old(self).paths().len(),
        ensures
            final(self).wf(),
            final(self).paths() == old(self).paths(),
            final(self).ignore_lines() == old(self).ignore_lines().update(
                i as int,
                lines@.map_values(|l: String| l@),
            ),
    {
        let ghost p = self.paths();
        let ghost l = self.ignore_lines();
        let path = self.roots[i].path.clone();
        assert(self.roots@[i as int].wf());
        let key = path_key(path.as_str());
        let root = WatchRoot { path, key, ignore: RootIgnore::new(self.roots[i].path.as_str(), lines) };
        self.roots.set(i, root);
        assert(self.paths() =~= p);
        assert(self.ignore_lines() =~= l.update(i as int, lines@.map_values(|l: String| l@)));
    }
}

proof fn lemma_deepest_root(roots: Seq<Seq<char>>, p: (bool, Seq<Seq<char>>), n: int)
    ensures
        deepest_root(roots, p, n) matches Some(i) ==> 0 <= i < n && key_starts_with(
            p,
            key_of(roots[i]),
        ),
    decreases n,
{
    if n > 0 {
        lemma_deepest_root(roots, p, n - 1);
    }
}

/// The pending changes after every root is asked for everything.
pub open spec fn rescanned(out: Seq<RootChangeView>, roots: Seq<Seq<char>>) -> Seq<RootChangeView>
    decreases roots.len(),
{
    if roots.len() == 0 {
        out
    } else {
        noted(rescanned(out, roots.drop_last()), roots.last(), true, true)
    }
}

/// `after` is `before` with path `p` folded in, and `r` names the root to
/// reload when `p` is that root's rewritten `.gitignore`.
pub open spec fn folded(
    roots: Seq<Seq<char>>,
    lines: Seq<Seq<Seq<char>>>,
    p: (bool, Seq<Seq<char>>),
    structural: bool,
    before: Seq<RootChangeView>,
    after: Seq<RootChangeView>,
    r: Option<usize>,
) -> bool {
    match deepest_root(roots, p, roots.len() as int) {
        None => after == before && r is None,
        Some(i) => {
            let rest = p.1.skip(key_of(roots[i]).1.len() as int);
            let rewrote = rest == seq![".gitignore"@];
            match effect_of(
                normal_names(rest),
                gitignore_ignores(roots[i], lines[i], key_text((false, rest))),
                structural || rewrote,
            ) {
                None => after == before && r is None,
                Some((index, git)) => after == noted(before, roots[i], index, git) && r == (if rewrote {
                    Some(i as usize)
                } else {
                    None
                }),
            }
        },
    }
}

/// `after` keeps every pending change of `before`, in place, with no flag
/// cleared; it may add changes after them.
pub open spec fn grows(before: Seq<RootChangeView>, after: Seq<RootChangeView>) -> bool {
    &&& before.len() <= after.len()
    &&& forall|j: int|
        0 <= j < before.len() ==> (#[trigger] after[j]).root == before[j].root && (before[j].index
            ==> after[j].index) && (before[j].git ==> after[j].git)
}

/// Some pending change of the root with key `k` asks for `index` and `git`
/// (each where it is true).
pub open spec fn asks(out: Seq<RootChangeView>, k: (bool, Seq<Seq<char>>), index: bool, git: bool) -> bool {
    exists|j: int|
        0 <= j < out.len() && key_of((#[trigger] out[j]).root) == k && (index ==> out[j].index) && (
        git ==> out[j].git)
}

proof fn lemma_change_slot(out: Seq<RootChangeView>, k: (bool, Seq<Seq<char>>))
    ensures
        change_slot(out, k) matches Some(j) ==> 0 <= j < out.len() && key_of(out[j].root) == k,
        change_slot(out, k) is None ==> forall|j: int| 0 <= j < out.len() ==> key_of(#[trigger] out[j].root) != k,
    decreases out.len(),
{
    if out.len() > 0 {
        lemma_change_slot(out.drop_last(), k);
        if key_of(out.last().root) != k {
            assert forall|j: int| 0 <= j < out.len() - 1 implies out[j] == out.drop_last()[j] by {}
        }
    }
}

proof fn lemma_noted(out: Seq<RootChangeView>, root: Seq<char>, index: bool, git: bool)
    ensures
        grows(out, noted(out, root, index, git)),
        asks(noted(out, root, index, git), key_of(root), index, git),
        noted(out, root, index, git).len() <= out.len() + 1,
        forall|j: int|
            0 <= j < out.len() && key_of(out[j].root) != key_of(root) ==> #[trigger] noted(
                out,
                root,
                index,
                git,
            )[j] == out[j],
        forall|j: int|
            out.len() <= j < noted(out, root, index, git).len() ==> (#[trigger] noted(
                out,
                root,
                index,
                git,
            )[j]).root == root,
{
    lemma_change_slot(out, key_of(root));
    let after = noted(out, root, index, git);
    match change_slot(out, key_of(root)) {
        Some(j) => {
            assert(key_of(after[j].root) == key_of(root));
        },
        None => {
            assert(after[out.len() as int].root == root);
        },
    }
}

proof fn lemma_asks_kept(before: Seq<RootChangeView>, after: Seq<RootChangeView>, k: (bool, Seq<Seq<char>>))
    requires
        grows(before, after),
        asks(before, k, true, true),
    ensures
        asks(after, k, true, true),
{
    let j = choose|j: int|
        0 <= j < before.len() && key_of((#[trigger] before[j]).root) == k && before[j].index && before[j].git;
    assert(after[j].root == before[j].root);
}

/// A rescan keeps every pending change and flag, and asks every watched
/// root for both its index and its git state.
pub proof fn lemma_rescan_asks_every_root(out: Seq<RootChangeView>, roots: Seq<Seq<char>>)
    ensures
        grows(out, rescanned(out, roots)),
        forall|i: int| 0 <= i < roots.len() ==> asks(rescanned(out, roots), key_of(#[trigger] roots[i]), true, true),
    decreases roots.len(),
{
    if roots.len() > 0 {
        let mid = rescanned(out, roots.drop_last());
        lemma_rescan_asks_every_root(out, roots.drop_last());
        lemma_noted(mid, roots.last(), true, true);
        let after = rescanned(out, roots);
        assert forall|i: int| 0 <= i < roots.len() implies asks(after, key_of(#[trigger] roots[i]), true, true) by {
            if i < roots.len() - 1 {
                assert(roots[i] == roots.drop_last()[i]);
                lemma_asks_kept(mid, after, key_of(roots[i]));
            }
        }
    }
}

/// Folding a path in never drops a pending change nor clears a flag, and
/// it touches only the entry of the deepest watched root that holds the
/// path: every other entry stays as it was, and an entry it adds is that
/// root's. A path under no watched root changes nothing.
pub proof fn lemma_fold_path_touches_its_root(
    roots: Seq<Seq<char>>,
    lines: Seq<Seq<Seq<char>>>,
    p: (bool, Seq<Seq<char>>),
    structural: bool,
    before: Seq<RootChangeView>,
    after: Seq<RootChangeView>,
    r: Option<usize>,
)
    requires
        folded(roots, lines, p, structural, before, after, r),
    ensures
        grows(before, after),
        after.len() <= before.len() + 1,
        deepest_root(roots, p, roots.len() as int) is None ==> after == before,
        deepest_root(roots, p, roots.len() as int) matches Some(i) ==> (forall|j: int|
            0 <= j < before.len() && key_of(before[j].root) != key_of(roots[i]) ==> #[trigger] after[j]
                == before[j]) && (forall|j: int|
            before.len() <= j < after.len() ==> (#[trigger] after[j]).root == roots[i]),
{
    match deepest_root(roots, p, roots.len() as int) {
        None => {},
        Some(i) => {
            let rest = p.1.skip(key_of(roots[i]).1.len() as int);
            let rewrote = rest == seq![".gitignore"@];
            match effect_of(
                normal_names(rest),
                gitignore_ignores(roots[i], lines[i], key_text((false, rest))),
                structural || rewrote,
            ) {
                None => {},
                Some((index, git)) => {
                    lemma_noted(before, roots[i], index, git);
                },
            }
        },
    }
}

/// The pending changes after path `p` is folded in (see `folded`).
pub open spec fn fold_one(
    roots: Seq<Seq<char>>,
    lines: Seq<Seq<Seq<char>>>,
    p: (bool, Seq<Seq<char>>),
    structural: bool,
    before: Seq<RootChangeView>,
) -> Seq<RootChangeView> {
    match deepest_root(roots, p, roots.len() as int) {
        None => before,
        Some(i) => {
            let rest = p.1.skip(key_of(roots[i]).1.len() as int);
            let rewrote = rest == seq![".gitignore"@];
            match effect_of(
                normal_names(rest),
                gitignore_ignores(roots[i], lines[i], key_text((false, rest))),
                structural || rewrote,
            ) {
                None => before,
                Some((index, git)) => noted(before, roots[i], index, git),
            }
        },
    }
}

/// The root whose `.gitignore` path `p` rewrites, when folding it asks for
/// a reload (see `folded`).
pub open spec fn reload_of(
    roots: Seq<Seq<char>>,
    lines: Seq<Seq<Seq<char>>>,
    p: (bool, Seq<Seq<char>>),
    structural: bool,
) -> Option<usize> {
    match deepest_root(roots, p, roots.len() as int) {
        None => None,
        Some(i) => {
            let rest = p.1.skip(key_of(roots[i]).1.len() as int);
            let rewrote = rest == seq![".gitignore"@];
            match effect_of(
                normal_names(rest),
                gitignore_ignores(roots[i], lines[i], key_text((false, rest))),
                structural || rewrote,
            ) {
                None => None,
                Some(_) => if rewrote {
                    Some(i as usize)
                } else {
                    None
                },
            }
        },
    }
}

/// The pending changes after the paths `ps` are folded in, in order.
pub open spec fn fold_all(
    roots: Seq<Seq<char>>,
    lines: Seq<Seq<Seq<char>>>,
    ps: Seq<(bool, Seq<Seq<char>>)>,
    structural: bool,
    before: Seq<RootChangeView>,
) -> Seq<RootChangeView>
    decreases ps.len(),
{
    if ps.len() == 0 {
        before
    } else {
        fold_one(roots, lines, ps.last(), structural, fold_all(roots, lines, ps.drop_last(), structural, before))
    }
}

/// The keys of `paths[start..end]`.
pub open spec fn keys_between(paths: Seq<String>, start: int, end: int) -> Seq<(bool, Seq<Seq<char>>)> {
    Seq::new((end - start) as nat, |q: int| key_of(paths[start + q]@))
}

/// A change event as the watcher reports it: whether the stream dropped
/// events (so everything must be read again), what kind of change it is,
/// and the paths it touches.
pub struct WatchEvent {
    pub need_rescan: bool,
    pub kind: EventClass,
    pub paths: Vec<String>,
}

impl Registry {
    /// Folds one event into the pending changes, starting at path `start`.
    /// A dropped-events notice asks every root for everything; a read
    /// changes nothing; otherwise each path is folded in turn. Folding
    /// stops right after a path that rewrote a root's `.gitignore`, and
    /// says which root and where to go on: the caller reloads that root's
    /// ignore rules and calls again from there, so later paths see the new
    /// rules.
    pub fn fold_event(&self, event: &WatchEvent, start: usize, out: &mut Vec<RootChange>) -> (r: Option<
        (usize, usize),
    >)
        requires
            self.wf(),
            start <= event.paths@.len(),
        ensures
            event.need_rescan ==> r is None && changes_view(final(out)@) == rescanned(
                changes_view(old(out)@),
                self.paths(),
            ),
            !event.need_rescan && event.kind == EventClass::Access ==> r is None && final(out)@
                == old(out)@,
            !event.need_rescan && event.kind != EventClass::Access ==> {
                let end = match r {
                    Some((_, next)) => next as int,
                    None => event.paths@.len() as int,
                };
                &&& start <= end <= event.paths@.len()
                &&& changes_view(final(out)@) == fold_all(
                    self.paths(),
                    self.ignore_lines(),
                    keys_between(event.paths@, start as int, end),
                    structural(event.kind),
                    changes_view(old(out)@),
                )
                &&& forall|q: int|
                    start <= q < end - 1 ==> reload_of(
                        self.paths(),
                        self.ignore_lines(),
                        key_of(#[trigger] event.paths@[q]@),
                        structural(event.kind),
                    ) is None
                &&& match r {
                    Some((root, next)) => start < next && reload_of(
                        self.paths(),
                        self.ignore_lines(),
                        key_of(event.paths@[next - 1]@),
                        structural(event.kind),
                    ) == Some(root),
                    None => end == 0 || end == start || reload_of(
                        self.paths(),
                        self.ignore_lines(),
                        key_of(event.paths@[end - 1]@),
                        structural(event.kind),
                    ) is None,
                }
            },
    {
        if event.need_rescan {
            self.rescan(out);
            return None;
        }
        let s = match event_effect(event.kind) {
            None => return None,
            Some(s) => s,
        };
        let ghost roots = self.paths();
        let ghost lines = self.ignore_lines();
        let ghost base = changes_view(out@);
        let n = event.paths.len();
        let mut j: usize = start;
        assert(keys_between(event.paths@, start as int, start as int) =~= Seq::<(bool, Seq<Seq<char>>)>::empty());
        while j < n
            invariant
                start <= j <= n,
                n == event.paths@.len(),
                self.wf(),
                roots == self.paths(),
                lines == self.ignore_lines(),
                s == structural(event.kind),
                !event.need_rescan,
                event.kind != EventClass::Access,
                base == changes_view(old(out)@),
                changes_view(out@) == fold_all(roots, lines, keys_between(event.paths@, start as int, j as int), s, base),
                forall|q: int| start <= q < j ==> reload_of(roots, lines, key_of(#[trigger] event.paths@[q]@), s) is None,
            decreases n - j,
        {
            let ghost before = changes_view(out@);
            let r = self.fold_path(event.paths[j].as_str(), s, out);
            let ghost p = key_of(event.paths@[j as int]@);
            let ghost ks = keys_between(event.paths@, start as int, j as int);
            assert(keys_between(event.paths@, start as int, j + 1) =~= ks.push(p));
            assert(ks.push(p).drop_last() =~= ks);
            assert(changes_view(out@) == fold_one(roots, lines, p, s, before));
            assert(r == reload_of(roots, lines, p, s));
            j += 1;
            if let Some(root) = r {
                return Some((root, j));
            }
        }
        None
    }
}

/// The caller's part of an event, before its paths: `None` when the event
/// is a read, which changes nothing; otherwise whether it is structural.
pub fn event_effect(kind: EventClass) -> (r: Option<bool>)
    ensures
        r == (if kind == EventClass::Access {
            None
        } else {
            Some(structural(kind))
        }),
{
    match kind {
        EventClass::Access => None,
        _ => Some(is_structural(kind)),
    }
}

/// Whether a folder is worth a recursive watch: not the filesystem root
/// (nor any path without a parent) and not the home folder.
pub open spec fn watchable(root: Seq<char>, home: Option<Seq<char>>) -> bool {
    components(root).len() > 0 && !(match home {
        Some(h) => same_path(h, root),
        None => false,
    })
}

/// Whether a root is watched: never the filesystem root, nor the home
/// folder itself.
pub fn is_watchable(root: &str, home: Option<&str>) -> (r: bool)
    ensures
        r == watchable(root@, match home {
            Some(h) => Some(h@),
            None => None,
        }),
{
    let c = path_components(root);
    if c.len() == 0 {
        return false;
    }
    match home {
        Some(h) => !crate::paths::paths_equal(h, root),
        None => true,
    }
}

} // verus!
