//! The Explorer's lazy file tree.
//!
//! One flat list of visible rows, rebuilt from the folder listings read so
//! far and the set of expanded folders. A folder is read only when its rows
//! are first needed: `pending_listings` names the folders whose listing the
//! rows are waiting for, and the caller reads each one and hands it to
//! `load`. Paths are compared the way `std::path` compares them, by their
//! root and components.
use vstd::prelude::*;

use crate::paths::{components, is_absolute, join_components, path_components, views};
use crate::text::{
    chars_eq, chars_of, copy_chars, lemma_lex_strict, lemma_lex_trans, lex_less, lex_lt, lowercase,
    same_text, string_of, to_lowercase,
};

verus! {

/// A path reduced to what path equality looks at: whether it is rooted, and
/// its components.
pub struct PathKey {
    pub abs: bool,
    pub comps: Vec<Vec<char>>,
}

impl PathKey {
    pub open spec fn key(&self) -> (bool, Seq<Seq<char>>) {
        (self.abs, views(self.comps@))
    }
}

pub open spec fn key_of(s: Seq<char>) -> (bool, Seq<Seq<char>>) {
    (is_absolute(s), components(s))
}

/// `c` is the key of an entry directly in the folder with key `p`.
pub open spec fn child_key(c: (bool, Seq<Seq<char>>), p: (bool, Seq<Seq<char>>)) -> bool {
    c.0 == p.0 && c.1.len() == p.1.len() + 1 && p.1.is_prefix_of(c.1)
}

/// `Path::starts_with` on keys.
pub open spec fn key_starts_with(p: (bool, Seq<Seq<char>>), base: (bool, Seq<Seq<char>>)) -> bool {
    p.0 == base.0 && base.1.is_prefix_of(p.1)
}

/// The text of a key: its components joined by `/`, rooted when it is.
pub open spec fn key_text(k: (bool, Seq<Seq<char>>)) -> Seq<char> {
    join_components(k.0, k.1)
}

/// The key of a path.
pub fn path_key(s: &str) -> (r: PathKey)
    ensures
        r.key() == key_of(s@),
{
    let chars = chars_of(s);
    let abs = chars.len() > 0 && chars[0] == '/';
    let comps = path_components(s);
    assert(views(comps@) =~= components(s@));
    PathKey { abs, comps }
}

/// Whether two keys name the same path.
pub fn keys_equal(a: &PathKey, b: &PathKey) -> (r: bool)
    ensures
        r == (a.key() == b.key()),
{
    if a.abs != b.abs {
        return false;
    }
    crate::paths::components_eq(&a.comps, &b.comps)
}

/// Whether `p` lies at or below `base`.
pub fn key_has_prefix(p: &PathKey, base: &PathKey) -> (r: bool)
    ensures
        r == key_starts_with(p.key(), base.key()),
{
    if p.abs != base.abs || base.comps.len() > p.comps.len() {
        return false;
    }
    let ghost pv = views(p.comps@);
    let ghost bv = views(base.comps@);
    let mut i: usize = 0;
    while i < base.comps.len()
        invariant
            base.comps@.len() <= p.comps@.len(),
            i <= base.comps@.len(),
            pv == views(p.comps@),
            bv == views(base.comps@),
            forall|j: int| 0 <= j < i ==> pv[j] == bv[j],
        decreases base.comps@.len() - i,
    {
        if !chars_eq(&base.comps[i], &p.comps[i]) {
            assert(!bv.is_prefix_of(pv)) by {
                if bv.is_prefix_of(pv) {
                    assert(bv[i as int] == pv.subrange(0, bv.len() as int)[i as int]);
                }
            }
            return false;
        }
        i += 1;
    }
    assert(bv.is_prefix_of(pv)) by {
        assert(pv.subrange(0, bv.len() as int) =~= bv);
    }
    true
}

/// The first `k` components of a key.
pub fn key_prefix(p: &PathKey, k: usize) -> (r: PathKey)
    requires
        k <= p.comps@.len(),
    ensures
        r.key() == (p.abs, views(p.comps@).take(k as int)),
{
    let mut comps: Vec<Vec<char>> = Vec::new();
    let mut i: usize = 0;
    while i < k
        invariant
            k <= p.comps@.len(),
            i <= k,
            views(comps@) =~= views(p.comps@).take(i as int),
        decreases k - i,
    {
        let c = copy_chars(&p.comps[i]);
        proof {
            assert(views(p.comps@).take(i + 1) =~= views(p.comps@).take(i as int).push(c@));
        }
        comps.push(c);
        assert(views(comps@) =~= views(p.comps@).take(i + 1));
        i += 1;
    }
    PathKey { abs: p.abs, comps }
}

/// The components of a key from the `k`-th on, as a relative key.
pub fn key_suffix(p: &PathKey, k: usize) -> (r: PathKey)
    requires
        k <= p.comps@.len(),
    ensures
        r.key() == (false, views(p.comps@).skip(k as int)),
{
    let mut comps: Vec<Vec<char>> = Vec::new();
    let mut i: usize = k;
    while i < p.comps.len()
        invariant
            k <= i <= p.comps@.len(),
            views(comps@) =~= views(p.comps@).subrange(k as int, i as int),
        decreases p.comps@.len() - i,
    {
        let c = copy_chars(&p.comps[i]);
        let ghost before = views(comps@);
        comps.push(c);
        assert(views(comps@) =~= before.push(c@));
        assert(views(p.comps@).subrange(k as int, i + 1) =~= views(p.comps@).subrange(
            k as int,
            i as int,
        ).push(p.comps@[i as int]@));
        i += 1;
    }
    PathKey { abs: false, comps }
}

/// A copy of a key.
pub fn copy_key(p: &PathKey) -> (r: PathKey)
    ensures
        r.key() == p.key(),
{
    let r = key_prefix(p, p.comps.len());
    assert(views(p.comps@).take(p.comps@.len() as int) =~= views(p.comps@));
    r
}

/// The text of a key, components joined by `/`.
pub fn key_to_text(p: &PathKey) -> (r: String)
    ensures
        r@ == key_text(p.key()),
{
    let mut out: Vec<char> = Vec::new();
    let ghost v = views(p.comps@);
    if p.comps.len() == 0 {
        if p.abs {
            out.push('/');
        }
        assert(out@ == join_components(p.abs, v));
        return string_of(&out);
    }
    if p.abs {
        out.push('/');
    }
    crate::text::append_chars(&mut out, &p.comps[0]);
    assert(out@ == join_components(p.abs, v.take(1))) by {
        assert(v.take(1).len() == 1);
        assert(v.take(1)[0] == v[0]);
    }
    let mut i: usize = 1;
    while i < p.comps.len()
        invariant
            1 <= i <= p.comps@.len(),
            v == views(p.comps@),
            out@ == join_components(p.abs, v.take(i as int)),
        decreases p.comps@.len() - i,
    {
        out.push('/');
        crate::text::append_chars(&mut out, &p.comps[i]);
        assert(v.take(i + 1).drop_last() =~= v.take(i as int));
        i += 1;
    }
    assert(v.take(p.comps@.len() as int) =~= v);
    string_of(&out)
}

/// One directory entry.
#[derive(Clone, Debug)]
pub struct Entry {
    pub path: String,
    pub name: String,
    pub is_dir: bool,
}

pub struct EntryView {
    pub path: Seq<char>,
    pub name: Seq<char>,
    pub is_dir: bool,
}

impl View for Entry {
    type V = EntryView;

    open spec fn view(&self) -> EntryView {
        EntryView { path: self.path@, name: self.name@, is_dir: self.is_dir }
    }
}

impl Entry {
    /// A copy with the same fields.
    pub fn copy(&self) -> (r: Entry)
        ensures
            r@ == self@,
    {
        Entry { path: self.path.clone(), name: self.name.clone(), is_dir: self.is_dir }
    }
}

/// A visible row: one entry plus its depth.
#[derive(Clone, Debug)]
pub struct Row {
    pub entry: Entry,
    pub depth: usize,
    pub expanded: bool,
}

pub struct RowView {
    pub entry: EntryView,
    pub depth: nat,
    pub expanded: bool,
}

impl View for Row {
    type V = RowView;

    open spec fn view(&self) -> RowView {
        RowView { entry: self.entry@, depth: self.depth as nat, expanded: self.expanded }
    }
}

pub open spec fn entries_view(es: Seq<Entry>) -> Seq<EntryView> {
    es.map_values(|e: Entry| e@)
}

pub open spec fn rows_view(rs: Seq<Row>) -> Seq<RowView> {
    rs.map_values(|r: Row| r@)
}

/// The tree as its contracts see it: the root, the listings read so far
/// (folder key and entries), the expanded folders, and the visible rows.
pub struct TreeView {
    pub root: Seq<char>,
    pub listings: Seq<((bool, Seq<Seq<char>>), Seq<EntryView>)>,
    pub expanded: Seq<(bool, Seq<Seq<char>>)>,
    pub rows: Seq<RowView>,
}

pub open spec fn max_nat(a: nat, b: nat) -> nat {
    if a >= b {
        a
    } else {
        b
    }
}

/// The largest number of components among the entries of a listing.
pub open spec fn deepest_entry(es: Seq<EntryView>) -> nat
    decreases es.len(),
{
    if es.len() == 0 {
        0
    } else {
        max_nat(deepest_entry(es.drop_last()), components(es.last().path).len())
    }
}

/// The largest number of components among all listed entries.
pub open spec fn deepest(ls: Seq<((bool, Seq<Seq<char>>), Seq<EntryView>)>) -> nat
    decreases ls.len(),
{
    if ls.len() == 0 {
        0
    } else {
        max_nat(deepest(ls.drop_last()), deepest_entry(ls.last().1))
    }
}

proof fn lemma_deepest_entry(es: Seq<EntryView>, m: nat)
    ensures
        forall|j: int| 0 <= j < es.len() ==> components(#[trigger] es[j].path).len() <= deepest_entry(es),
        (forall|j: int| 0 <= j < es.len() ==> components(#[trigger] es[j].path).len() <= m)
            ==> deepest_entry(es) <= m,
    decreases es.len(),
{
    if es.len() > 0 {
        lemma_deepest_entry(es.drop_last(), m);
        assert forall|j: int| 0 <= j < es.len() implies components(#[trigger] es[j].path).len()
            <= deepest_entry(es) by {
            if j < es.len() - 1 {
                assert(es[j] == es.drop_last()[j]);
            }
        }
        if forall|j: int| 0 <= j < es.len() ==> components(#[trigger] es[j].path).len() <= m {
            assert forall|j: int| 0 <= j < es.drop_last().len() implies components(
                #[trigger] es.drop_last()[j].path,
            ).len() <= m by {
                assert(es.drop_last()[j] == es[j]);
            }
        }
    }
}

proof fn lemma_deepest(ls: Seq<((bool, Seq<Seq<char>>), Seq<EntryView>)>, m: nat)
    ensures
        forall|i: int, j: int|
            0 <= i < ls.len() && 0 <= j < ls[i].1.len() ==> components(
                #[trigger] ls[i].1[j].path,
            ).len() <= deepest(ls),
        (forall|i: int, j: int|
            0 <= i < ls.len() && 0 <= j < ls[i].1.len() ==> components(
                #[trigger] ls[i].1[j].path,
            ).len() <= m) ==> deepest(ls) <= m,
    decreases ls.len(),
{
    if ls.len() > 0 {
        lemma_deepest(ls.drop_last(), m);
        lemma_deepest_entry(ls.last().1, m);
        assert forall|i: int, j: int| 0 <= i < ls.len() && 0 <= j < ls[i].1.len() implies components(
            #[trigger] ls[i].1[j].path,
        ).len() <= deepest(ls) by {
            if i < ls.len() - 1 {
                assert(ls[i] == ls.drop_last()[i]);
            }
        }
        if forall|i: int, j: int|
            0 <= i < ls.len() && 0 <= j < ls[i].1.len() ==> components(
                #[trigger] ls[i].1[j].path,
            ).len() <= m {
            assert forall|i: int, j: int|
                0 <= i < ls.drop_last().len() && 0 <= j < ls.drop_last()[i].1.len() implies components(
                #[trigger] ls.drop_last()[i].1[j].path,
            ).len() <= m by {
                assert(ls.drop_last()[i] == ls[i]);
            }
            assert forall|j: int| 0 <= j < ls.last().1.len() implies components(
                #[trigger] ls.last().1[j].path,
            ).len() <= m by {
                assert(ls[ls.len() - 1] == ls.last());
            }
        }
    }
}

/// The listing read for a folder, if any.
pub open spec fn listing_of(
    ls: Seq<((bool, Seq<Seq<char>>), Seq<EntryView>)>,
    k: (bool, Seq<Seq<char>>),
) -> Option<Seq<EntryView>>
    decreases ls.len(),
{
    if ls.len() == 0 {
        None
    } else if ls.last().0 == k {
        Some(ls.last().1)
    } else {
        listing_of(ls.drop_last(), k)
    }
}

/// The entries of a folder; none until its listing is read.
pub open spec fn children_of(
    ls: Seq<((bool, Seq<Seq<char>>), Seq<EntryView>)>,
    k: (bool, Seq<Seq<char>>),
) -> Seq<EntryView> {
    match listing_of(ls, k) {
        Some(es) => es,
        None => seq![],
    }
}

/// The rows of the entries `es` of a folder with `dcl` components, shown at
/// `depth`: each entry, followed by the rows of its contents when it is an
/// expanded folder. `ls` are the listings read, `exp` the expanded folders.
pub open spec fn level(
    ls: Seq<((bool, Seq<Seq<char>>), Seq<EntryView>)>,
    exp: Seq<(bool, Seq<Seq<char>>)>,
    bound: nat,
    es: Seq<EntryView>,
    dcl: nat,
    depth: nat,
) -> Seq<RowView>
    decreases bound - dcl, es.len(),
{
    if es.len() == 0 {
        seq![]
    } else {
        let e = es.last();
        let k = key_of(e.path);
        let open = e.is_dir && exp.contains(k);
        let before = level(ls, exp, bound, es.drop_last(), dcl, depth);
        let row = RowView { entry: e, depth, expanded: open };
        let cl = k.1.len();
        if open && dcl < cl <= bound {
            before.push(row) + level(ls, exp, bound, children_of(ls, k), cl, depth + 1)
        } else {
            before.push(row)
        }
    }
}

/// Rows that nest from depth `d`: the first at `d`, none above it, each at
/// most one deeper than the one before and deeper only right below an
/// expanded folder; a row is expanded exactly when it is a folder among
/// `exp`.
pub open spec fn rows_nested(rs: Seq<RowView>, d: nat, exp: Seq<(bool, Seq<Seq<char>>)>) -> bool {
    &&& rs.len() > 0 ==> rs[0].depth == d
    &&& forall|i: int|
        0 <= i < rs.len() ==> (#[trigger] rs[i]).depth >= d && rs[i].expanded == (
        rs[i].entry.is_dir && exp.contains(key_of(rs[i].entry.path)))
    &&& forall|i: int, j: int|
        0 <= i && j == i + 1 && j < rs.len() ==> (#[trigger] rs[j]).depth <= (#[trigger] rs[i]).depth
            + 1 && (rs[j].depth == rs[i].depth + 1 ==> rs[i].expanded)
}

proof fn lemma_level_nested(
    ls: Seq<((bool, Seq<Seq<char>>), Seq<EntryView>)>,
    exp: Seq<(bool, Seq<Seq<char>>)>,
    bound: nat,
    es: Seq<EntryView>,
    dcl: nat,
    depth: nat,
)
    ensures
        rows_nested(level(ls, exp, bound, es, dcl, depth), depth, exp),
    decreases bound - dcl, es.len(),
{
    if es.len() > 0 {
        let e = es.last();
        let k = key_of(e.path);
        let open = e.is_dir && exp.contains(k);
        let before = level(ls, exp, bound, es.drop_last(), dcl, depth);
        lemma_level_nested(ls, exp, bound, es.drop_last(), dcl, depth);
        let row = RowView { entry: e, depth, expanded: open };
        let head = before.push(row);
        assert(rows_nested(head, depth, exp)) by {
            assert forall|i: int, j: int|
                0 <= i && j == i + 1 && j < head.len() implies (#[trigger] head[j]).depth <= (
                #[trigger] head[i]).depth + 1 && (head[j].depth == head[i].depth + 1
                ==> head[i].expanded) by {
                if j < before.len() {
                    assert(head[i] == before[i] && head[j] == before[j]);
                } else {
                    assert(head[i] == before[i]);
                    assert(before[i].depth >= depth);
                }
            }
            assert forall|i: int| 0 <= i < head.len() implies (#[trigger] head[i]).depth >= depth
                && head[i].expanded == (head[i].entry.is_dir && exp.contains(
                key_of(head[i].entry.path),
            )) by {
                if i < before.len() {
                    assert(head[i] == before[i]);
                }
            }
            if before.len() > 0 {
                assert(head[0] == before[0]);
            }
        }
        let cl = k.1.len();
        if open && dcl < cl <= bound {
            let sub = level(ls, exp, bound, children_of(ls, k), cl, depth + 1);
            lemma_level_nested(ls, exp, bound, children_of(ls, k), cl, depth + 1);
            let all = head + sub;
            assert forall|i: int, j: int|
                0 <= i && j == i + 1 && j < all.len() implies (#[trigger] all[j]).depth <= (
                #[trigger] all[i]).depth + 1 && (all[j].depth == all[i].depth + 1
                ==> all[i].expanded) by {
                if j < head.len() {
                    assert(all[i] == head[i] && all[j] == head[j]);
                } else if i >= head.len() {
                    assert(all[i] == sub[i - head.len()] && all[j] == sub[j - head.len()]);
                } else {
                    assert(all[i] == row);
                    assert(all[j] == sub[0]);
                }
            }
            assert forall|i: int| 0 <= i < all.len() implies (#[trigger] all[i]).depth >= depth
                && all[i].expanded == (all[i].entry.is_dir && exp.contains(
                key_of(all[i].entry.path),
            )) by {
                if i < head.len() {
                    assert(all[i] == head[i]);
                } else {
                    assert(all[i] == sub[i - head.len()]);
                }
            }
            assert(all[0] == head[0]);
        }
    }
}

/// The visible rows nest: the first is at depth 0, each row is at most one
/// deeper than the one before and deeper only right below an expanded
/// folder, and a row is expanded exactly when it is a folder among the
/// expanded ones.
pub proof fn lemma_shown_rows_nest(v: TreeView)
    ensures
        rows_nested(shown(v), 0, v.expanded),
{
    let rk = key_of(v.root);
    lemma_level_nested(v.listings, v.expanded, deepest(v.listings), children_of(v.listings, rk), rk.1.len(), 0);
}

/// Every listed entry lies directly in its folder and has a name that is
/// not hard-ignored.
pub open spec fn listings_ok(ls: Seq<((bool, Seq<Seq<char>>), Seq<EntryView>)>) -> bool {
    forall|i: int, j: int|
        0 <= i < ls.len() && 0 <= j < ls[i].1.len() ==> child_key(key_of((#[trigger] ls[i].1[j]).path), ls[i].0)
            && shown_entry(ls[i].1[j])
}

/// No row has a hard-ignored name, and a row one deeper than the row above
/// is an entry directly in that row's folder.
pub open spec fn rows_children(rs: Seq<RowView>) -> bool {
    &&& forall|i: int| 0 <= i < rs.len() ==> shown_entry((#[trigger] rs[i]).entry)
    &&& forall|i: int, j: int|
        0 <= i && j == i + 1 && j < rs.len() && (#[trigger] rs[j]).depth == (#[trigger] rs[i]).depth + 1
            ==> child_key(key_of(rs[j].entry.path), key_of(rs[i].entry.path))
}

proof fn lemma_listing_of_in(ls: Seq<((bool, Seq<Seq<char>>), Seq<EntryView>)>, k: (bool, Seq<Seq<char>>))
    ensures
        listing_of(ls, k) matches Some(es) ==> exists|i: int| 0 <= i < ls.len() && (#[trigger] ls[i]).0 == k && ls[i].1 == es,
    decreases ls.len(),
{
    if ls.len() > 0 && ls.last().0 != k {
        lemma_listing_of_in(ls.drop_last(), k);
        if let Some(es) = listing_of(ls, k) {
            let i = choose|i: int| 0 <= i < ls.drop_last().len() && (#[trigger] ls.drop_last()[i]).0 == k && ls.drop_last()[i].1 == es;
            assert(ls[i] == ls.drop_last()[i]);
        }
    } else if ls.len() > 0 {
        assert(ls[ls.len() - 1] == ls.last());
    }
}

proof fn lemma_children_ok(ls: Seq<((bool, Seq<Seq<char>>), Seq<EntryView>)>, k: (bool, Seq<Seq<char>>))
    requires
        listings_ok(ls),
    ensures
        forall|x: int| 0 <= x < children_of(ls, k).len() ==> child_key(key_of((#[trigger] children_of(ls, k)[x]).path), k)
            && shown_entry(children_of(ls, k)[x]),
{
    lemma_listing_of_in(ls, k);
    if let Some(es) = listing_of(ls, k) {
        let i = choose|i: int| 0 <= i < ls.len() && (#[trigger] ls[i]).0 == k && ls[i].1 == es;
        assert forall|x: int| 0 <= x < es.len() implies child_key(key_of((#[trigger] es[x]).path), k)
            && shown_entry(es[x]) by {
            assert(ls[i].1[x] == es[x]);
        }
    }
}

proof fn lemma_level_first(
    ls: Seq<((bool, Seq<Seq<char>>), Seq<EntryView>)>,
    exp: Seq<(bool, Seq<Seq<char>>)>,
    bound: nat,
    es: Seq<EntryView>,
    dcl: nat,
    depth: nat,
)
    requires
        es.len() > 0,
    ensures
        level(ls, exp, bound, es, dcl, depth).len() > 0,
        level(ls, exp, bound, es, dcl, depth)[0].entry == es[0],
    decreases es.len(),
{
    let before = level(ls, exp, bound, es.drop_last(), dcl, depth);
    if es.len() > 1 {
        lemma_level_first(ls, exp, bound, es.drop_last(), dcl, depth);
        assert(es.drop_last()[0] == es[0]);
    } else {
        assert(es.drop_last().len() == 0);
        assert(before.len() == 0);
        assert(es.last() == es[0]);
    }
}

proof fn lemma_level_children(
    ls: Seq<((bool, Seq<Seq<char>>), Seq<EntryView>)>,
    exp: Seq<(bool, Seq<Seq<char>>)>,
    bound: nat,
    es: Seq<EntryView>,
    dcl: nat,
    depth: nat,
)
    requires
        listings_ok(ls),
        forall|x: int| 0 <= x < es.len() ==> shown_entry(#[trigger] es[x]),
    ensures
        rows_children(level(ls, exp, bound, es, dcl, depth)),
    decreases bound - dcl, es.len(),
{
    if es.len() > 0 {
        let e = es.last();
        let k = key_of(e.path);
        let open = e.is_dir && exp.contains(k);
        let before = level(ls, exp, bound, es.drop_last(), dcl, depth);
        assert forall|x: int| 0 <= x < es.drop_last().len() implies shown_entry(#[trigger] es.drop_last()[x]) by {
            assert(es.drop_last()[x] == es[x]);
        }
        lemma_level_children(ls, exp, bound, es.drop_last(), dcl, depth);
        lemma_level_nested(ls, exp, bound, es.drop_last(), dcl, depth);
        assert(shown_entry(es[es.len() - 1]));
        let row = RowView { entry: e, depth, expanded: open };
        let head = before.push(row);
        assert(rows_children(head)) by {
            assert forall|i: int| 0 <= i < head.len() implies shown_entry((#[trigger] head[i]).entry) by {
                if i < before.len() {
                    assert(head[i] == before[i]);
                }
            }
            assert forall|i: int, j: int|
                0 <= i && j == i + 1 && j < head.len() && (#[trigger] head[j]).depth == (#[trigger] head[i]).depth + 1
                implies child_key(key_of(head[j].entry.path), key_of(head[i].entry.path)) by {
                if j < before.len() {
                    assert(head[i] == before[i] && head[j] == before[j]);
                } else {
                    assert(head[i] == before[i]);
                    assert(before[i].depth >= depth);
                }
            }
        }
        let cl = k.1.len();
        if open && dcl < cl <= bound {
            let ch = children_of(ls, k);
            lemma_children_ok(ls, k);
            let sub = level(ls, exp, bound, ch, cl, depth + 1);
            lemma_level_children(ls, exp, bound, ch, cl, depth + 1);
            let all = head + sub;
            if ch.len() > 0 {
                lemma_level_first(ls, exp, bound, ch, cl, depth + 1);
                lemma_level_nested(ls, exp, bound, ch, cl, depth + 1);
            }
            assert forall|i: int| 0 <= i < all.len() implies shown_entry((#[trigger] all[i]).entry) by {
                if i < head.len() {
                    assert(all[i] == head[i]);
                } else {
                    assert(all[i] == sub[i - head.len()]);
                }
            }
            assert forall|i: int, j: int|
                0 <= i && j == i + 1 && j < all.len() && (#[trigger] all[j]).depth == (#[trigger] all[i]).depth + 1
                implies child_key(key_of(all[j].entry.path), key_of(all[i].entry.path)) by {
                if j < head.len() {
                    assert(all[i] == head[i] && all[j] == head[j]);
                } else if i >= head.len() {
                    assert(all[i] == sub[i - head.len()] && all[j] == sub[j - head.len()]);
                } else {
                    assert(all[i] == row);
                    assert(all[j] == sub[0]);
                    assert(sub[0].entry == ch[0]);
                }
            }
        }
    }
}

proof fn lemma_wf_listings_ok(t: FileTree)
    requires
        t.wf(),
    ensures
        listings_ok(t@.listings),
{
    let ls = t@.listings;
    assert forall|i: int, j: int| 0 <= i < ls.len() && 0 <= j < ls[i].1.len() implies child_key(
        key_of((#[trigger] ls[i].1[j]).path),
        ls[i].0,
    ) && shown_entry(ls[i].1[j]) by {
        let l = t.listings@[i];
        assert(l.wf());
        assert(ls[i] == (l.dir.key(), l.entry_views()));
        assert(ls[i].1[j] == l.entries@[j]@);
        assert(l.keys@[j].key() == key_of(l.entries@[j].path@));
        assert(child_key(l.keys@[j].key(), l.dir.key()));
        assert(shown_entry(l.entries@[j]@));
    }
}

/// The rows of a tree are its entries laid out as a tree: they nest (see
/// `rows_nested`), no row has a hard-ignored name, and a row one deeper
/// than the row above is an entry directly in that row's folder.
pub proof fn lemma_rows_are_children(t: FileTree)
    requires
        t.wf(),
    ensures
        rows_nested(t@.rows, 0, t@.expanded),
        rows_children(t@.rows),
{
    lemma_wf_listings_ok(t);
    let v = t@;
    let rk = key_of(v.root);
    lemma_shown_rows_nest(v);
    lemma_children_ok(v.listings, rk);
    lemma_level_children(v.listings, v.expanded, deepest(v.listings), children_of(v.listings, rk), rk.1.len(), 0);
}

/// The visible rows: the root's entries at depth 0, with expanded folders
/// opened beneath them.
pub open spec fn shown(t: TreeView) -> Seq<RowView> {
    let rk = key_of(t.root);
    level(t.listings, t.expanded, deepest(t.listings), children_of(t.listings, rk), rk.1.len(), 0)
}

/// Folders whose rows wait for a listing: the root, then each expanded
/// folder, unless it is listed already (or is the root).
pub open spec fn pending_of(t: TreeView) -> Seq<Seq<char>> {
    let rk = key_of(t.root);
    let first: Seq<Seq<char>> = if listing_of(t.listings, rk) is None {
        seq![t.root]
    } else {
        seq![]
    };
    first + t.expanded.filter(
        |k: (bool, Seq<Seq<char>>)| listing_of(t.listings, k) is None && k != rk,
    ).map_values(|k: (bool, Seq<Seq<char>>)| key_text(k))
}

/// The folders on the way from `path` up to the root that `reveal` opens,
/// nearest first; `k` counts the ancestors still to visit.
pub open spec fn revealed(
    exp: Seq<(bool, Seq<Seq<char>>)>,
    root: (bool, Seq<Seq<char>>),
    p: (bool, Seq<Seq<char>>),
    k: nat,
) -> Seq<(bool, Seq<Seq<char>>)>
    decreases k,
{
    if k == 0 || k > p.1.len() {
        exp
    } else {
        let a = (p.0, p.1.take(k - 1));
        if !key_starts_with(a, root) {
            exp
        } else {
            let next = if exp.contains(a) {
                exp
            } else {
                exp.push(a)
            };
            if a == root {
                next
            } else {
                revealed(next, root, p, (k - 1) as nat)
            }
        }
    }
}

/// Folders that are never walked.
pub open spec fn hard_ignored(name: Seq<char>) -> bool {
    name == ".git"@ || name == "node_modules"@ || name == "target"@ || name == ".build"@ || name
        == "dist"@ || name == ".next"@ || name == "DerivedData"@ || name == ".venv"@
}

/// Whether a folder of this name is never walked.
pub fn is_hard_ignored(name: &str) -> (r: bool)
    ensures
        r == hard_ignored(name@),
{
    same_text(name, ".git") || same_text(name, "node_modules") || same_text(name, "target")
        || same_text(name, ".build") || same_text(name, "dist") || same_text(name, ".next")
        || same_text(name, "DerivedData") || same_text(name, ".venv")
}

/// Children of the home folder that macOS guards with a privacy prompt;
/// walks skip them when the workspace is the home folder itself.
pub open spec fn tcc_protected(name: Seq<char>) -> bool {
    name == "Desktop"@ || name == "Documents"@ || name == "Downloads"@ || name == "Pictures"@
        || name == "Music"@ || name == "Movies"@ || name == "Library"@
}

/// Whether a child of the home folder with this name is guarded.
pub fn is_tcc_protected(name: &str) -> (r: bool)
    ensures
        r == tcc_protected(name@),
{
    same_text(name, "Desktop") || same_text(name, "Documents") || same_text(name, "Downloads")
        || same_text(name, "Pictures") || same_text(name, "Music") || same_text(name, "Movies")
        || same_text(name, "Library")
}

/// Listing order: folders before files, then by lowercased name.
pub open spec fn listed_before(a: EntryView, b: EntryView) -> bool {
    (a.is_dir && !b.is_dir) || (a.is_dir == b.is_dir && lex_lt(lowercase(a.name), lowercase(b.name)))
}

pub open spec fn shown_entry(e: EntryView) -> bool {
    !hard_ignored(e.name)
}

/// `out` is a listing read as `raw`: the entries that are not hard-ignored,
/// in listing order.
pub open spec fn is_listing_of(raw: Seq<EntryView>, out: Seq<EntryView>) -> bool {
    &&& out.to_multiset() == raw.filter(|e: EntryView| shown_entry(e)).to_multiset()
    &&& forall|i: int, j: int| 0 <= i < j < out.len() ==> !listed_before(out[j], out[i])
}

proof fn lemma_listed_before(a: EntryView, b: EntryView, c: EntryView)
    ensures
        listed_before(a, b) ==> !listed_before(b, a),
        listed_before(a, b) && listed_before(b, c) ==> listed_before(a, c),
{
    lemma_lex_strict(lowercase(a.name), lowercase(b.name));
    if listed_before(a, b) && listed_before(b, c) && a.is_dir == b.is_dir && b.is_dir == c.is_dir {
        lemma_lex_trans(lowercase(a.name), lowercase(b.name), lowercase(c.name));
    }
}

proof fn lemma_insert_multiset<A>(s: Seq<A>, p: int, x: A)
    requires
        0 <= p <= s.len(),
    ensures
        s.insert(p, x).to_multiset() == s.to_multiset().insert(x),
{
    broadcast use vstd::seq_lib::group_to_multiset_ensures;

    let a = s.take(p);
    let b = s.skip(p);
    assert(s =~= a + b);
    assert(s.insert(p, x) =~= a.push(x) + b);
    vstd::seq_lib::lemma_multiset_commutative(a.push(x), b);
    vstd::seq_lib::lemma_multiset_commutative(a, b);
    assert(a.push(x).to_multiset() =~= a.to_multiset().insert(x));
    assert(s.to_multiset().insert(x) =~= a.to_multiset().add(b.to_multiset()).insert(x));
    assert(a.to_multiset().insert(x).add(b.to_multiset()) =~= a.to_multiset().add(
        b.to_multiset(),
    ).insert(x));
}

fn before_in_listing(a: &Entry, al: &Vec<char>, b: &Entry, bl: &Vec<char>) -> (r: bool)
    requires
        al@ == lowercase(a.name@),
        bl@ == lowercase(b.name@),
    ensures
        r == listed_before(a@, b@),
{
    (a.is_dir && !b.is_dir) || (a.is_dir == b.is_dir && lex_less(al, bl))
}

/// Drops hard-ignored entries and puts the rest in listing order, keeping
/// the order of entries that compare equal.
pub fn order_listing(raw: Vec<Entry>) -> (r: Vec<Entry>)
    ensures
        is_listing_of(entries_view(raw@), entries_view(r@)),
        forall|j: int| 0 <= j < r@.len() ==> entries_view(raw@).contains(#[trigger] entries_view(r@)[j]),
        forall|j: int| 0 <= j < r@.len() ==> shown_entry(#[trigger] entries_view(r@)[j]),
{
    let ghost rv = entries_view(raw@);
    let ghost pred = |e: EntryView| shown_entry(e);
    let mut out: Vec<Entry> = Vec::new();
    let mut lows: Vec<Vec<char>> = Vec::new();
    let mut k: usize = 0;
    proof {
        assert(rv.take(0) =~= Seq::<EntryView>::empty());
        reveal(Seq::filter);
    }
    assert(entries_view(out@) =~= Seq::<EntryView>::empty());
    while k < raw.len()
        invariant
            k <= raw@.len(),
            rv == entries_view(raw@),
            pred == (|e: EntryView| shown_entry(e)),
            lows@.len() == out@.len(),
            forall|i: int| 0 <= i < out@.len() ==> #[trigger] lows@[i]@ == lowercase(out@[i].name@),
            entries_view(out@).to_multiset() == rv.take(k as int).filter(pred).to_multiset(),
            forall|j: int| 0 <= j < out@.len() ==> rv.contains(#[trigger] entries_view(out@)[j]),
            forall|i: int, j: int|
                0 <= i < j < out@.len() ==> !listed_before(
                    #[trigger] entries_view(out@)[j],
                    #[trigger] entries_view(out@)[i],
                ),
        decreases raw@.len() - k,
    {
        let e = &raw[k];
        proof {
            reveal(Seq::filter);
            assert(rv.take(k + 1).drop_last() =~= rv.take(k as int));
            assert(rv.take(k + 1).last() == e@);
            if hard_ignored(e.name@) {
                assert(!pred(e@));
                assert(rv.take(k + 1).filter(pred) == rv.take(k as int).filter(pred));
            }
        }
        if !is_hard_ignored(e.name.as_str()) {
            let low = to_lowercase(&chars_of(e.name.as_str()));
            let mut p: usize = 0;
            while p < out.len() && !before_in_listing(e, &low, &out[p], &lows[p])
                invariant
                    p <= out@.len(),
                    lows@.len() == out@.len(),
                    low@ == lowercase(e.name@),
                    forall|i: int| 0 <= i < out@.len() ==> #[trigger] lows@[i]@ == lowercase(out@[i].name@),
                    forall|i: int| 0 <= i < p ==> !listed_before(e@, #[trigger] entries_view(out@)[i]),
                decreases out@.len() - p,
            {
                p += 1;
            }
            let ghost old_out = entries_view(out@);
            let ghost old_raw = out@;
            let ghost old_lows = lows@;
            let ghost x = e@;
            assert(p < old_out.len() ==> listed_before(x, old_out[p as int]));
            out.insert(p, e.copy());
            lows.insert(p, low);
            proof {
                let nv = entries_view(out@);
                assert(nv =~= old_out.insert(p as int, x));
                lemma_insert_multiset(old_out, p as int, x);
                assert(rv[k as int] == x);
                assert forall|j: int| 0 <= j < nv.len() implies rv.contains(#[trigger] nv[j]) by {
                    if j < p {
                        assert(nv[j] == old_out[j]);
                    } else if j > p {
                        assert(nv[j] == old_out[j - 1]);
                    }
                }
                assert(pred(x));
                assert(rv.take(k + 1).filter(pred) == rv.take(k as int).filter(pred).push(x));
                rv.take(k as int).filter(pred).to_multiset_ensures();
                assert forall|i: int| 0 <= i < out@.len() implies #[trigger] lows@[i]@ == lowercase(
                    out@[i].name@,
                ) by {
                    if i > p {
                        assert(out@[i] == old_raw[i - 1]);
                        assert(lows@[i] == old_lows[i - 1]);
                    } else if i < p {
                        assert(out@[i] == old_raw[i]);
                        assert(lows@[i] == old_lows[i]);
                    }
                }
                assert forall|i: int, j: int| 0 <= i < j < nv.len() implies !listed_before(
                    #[trigger] nv[j],
                    #[trigger] nv[i],
                ) by {
                    if i < p && j == p {
                    } else if i < p && j > p {
                        assert(nv[i] == old_out[i]);
                        assert(nv[j] == old_out[j - 1]);
                    } else if i == p && j > p {
                        lemma_listed_before(old_out[j - 1], x, old_out[p as int]);
                        if j - 1 > p {
                            assert(!listed_before(old_out[j - 1], old_out[p as int]));
                        }
                    } else if i > p {
                        assert(nv[i] == old_out[i - 1]);
                        assert(nv[j] == old_out[j - 1]);
                    } else {
                        assert(nv[i] == old_out[i]);
                        assert(nv[j] == old_out[j]);
                    }
                }
            }
        }
        k += 1;
    }
    assert(rv.take(raw@.len() as int) =~= rv);
    proof {
        let nv = entries_view(out@);
        let fl = rv.filter(pred);
        rv.filter_lemma(pred);
        assert forall|j: int| 0 <= j < nv.len() implies shown_entry(#[trigger] nv[j]) by {
            let x = nv[j];
            vstd::seq_lib::to_multiset_contains(nv, x);
            vstd::seq_lib::to_multiset_contains(fl, x);
            assert(nv.contains(x));
            let i = choose|i: int| 0 <= i < fl.len() && fl[i] == x;
            assert(pred(fl[i]));
        }
    }
    out
}

struct Listing {
    dir: PathKey,
    entries: Vec<Entry>,
    keys: Vec<PathKey>,
}

impl Listing {
    spec fn entry_views(&self) -> Seq<EntryView> {
        entries_view(self.entries@)
    }

    spec fn wf(&self) -> bool {
        &&& self.keys@.len() == self.entries@.len()
        &&& forall|j: int|
            0 <= j < self.keys@.len() ==> #[trigger] self.keys@[j].key() == key_of(
                self.entries@[j].path@,
            )
        &&& forall|j: int|
            0 <= j < self.keys@.len() ==> self.dir.comps@.len() < #[trigger] self.keys@[j].comps@.len()
                <= usize::MAX
        &&& forall|j: int|
            0 <= j < self.keys@.len() ==> child_key(#[trigger] self.keys@[j].key(), self.dir.key())
        &&& forall|j: int| 0 <= j < self.entries@.len() ==> shown_entry(#[trigger] self.entries@[j]@)
    }
}

/// The lazy tree of one workspace.
pub struct FileTree {
    root: String,
    root_key: PathKey,
    listings: Vec<Listing>,
    expanded: Vec<PathKey>,
    pub rows: Vec<Row>,
}

impl View for FileTree {
    type V = TreeView;

    closed spec fn view(&self) -> TreeView {
        TreeView {
            root: self.root@,
            listings: self.listings@.map_values(
                |l: Listing| (l.dir.key(), l.entry_views()),
            ),
            expanded: self.expanded@.map_values(|k: PathKey| k.key()),
            rows: rows_view(self.rows@),
        }
    }
}

impl FileTree {
    /// The parts the rows are built from: listed entries lie below their
    /// folder, and no folder is listed twice among the expanded ones.
    closed spec fn parts_wf(&self) -> bool {
        &&& self.root_key.key() == key_of(self.root@)
        &&& forall|i: int| 0 <= i < self.listings@.len() ==> #[trigger] self.listings@[i].wf()
        &&& self@.expanded.no_duplicates()
    }

    /// What every operation keeps: the parts are well formed, and the rows
    /// are the ones they show.
    pub closed spec fn wf(&self) -> bool {
        &&& self.parts_wf()
        &&& self@.rows == shown(self@)
    }

    /// A tree of `root` with nothing read or expanded yet; the root's
    /// listing is its first pending one.
    pub fn new(root: String) -> (r: FileTree)
        ensures
            r.wf(),
            r@.root == root@,
            r@.listings.len() == 0,
            r@.expanded.len() == 0,
            r@.rows == shown(r@),
    {
        let root_key = path_key(root.as_str());
        let mut tree = FileTree {
            root,
            root_key,
            listings: Vec::new(),
            expanded: Vec::new(),
            rows: Vec::new(),
        };
        tree.rebuild();
        tree
    }

    /// The visible rows.
    pub fn rows(&self) -> (r: &Vec<Row>)
        ensures
            rows_view(r@) == self@.rows,
    {
        &self.rows
    }

    /// The workspace root.
    pub fn root(&self) -> (r: &str)
        ensures
            r@ == self@.root,
    {
        self.root.as_str()
    }

    fn find_expanded(&self, k: &PathKey) -> (r: Option<usize>)
        ensures
            match r {
                Some(i) => i < self@.expanded.len() && self@.expanded[i as int] == k.key() && forall|
                    j: int,
                | 0 <= j < i ==> self@.expanded[j] != k.key(),
                None => !self@.expanded.contains(k.key()),
            },
    {
        let mut i: usize = 0;
        while i < self.expanded.len()
            invariant
                i <= self.expanded@.len(),
                self@.expanded == self.expanded@.map_values(|p: PathKey| p.key()),
                forall|j: int| 0 <= j < i ==> self@.expanded[j] != k.key(),
            decreases self.expanded@.len() - i,
        {
            if keys_equal(&self.expanded[i], k) {
                return Some(i);
            }
            i += 1;
        }
        None
    }

    /// Whether a folder is expanded.
    pub fn is_expanded(&self, path: &str) -> (r: bool)
        ensures
            r == self@.expanded.contains(key_of(path@)),
    {
        let k = path_key(path);
        self.find_expanded(&k).is_some()
    }

    fn find_listing(&self, k: &PathKey) -> (r: Option<usize>)
        ensures
            match r {
                Some(i) => i < self.listings@.len() && self.listings@[i as int].dir.key() == k.key()
                    && listing_of(self@.listings, k.key()) == Some(
                    self.listings@[i as int].entry_views(),
                ),
                None => listing_of(self@.listings, k.key()) is None,
            },
    {
        let mut i: usize = self.listings.len();
        let ghost ls = self@.listings;
        assert(ls.take(ls.len() as int) =~= ls);
        while i > 0
            invariant
                i <= self.listings@.len(),
                ls == self@.listings,
                ls.len() == self.listings@.len(),
                listing_of(ls, k.key()) == listing_of(ls.take(i as int), k.key()),
            decreases i,
        {
            assert(ls.take(i as int).drop_last() =~= ls.take(i - 1));
            assert(ls[i - 1] == (self.listings@[i - 1].dir.key(), self.listings@[i - 1].entry_views()));
            if keys_equal(&self.listings[i - 1].dir, k) {
                return Some(i - 1);
            }
            i -= 1;
        }
        None
    }
}

impl FileTree {
    spec fn es_at(&self, li: Option<usize>) -> Seq<EntryView> {
        match li {
            Some(i) => self.listings@[i as int].entry_views(),
            None => seq![],
        }
    }

    /// Appends the rows of one listing (and of the expanded folders in it).
    fn push_level(&self, li: Option<usize>, dcl: usize, depth: usize, rows: &mut Vec<Row>)
        requires
            self.parts_wf(),
            depth <= dcl,
            li matches Some(i) ==> i < self.listings@.len() && self.listings@[i as int].dir.comps@.len()
                == dcl,
        ensures
            rows_view(final(rows)@) == rows_view(old(rows)@) + level(
                self@.listings,
                self@.expanded,
                deepest(self@.listings),
                self.es_at(li),
                dcl as nat,
                depth as nat,
            ),
        decreases deepest(self@.listings) - dcl,
    {
        let ghost t = self@;
        let ghost es = self.es_at(li);
        let ghost start = rows_view(rows@);
        let i = match li {
            Some(i) => i,
            None => {
                assert(rows_view(rows@) =~= start + level(t.listings, t.expanded, deepest(t.listings), es, dcl as nat, depth as nat));
                return ;
            },
        };
        let listing = &self.listings[i];
        assert(self.listings@[i as int].wf());
        proof {
            lemma_deepest(t.listings, 0);
        }
        let n = listing.entries.len();
        let mut k: usize = 0;
        assert(es.take(0) =~= Seq::<EntryView>::empty());
        assert(rows_view(rows@) =~= start + level(t.listings, t.expanded, deepest(t.listings), es.take(0), dcl as nat, depth as nat));
        while k < n
            invariant
                self.parts_wf(),
                t == self@,
                i < self.listings@.len(),
                listing == &self.listings@[i as int],
                listing.wf(),
                forall|i2: int, j: int|
                    0 <= i2 < t.listings.len() && 0 <= j < t.listings[i2].1.len() ==> components(
                        #[trigger] t.listings[i2].1[j].path,
                    ).len() <= deepest(t.listings),
                listing.dir.comps@.len() == dcl,
                n == listing.entries@.len(),
                es == listing.entry_views(),
                es.len() == n,
                depth <= dcl,
                k <= n,
                rows_view(rows@) == start + level(t.listings, t.expanded, deepest(t.listings), es.take(k as int), dcl as nat, depth as nat),
            decreases n - k,
        {
            let e = &listing.entries[k];
            let ek = &listing.keys[k];
            assert(es[k as int] == e@);
            assert(ek.key() == key_of(e@.path));
            let open = e.is_dir && self.find_expanded(ek).is_some();
            let ghost before = rows_view(rows@);
            let ghost row_v = RowView { entry: e@, depth: depth as nat, expanded: open };
            rows.push(Row { entry: e.copy(), depth, expanded: open });
            assert(rows_view(rows@) =~= before.push(row_v));
            assert(es.take(k + 1).drop_last() =~= es.take(k as int));
            assert(es.take(k + 1).last() == es[k as int]);
            let cl = ek.comps.len();
            assert(views(ek.comps@).len() == cl);
            if open {
                assert(t.listings[i as int].1 == es);
                assert(components(t.listings[i as int].1[k as int].path).len() <= deepest(t.listings));
                let child = self.find_listing(ek);
                proof {
                    if let Some(c) = child {
                        assert(views(self.listings@[c as int].dir.comps@).len() == cl);
                    }
                }
                let ghost mid = rows_view(rows@);
                self.push_level(child, cl, depth + 1, rows);
                assert(self.es_at(child) == children_of(t.listings, key_of(e@.path)));
                assert(rows_view(rows@) =~= start + level(t.listings, t.expanded, deepest(t.listings), es.take(k + 1), dcl as nat, depth as nat));
            } else {
                assert(rows_view(rows@) =~= start + level(t.listings, t.expanded, deepest(t.listings), es.take(k + 1), dcl as nat, depth as nat));
            }
            k += 1;
        }
        assert(es.take(n as int) =~= es);
    }

    /// Rebuilds the visible rows from the listings and expanded folders.
    fn rebuild(&mut self)
        requires
            old(self).parts_wf(),
        ensures
            final(self).wf(),
            final(self)@.root == old(self)@.root,
            final(self)@.listings == old(self)@.listings,
            final(self)@.expanded == old(self)@.expanded,
            final(self)@.rows == shown(final(self)@),
    {
        let mut rows: Vec<Row> = Vec::new();
        let li = self.find_listing(&self.root_key);
        proof {
            if let Some(c) = li {
                assert(views(self.listings@[c as int].dir.comps@).len() == views(self.root_key.comps@).len());
            }
        }
        assert(rows_view(rows@) =~= Seq::<RowView>::empty());
        self.push_level(li, self.root_key.comps.len(), 0, &mut rows);
        assert(rows_view(rows@) =~= shown(self@));
        self.rows = rows;
    }
}

/// The expanded folders after toggling `k`: collapsed when expanded,
/// expanded (last) otherwise.
pub open spec fn toggled(
    expanded: Seq<(bool, Seq<Seq<char>>)>,
    k: (bool, Seq<Seq<char>>),
) -> Seq<(bool, Seq<Seq<char>>)> {
    if expanded.contains(k) {
        expanded.remove_value(k)
    } else {
        expanded.push(k)
    }
}

/// Expanding a collapsed folder and collapsing it again leaves the expanded
/// folders exactly as they were.
pub proof fn lemma_toggle_twice(expanded: Seq<(bool, Seq<Seq<char>>)>, k: (bool, Seq<Seq<char>>))
    requires
        !expanded.contains(k),
    ensures
        toggled(expanded, k).contains(k),
        toggled(toggled(expanded, k), k) == expanded,
{
    let once = expanded.push(k);
    assert(once[expanded.len() as int] == k);
    assert(once.contains(k));
    once.index_of_first_ensures(k);
    let i = once.index_of_first(k);
    assert(i matches Some(x) && x == expanded.len()) by {
        if let Some(x) = i {
            if x < expanded.len() {
                assert(expanded[x] == k);
                assert(expanded.contains(k));
            }
        }
    }
    assert(once.remove(expanded.len() as int) =~= expanded);
}

proof fn lemma_level_same_members(
    ls: Seq<((bool, Seq<Seq<char>>), Seq<EntryView>)>,
    e1: Seq<(bool, Seq<Seq<char>>)>,
    e2: Seq<(bool, Seq<Seq<char>>)>,
    bound: nat,
    es: Seq<EntryView>,
    dcl: nat,
    depth: nat,
)
    requires
        forall|q: (bool, Seq<Seq<char>>)| e1.contains(q) == e2.contains(q),
    ensures
        level(ls, e1, bound, es, dcl, depth) == level(ls, e2, bound, es, dcl, depth),
    decreases bound - dcl, es.len(),
{
    if es.len() > 0 {
        let e = es.last();
        let k = key_of(e.path);
        lemma_level_same_members(ls, e1, e2, bound, es.drop_last(), dcl, depth);
        let cl = k.1.len();
        if e.is_dir && e1.contains(k) && dcl < cl <= bound {
            lemma_level_same_members(ls, e1, e2, bound, children_of(ls, k), cl, depth + 1);
        }
    }
}

/// Toggling a folder twice restores the tree: every folder is expanded
/// exactly when it was before, and the rows shown are the tree's rows.
pub proof fn lemma_toggle_twice_restores(t: FileTree, k: (bool, Seq<Seq<char>>))
    requires
        t.wf(),
    ensures
        toggled(t@.expanded, k).no_duplicates(),
        forall|q: (bool, Seq<Seq<char>>)|
            #[trigger] toggled(toggled(t@.expanded, k), k).contains(q) == t@.expanded.contains(q),
        shown(
            TreeView {
                root: t@.root,
                listings: t@.listings,
                expanded: toggled(toggled(t@.expanded, k), k),
                rows: t@.rows,
            },
        ) == t@.rows,
{
    let e = t@.expanded;
    assert(e.no_duplicates());
    let once = toggled(e, k);
    let twice = toggled(once, k);
    if e.contains(k) {
        e.index_of_first_ensures(k);
        let i = e.index_of_first(k)->0;
        assert(once == e.remove(i));
        assert forall|q: (bool, Seq<Seq<char>>)| #[trigger] once.contains(q) == (e.contains(q) && q != k) by {
            if once.contains(q) {
                let j = choose|j: int| 0 <= j < once.len() && once[j] == q;
                if j < i {
                    assert(e[j] == q);
                } else {
                    assert(e[j + 1] == q);
                    assert(j + 1 != i);
                }
            }
            if e.contains(q) && q != k {
                let j = choose|j: int| 0 <= j < e.len() && e[j] == q;
                assert(j != i);
                if j < i {
                    assert(once[j] == q);
                } else {
                    assert(once[j - 1] == q);
                }
            }
        }
        assert(once.no_duplicates()) by {
            assert forall|a: int, b: int| 0 <= a < b < once.len() implies once[a] != once[b] by {
                let a2 = if a < i { a } else { a + 1 };
                let b2 = if b < i { b } else { b + 1 };
                assert(once[a] == e[a2]);
                assert(once[b] == e[b2]);
            }
        }
        assert(!once.contains(k));
        assert(twice == once.push(k));
        assert forall|q: (bool, Seq<Seq<char>>)| #[trigger] twice.contains(q) == e.contains(q) by {
            if twice.contains(q) {
                let j = choose|j: int| 0 <= j < twice.len() && twice[j] == q;
                if j < once.len() {
                    assert(once[j] == q);
                }
            }
            if e.contains(q) {
                if q == k {
                    assert(twice[once.len() as int] == q);
                } else {
                    assert(once.contains(q));
                    let j = choose|j: int| 0 <= j < once.len() && once[j] == q;
                    assert(twice[j] == q);
                }
            }
        }
    } else {
        lemma_toggle_twice(e, k);
        assert(once == e.push(k));
        assert(once.no_duplicates()) by {
            assert forall|a: int, b: int| 0 <= a < b < once.len() implies once[a] != once[b] by {
                if b == e.len() {
                    assert(once[a] == e[a]);
                    assert(e.contains(e[a]));
                }
            }
        }
    }
    let rk = key_of(t@.root);
    lemma_level_same_members(
        t@.listings,
        twice,
        e,
        deepest(t@.listings),
        children_of(t@.listings, rk),
        rk.1.len(),
        0,
    );
}

/// The expanded folders after toggling each of `ks` in turn.
pub open spec fn toggle_all(
    expanded: Seq<(bool, Seq<Seq<char>>)>,
    ks: Seq<(bool, Seq<Seq<char>>)>,
) -> Seq<(bool, Seq<Seq<char>>)>
    decreases ks.len(),
{
    if ks.len() == 0 {
        expanded
    } else {
        toggled(toggle_all(expanded, ks.drop_last()), ks.last())
    }
}

/// The view of a fresh tree of `root` after toggling each of `ks` in turn,
/// by the contracts of `new` and `toggle`: nothing listed, the toggled
/// folders expanded, and the rows they show.
pub open spec fn reopened(root: Seq<char>, ks: Seq<(bool, Seq<Seq<char>>)>) -> TreeView {
    let bare = TreeView {
        root,
        listings: Seq::empty(),
        expanded: toggle_all(Seq::empty(), ks),
        rows: Seq::empty(),
    };
    TreeView { rows: shown(bare), ..bare }
}

/// The view of `v` after `refresh`, by its contract: nothing listed, the
/// same folders expanded, and the rows they show.
pub open spec fn refreshed_of(v: TreeView) -> TreeView {
    let bare = TreeView { root: v.root, listings: Seq::empty(), expanded: v.expanded, rows: Seq::empty() };
    TreeView { rows: shown(bare), ..bare }
}

/// A fresh tree of the same root whose folders are toggled open one by one,
/// in the order this tree keeps them, ends with exactly these expanded
/// folders, in this order. So a refreshed tree (same root, nothing listed,
/// same expanded folders) is that fresh tree, and reads every folder again.
pub proof fn lemma_reopening_restores_expanded(t: FileTree)
    requires
        t.wf(),
    ensures
        toggle_all(Seq::empty(), t@.expanded) == t@.expanded,
        reopened(t@.root, t@.expanded) == refreshed_of(t@),
{
    let e = t@.expanded;
    assert(e.no_duplicates());
    lemma_toggle_all_fresh(e, e.len() as int);
    assert(e.take(e.len() as int) =~= e);
}

proof fn lemma_toggle_all_fresh(ks: Seq<(bool, Seq<Seq<char>>)>, n: int)
    requires
        ks.no_duplicates(),
        0 <= n <= ks.len(),
    ensures
        toggle_all(Seq::empty(), ks.take(n)) == ks.take(n),
    decreases n,
{
    if n > 0 {
        lemma_toggle_all_fresh(ks, n - 1);
        let pre = ks.take(n - 1);
        assert(ks.take(n).drop_last() =~= pre);
        assert(ks.take(n).last() == ks[n - 1]);
        assert(!pre.contains(ks[n - 1])) by {
            if pre.contains(ks[n - 1]) {
                let j = choose|j: int| 0 <= j < pre.len() && pre[j] == ks[n - 1];
                assert(ks[j] == ks[n - 1]);
            }
        }
        assert(pre.push(ks[n - 1]) =~= ks.take(n));
    } else {
        assert(ks.take(0) =~= Seq::<(bool, Seq<Seq<char>>)>::empty());
    }
}

impl FileTree {
    /// Collapses an expanded folder, or expands a collapsed one; an expanded
    /// folder's rows wait for its listing until it is loaded.
    pub fn toggle(&mut self, path: &str)
        requires
            old(self).wf(),
        ensures
            final(self).wf(),
            final(self)@.root == old(self)@.root,
            final(self)@.listings == old(self)@.listings,
            final(self)@.expanded == toggled(old(self)@.expanded, key_of(path@)),
            final(self)@.rows == shown(final(self)@),
    {
        let k = path_key(path);
        let ghost before = self@.expanded;
        match self.find_expanded(&k) {
            Some(i) => {
                proof {
                    before.index_of_first_ensures(k.key());
                }
                self.expanded.remove(i);
                assert(self@.expanded =~= before.remove(i as int));
            },
            None => {
                self.expanded.push(k);
                assert(self@.expanded =~= before.push(key_of(path@)));
            },
        }
        self.rebuild();
    }

    /// Expands every folder between the root and `path`, so that `path`
    /// shows as a row once the listings are loaded.
    pub fn reveal_path(&mut self, path: &str)
        requires
            old(self).wf(),
        ensures
            final(self).wf(),
            final(self)@.root == old(self)@.root,
            final(self)@.listings == old(self)@.listings,
            final(self)@.expanded == revealed(
                old(self)@.expanded,
                key_of(old(self)@.root),
                key_of(path@),
                components(path@).len(),
            ),
            final(self)@.rows == shown(final(self)@),
    {
        let p = path_key(path);
        let ghost rk = key_of(self@.root);
        let ghost goal = revealed(self@.expanded, rk, p.key(), p.key().1.len());
        let mut k: usize = p.comps.len();
        let mut done = false;
        while k > 0 && !done
            invariant
                self.parts_wf(),
                self@.root == old(self)@.root,
                self@.listings == old(self)@.listings,
                rk == key_of(self@.root),
                self.root_key.key() == rk,
                k <= p.comps@.len(),
                done ==> self@.expanded == goal,
                !done ==> goal == revealed(self@.expanded, rk, p.key(), k as nat),
            decreases k + (if done {
                0int
            } else {
                1int
            }),
        {
            let a = key_prefix(&p, k - 1);
            if !key_has_prefix(&a, &self.root_key) {
                done = true;
            } else {
                let is_root = keys_equal(&a, &self.root_key);
                let ghost before = self@.expanded;
                if self.find_expanded(&a).is_none() {
                    self.expanded.push(a);
                    assert(self@.expanded =~= before.push((p.key().0, p.key().1.take(k - 1))));
                }
                if is_root {
                    done = true;
                }
                k -= 1;
            }
        }
        self.rebuild();
    }

    /// Forgets every listing. The root and the expanded folders are read
    /// again, in the order `pending_listings` gives.
    pub fn refresh(&mut self)
        requires
            old(self).wf(),
        ensures
            final(self).wf(),
            final(self)@.root == old(self)@.root,
            final(self)@.listings == Seq::<((bool, Seq<Seq<char>>), Seq<EntryView>)>::empty(),
            final(self)@.expanded == old(self)@.expanded,
            final(self)@.rows == shown(final(self)@),
            final(self)@ == refreshed_of(old(self)@),
    {
        self.listings = Vec::new();
        assert(self@.listings =~= Seq::<((bool, Seq<Seq<char>>), Seq<EntryView>)>::empty());
        self.rebuild();
    }

    /// The folders whose listings the rows wait for.
    pub fn pending_listings(&self) -> (r: Vec<String>)
        requires
            self.wf(),
        ensures
            r@.map_values(|s: String| s@) == pending_of(self@),
    {
        let mut out: Vec<String> = Vec::new();
        let ghost t = self@;
        let ghost rk = key_of(t.root);
        let ghost pred = |k: (bool, Seq<Seq<char>>)| listing_of(t.listings, k) is None && k != rk;
        let ghost first: Seq<Seq<char>> = if listing_of(t.listings, rk) is None {
            seq![t.root]
        } else {
            seq![]
        };
        if self.find_listing(&self.root_key).is_none() {
            out.push(self.root.clone());
        }
        assert(out@.map_values(|s: String| s@) =~= first);
        let mut i: usize = 0;
        proof {
            reveal(Seq::filter);
            assert(t.expanded.take(0) =~= Seq::<(bool, Seq<Seq<char>>)>::empty());
            assert(first + t.expanded.take(0).filter(pred).map_values(
                |k: (bool, Seq<Seq<char>>)| key_text(k),
            ) =~= first);
        }
        while i < self.expanded.len()
            invariant
                self.wf(),
                t == self@,
                rk == key_of(t.root),
                self.root_key.key() == rk,
                pred == (|k: (bool, Seq<Seq<char>>)| listing_of(t.listings, k) is None && k != rk),
                i <= self.expanded@.len(),
                t.expanded.len() == self.expanded@.len(),
                out@.map_values(|s: String| s@) == first + t.expanded.take(i as int).filter(
                    pred,
                ).map_values(|k: (bool, Seq<Seq<char>>)| key_text(k)),
            decreases self.expanded@.len() - i,
        {
            let k = &self.expanded[i];
            let ghost before = out@.map_values(|s: String| s@);
            proof {
                reveal(Seq::filter);
                assert(t.expanded.take(i + 1).drop_last() =~= t.expanded.take(i as int));
                assert(t.expanded.take(i + 1).last() == k.key());
                if pred(k.key()) {
                    assert(t.expanded.take(i + 1).filter(pred) == t.expanded.take(i as int).filter(
                        pred,
                    ).push(k.key()));
                } else {
                    assert(t.expanded.take(i + 1).filter(pred) == t.expanded.take(i as int).filter(
                        pred,
                    ));
                }
            }
            if self.find_listing(k).is_none() && !keys_equal(k, &self.root_key) {
                let text = key_to_text(k);
                out.push(text);
                assert(pred(k.key()));
                let ghost fl = t.expanded.take(i as int).filter(pred);
                assert(out@.map_values(|s: String| s@) =~= before.push(key_text(k.key())));
                assert(fl.push(k.key()).map_values(|k: (bool, Seq<Seq<char>>)| key_text(k))
                    =~= fl.map_values(|k: (bool, Seq<Seq<char>>)| key_text(k)).push(
                    key_text(k.key()),
                ));
                assert(out@.map_values(|s: String| s@) =~= first + t.expanded.take(i + 1).filter(
                    pred,
                ).map_values(|k: (bool, Seq<Seq<char>>)| key_text(k)));
            } else {
                assert(!pred(k.key()));
                assert(out@.map_values(|s: String| s@) =~= first + t.expanded.take(i + 1).filter(
                    pred,
                ).map_values(|k: (bool, Seq<Seq<char>>)| key_text(k)));
            }
            i += 1;
        }
        assert(t.expanded.take(self.expanded@.len() as int) =~= t.expanded);
        out
    }

    /// Records the listing read for folder `dir` (unless one is recorded
    /// already) and rebuilds the rows. Hard-ignored entries are dropped and
    /// the rest put in listing order. Every entry lies directly in `dir`, as a
    /// directory read gives them.
    pub fn load(&mut self, dir: &str, entries: Vec<Entry>)
        requires
            old(self).wf(),
            forall|j: int|
                0 <= j < entries@.len() ==> child_key(key_of(#[trigger] entries@[j].path@), key_of(dir@)),
        ensures
            final(self).wf(),
            final(self)@.root == old(self)@.root,
            final(self)@.expanded == old(self)@.expanded,
            listing_of(old(self)@.listings, key_of(dir@)) is Some ==> final(self)@.listings
                == old(self)@.listings,
            listing_of(old(self)@.listings, key_of(dir@)) is None ==> {
                &&& final(self)@.listings.len() == old(self)@.listings.len() + 1
                &&& final(self)@.listings.drop_last() == old(self)@.listings
                &&& final(self)@.listings.last().0 == key_of(dir@)
                &&& is_listing_of(entries_view(entries@), final(self)@.listings.last().1)
            },
            final(self)@.rows == shown(final(self)@),
    {
        let dk = path_key(dir);
        if self.find_listing(&dk).is_some() {
            self.rebuild();
            return ;
        }
        let ghost raw = entries_view(entries@);
        let ordered = order_listing(entries);
        proof {
            assert forall|j: int| 0 <= j < ordered@.len() implies child_key(
                key_of(#[trigger] ordered@[j].path@),
                key_of(dir@),
            ) by {
                let x = entries_view(ordered@)[j];
                assert(raw.contains(x));
                let ri = choose|ri: int| 0 <= ri < raw.len() && raw[ri] == x;
                assert(raw[ri] == entries@[ri]@);
            }
        }
        let mut keys: Vec<PathKey> = Vec::new();
        let mut j: usize = 0;
        while j < ordered.len()
            invariant
                j <= ordered@.len(),
                keys@.len() == j,
                dk.key() == key_of(dir@),
                forall|q: int| 0 <= q < ordered@.len() ==> child_key(key_of(#[trigger] ordered@[q].path@), key_of(dir@)),
                forall|q: int| 0 <= q < j ==> #[trigger] keys@[q].key() == key_of(ordered@[q].path@),
                forall|q: int|
                    0 <= q < j ==> dk.comps@.len() < #[trigger] keys@[q].comps@.len() <= usize::MAX,
                forall|q: int| 0 <= q < j ==> child_key(#[trigger] keys@[q].key(), dk.key()),
            decreases ordered@.len() - j,
        {
            let key = path_key(ordered[j].path.as_str());
            let n = key.comps.len();
            assert(views(key.comps@).len() == n);
            assert(views(dk.comps@).len() == dk.comps@.len());
            keys.push(key);
            j += 1;
        }
        let ghost before = self@.listings;
        assert forall|q: int| 0 <= q < ordered@.len() implies shown_entry(#[trigger] ordered@[q]@) by {
            assert(entries_view(ordered@)[q] == ordered@[q]@);
        }
        let listing = Listing { dir: dk, entries: ordered, keys };
        assert(listing.wf());
        self.listings.push(listing);
        assert(self@.listings.drop_last() =~= before);
        self.rebuild();
    }
}

} // verus!
