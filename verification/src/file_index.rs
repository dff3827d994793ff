//! The workspace file index: one ordered list of candidate files, shared by
//! Quick Open and Search All Files. Walking the folder is the caller's part;
//! each walked file is admitted and described here.
use vstd::prelude::*;

use crate::fs_tree::{PathKey, key_has_prefix, key_of, key_starts_with, key_text, key_to_text, path_key};
use crate::paths::{file_name, path_file_name, views};
use crate::text::{chars_of, lemma_lex_strict, lemma_lex_trans, lex_less, lex_lt, lowercase, string_of, to_lowercase};

verus! {

/// Files above this size are never indexed or searched (2 MiB).
pub const MAX_TEXT_BYTES: u64 = 2097152;

/// One indexed file.
#[derive(Clone, Debug)]
pub struct IndexedFile {
    pub absolute: String,
    pub relative: String,
    pub name: String,
    /// Lowercased relative path, so ranking never lowercases per keystroke.
    pub haystack: String,
}

/// Whether a walked entry is indexed: a regular file whose size is known
/// and within `MAX_TEXT_BYTES`.
pub fn admits(is_file: bool, size: Option<u64>) -> (r: bool)
    ensures
        r == (is_file && (size matches Some(n) && n <= MAX_TEXT_BYTES)),
{
    is_file && match size {
        Some(n) => n <= MAX_TEXT_BYTES,
        None => false,
    }
}

/// The index entry of a file at `absolute` below `root`: its path relative
/// to the root (components joined by `/`), its name, and the lowercased
/// relative path. `None` when the file does not lie below the root.
pub open spec fn indexed_of(root: Seq<char>, absolute: Seq<char>, f: IndexedFile) -> bool {
    let rest = key_of(absolute).1.skip(key_of(root).1.len() as int);
    &&& f.absolute@ == absolute
    &&& f.relative@ == key_text((false, rest))
    &&& f.name@ == (match file_name(absolute) {
        Some(n) => n,
        None => seq![],
    })
    &&& f.haystack@ == lowercase(f.relative@)
}

/// The index entry of a file at `absolute`, when it lies below `root`.
pub fn indexed_file(root: &str, absolute: &str) -> (r: Option<IndexedFile>)
    ensures
        r is Some <==> key_starts_with(key_of(absolute@), key_of(root@)),
        r matches Some(f) ==> indexed_of(root@, absolute@, f),
{
    let rk = path_key(root);
    let ak = path_key(absolute);
    if !key_has_prefix(&ak, &rk) {
        return None;
    }
    let mut rest: Vec<Vec<char>> = Vec::new();
    let mut i: usize = rk.comps.len();
    while i < ak.comps.len()
        invariant
            rk.comps@.len() <= i <= ak.comps@.len(),
            views(rest@) =~= views(ak.comps@).subrange(rk.comps@.len() as int, i as int),
        decreases ak.comps@.len() - i,
    {
        let c = crate::text::copy_chars(&ak.comps[i]);
        let ghost before = views(rest@);
        rest.push(c);
        assert(views(rest@) =~= before.push(c@));
        assert(views(ak.comps@).subrange(rk.comps@.len() as int, i + 1) =~= views(
            ak.comps@,
        ).subrange(rk.comps@.len() as int, i as int).push(ak.comps@[i as int]@));
        i += 1;
    }
    assert(views(rk.comps@).len() == rk.comps@.len());
    let relative = key_to_text(&PathKey { abs: false, comps: rest });
    let name = match path_file_name(absolute) {
        Some(n) => n,
        None => String::new(),
    };
    let haystack = string_of(&to_lowercase(&chars_of(relative.as_str())));
    Some(IndexedFile { absolute: absolute.to_string(), relative, name, haystack })
}

impl IndexedFile {
    /// A copy with the same fields.
    pub fn copy(&self) -> (r: IndexedFile)
        ensures
            r == *self,
    {
        IndexedFile {
            absolute: self.absolute.clone(),
            relative: self.relative.clone(),
            name: self.name.clone(),
            haystack: self.haystack.clone(),
        }
    }
}

/// `files` ordered by relative path (`str` order).
pub open spec fn sorted_by_relative(files: Seq<IndexedFile>) -> bool {
    forall|i: int, j: int|
        0 <= i < j < files.len() ==> !lex_lt(files[j].relative@, files[i].relative@)
}

proof fn lemma_insert_multiset_file(s: Seq<IndexedFile>, p: int, x: IndexedFile)
    requires
        0 <= p <= s.len(),
    ensures
        s.insert(p, x).to_multiset() == s.to_multiset().insert(x),
{
    broadcast use vstd::seq_lib::group_to_multiset_ensures;

    let a = s.take(p);
    let b = s.skip(p);
    assert(s =~= a + b);
    assert(s.insert(p, x) =~= a.push(x) + b);
    vstd::seq_lib::lemma_multiset_commutative(a.push(x), b);
    vstd::seq_lib::lemma_multiset_commutative(a, b);
    assert(a.push(x).to_multiset() =~= a.to_multiset().insert(x));
    assert(a.to_multiset().insert(x).add(b.to_multiset()) =~= a.to_multiset().add(
        b.to_multiset(),
    ).insert(x));
}

/// Orders the index by relative path, keeping the order of equal paths.
pub fn sort_index(files: Vec<IndexedFile>) -> (r: Vec<IndexedFile>)
    ensures
        r@.to_multiset() == files@.to_multiset(),
        sorted_by_relative(r@),
{
    let mut out: Vec<IndexedFile> = Vec::new();
    let mut names: Vec<Vec<char>> = Vec::new();
    let mut k: usize = 0;
    let ghost all = files@;
    assert(all.take(0) =~= Seq::<IndexedFile>::empty());
    while k < files.len()
        invariant
            all == files@,
            k <= files@.len(),
            names@.len() == out@.len(),
            forall|i: int| 0 <= i < out@.len() ==> #[trigger] names@[i]@ == out@[i].relative@,
            out@.to_multiset() == all.take(k as int).to_multiset(),
            sorted_by_relative(out@),
        decreases files@.len() - k,
    {
        let c = files[k].copy();
        let name = chars_of(c.relative.as_str());
        let mut p: usize = 0;
        while p < out.len() && !lex_less(&name, &names[p])
            invariant
                p <= out@.len(),
                names@.len() == out@.len(),
                name@ == c.relative@,
                forall|i: int| 0 <= i < out@.len() ==> #[trigger] names@[i]@ == out@[i].relative@,
                forall|i: int| 0 <= i < p ==> !lex_lt(c.relative@, #[trigger] out@[i].relative@),
            decreases out@.len() - p,
        {
            p += 1;
        }
        let ghost old_out = out@;
        let ghost old_names = names@;
        assert(p < old_out.len() ==> lex_lt(c.relative@, old_out[p as int].relative@));
        out.insert(p, c);
        names.insert(p, name);
        proof {
            lemma_insert_multiset_file(old_out, p as int, all[k as int]);
            assert(all.take(k + 1) =~= all.take(k as int).push(all[k as int]));
            all.take(k as int).to_multiset_ensures();
            assert forall|i: int| 0 <= i < out@.len() implies #[trigger] names@[i]@
                == out@[i].relative@ by {
                if i > p {
                    assert(out@[i] == old_out[i - 1]);
                    assert(names@[i] == old_names[i - 1]);
                } else if i < p {
                    assert(out@[i] == old_out[i]);
                    assert(names@[i] == old_names[i]);
                }
            }
            assert forall|i: int, j: int| 0 <= i < j < out@.len() implies !lex_lt(
                out@[j].relative@,
                out@[i].relative@,
            ) by {
                let x = all[k as int].relative@;
                if i < p && j == p {
                } else if i < p && j > p {
                    assert(out@[i] == old_out[i]);
                    assert(out@[j] == old_out[j - 1]);
                } else if i == p && j > p {
                    assert(out@[j] == old_out[j - 1]);
                    lemma_lex_strict(old_out[j - 1].relative@, x);
                    if lex_lt(old_out[j - 1].relative@, x) {
                        lemma_lex_trans(old_out[j - 1].relative@, x, old_out[p as int].relative@);
                    }
                } else if i > p {
                    assert(out@[i] == old_out[i - 1]);
                    assert(out@[j] == old_out[j - 1]);
                } else {
                    assert(out@[i] == old_out[i]);
                    assert(out@[j] == old_out[j]);
                }
            }
        }
        k += 1;
    }
    assert(all.take(all.len() as int) =~= all);
    out
}

/// The soft-wrap preference, shared by every editor.
#[derive(Clone, Copy, Debug)]
pub struct WordWrap(pub bool);

/// Whether editors wrap: the preference when one is set, else no.
pub fn wraps(preference: Option<WordWrap>) -> (r: bool)
    ensures
        r == (preference matches Some(w) && w.0),
{
    match preference {
        Some(w) => w.0,
        None => false,
    }
}

} // verus!
