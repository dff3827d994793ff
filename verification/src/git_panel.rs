//! The Git panel's two-step discard, and the changes a folder row acts on.
//!
//! Reverting is destructive, so the first click only arms the row and a
//! second click on the same row discards; an armed row disarms itself after
//! a while.
use vstd::prelude::*;

use crate::git::{Change, ChangeKind};
use crate::text::{append_chars, chars_of, same_text, starts_with, string_of};

verus! {

/// Which row, if any, is armed for a discard.
pub struct DiscardGuard {
    armed: Option<String>,
}

/// What a click on a revert button does.
#[derive(Clone, Copy, Debug, PartialEq, Eq)]
pub enum Click {
    /// The row was armed: run the discard now.
    Discard,
    /// The row is armed now; a second click discards.
    Armed,
}

pub open spec fn armed_view(a: Option<String>) -> Option<Seq<char>> {
    match a {
        Some(k) => Some(k@),
        None => None,
    }
}

/// The guard after a click on row `key`, and what the click does.
pub open spec fn clicked(armed: Option<Seq<char>>, key: Seq<char>) -> (Option<Seq<char>>, Click) {
    if armed == Some(key) {
        (None, Click::Discard)
    } else {
        (Some(key), Click::Armed)
    }
}

/// The guard after the arming of row `key` runs out.
pub open spec fn expired(armed: Option<Seq<char>>, key: Seq<char>) -> Option<Seq<char>> {
    if armed == Some(key) {
        None
    } else {
        armed
    }
}

impl DiscardGuard {
    /// The row armed, if any.
    pub closed spec fn armed(&self) -> Option<Seq<char>> {
        armed_view(self.armed)
    }

    /// Nothing armed.
    pub fn new() -> (r: DiscardGuard)
        ensures
            r.armed() is None,
    {
        DiscardGuard { armed: None }
    }

    /// Whether row `key` is armed.
    pub fn is_armed(&self, key: &str) -> (r: bool)
        ensures
            r == (self.armed() == Some(key@)),
    {
        match &self.armed {
            Some(k) => same_text(k.as_str(), key),
            None => false,
        }
    }

    /// A click on the revert button of row `key`.
    pub fn click(&mut self, key: &str) -> (r: Click)
        ensures
            (final(self).armed(), r) == clicked(old(self).armed(), key@),
    {
        if self.is_armed(key) {
            self.armed = None;
            Click::Discard
        } else {
            self.armed = Some(key.to_string());
            Click::Armed
        }
    }

    /// The arming of row `key` ran out; true when it was still armed.
    pub fn expire(&mut self, key: &str) -> (r: bool)
        ensures
            final(self).armed() == expired(old(self).armed(), key@),
            r == (old(self).armed() == Some(key@)),
    {
        if self.is_armed(key) {
            self.armed = None;
            true
        } else {
            false
        }
    }
}

/// The status shown once a row is armed.
pub fn armed_status() -> (r: String)
    ensures
        r@ == "click revert again to discard"@,
{
    "click revert again to discard".to_string()
}

/// The status after a discard: the first failure, or success.
pub fn discard_status(failure: Option<String>) -> (r: String)
    ensures
        r@ == (match failure {
            Some(e) => e@,
            None => "discarded"@,
        }),
{
    match failure {
        Some(e) => e,
        None => "discarded".to_string(),
    }
}

/// Two clicks on one row discard it; a click on another row in between
/// moves the arming there instead, and a late run-out of the first row's
/// arming leaves the other row armed.
pub proof fn lemma_second_click_discards(armed: Option<Seq<char>>, a: Seq<char>, b: Seq<char>)
    requires
        armed != Some(a),
        a != b,
    ensures
        clicked(clicked(armed, a).0, a).1 == Click::Discard,
        clicked(clicked(armed, a).0, a).0 is None,
        clicked(clicked(armed, a).0, b).1 == Click::Armed,
        expired(clicked(clicked(armed, a).0, b).0, a) == Some(b),
{
}

/// The key a folder row arms under: the section title and the folder.
pub fn folder_key(title: &str, prefix: &str) -> (r: String)
    ensures
        r@ == title@ + "-dir-"@ + prefix@,
{
    let mut c = chars_of(title);
    append_chars(&mut c, &chars_of("-dir-"));
    append_chars(&mut c, &chars_of(prefix));
    string_of(&c)
}

/// The changes under a folder row, with whether each is untracked.
pub open spec fn subtree_of(changes: Seq<Change>, prefix: Seq<char>) -> Seq<(Seq<char>, bool)>
    decreases changes.len(),
{
    if changes.len() == 0 {
        Seq::empty()
    } else {
        let rest = subtree_of(changes.drop_last(), prefix);
        let c = changes.last();
        if (prefix + "/"@).is_prefix_of(c.path@) {
            rest.push((c.path@, c.kind == ChangeKind::Untracked))
        } else {
            rest
        }
    }
}

pub open spec fn items_view(v: Seq<(String, bool)>) -> Seq<(Seq<char>, bool)> {
    v.map_values(|x: (String, bool)| (x.0@, x.1))
}

/// The changes under the folder `prefix`, in order, with whether each is
/// untracked: what the folder row reverts or unstages.
pub fn subtree_items(changes: &Vec<Change>, prefix: &str) -> (r: Vec<(String, bool)>)
    ensures
        items_view(r@) == subtree_of(changes@, prefix@),
{
    let mut dir = chars_of(prefix);
    append_chars(&mut dir, &chars_of("/"));
    let ghost cs = changes@;
    let mut out: Vec<(String, bool)> = Vec::new();
    let mut i: usize = 0;
    while i < changes.len()
        invariant
            i <= cs.len(),
            cs == changes@,
            dir@ == prefix@ + "/"@,
            items_view(out@) == subtree_of(cs.subrange(0, i as int), prefix@),
        decreases cs.len() - i,
    {
        assert(cs.subrange(0, i + 1).drop_last() =~= cs.subrange(0, i as int));
        let c = &changes[i];
        if starts_with(&chars_of(c.path.as_str()), &dir) {
            let untracked = match c.kind {
                ChangeKind::Untracked => true,
                _ => false,
            };
            let ghost before = items_view(out@);
            out.push((c.path.clone(), untracked));
            assert(items_view(out@) =~= before.push((c.path@, untracked)));
        }
        i += 1;
    }
    assert(cs.subrange(0, cs.len() as int) =~= cs);
    out
}

} // verus!
