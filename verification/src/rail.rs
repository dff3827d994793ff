//! The workspace rail: the order of the open workspaces and which one is
//! active, as workspaces are moved and closed.
use vstd::prelude::*;

use crate::paths::{paths_equal, same_path};

verus! {

pub open spec fn roots_view(v: Seq<String>) -> Seq<Seq<char>> {
    v.map_values(|s: String| s@)
}

/// The first of the first `n` roots that is the same path as `root`.
pub open spec fn first_root(roots: Seq<Seq<char>>, root: Seq<char>, n: int) -> Option<int>
    decreases n,
{
    if n <= 0 {
        None
    } else {
        match first_root(roots, root, n - 1) {
            Some(i) => Some(i),
            None => if same_path(roots[n - 1], root) {
                Some(n - 1)
            } else {
                None
            },
        }
    }
}

/// The rail after the workspace at `from` is taken out and put back at
/// `to` (the end when `to` is past it).
pub open spec fn moved_roots(roots: Seq<Seq<char>>, from: int, to: int) -> Seq<Seq<char>> {
    let rest = roots.remove(from);
    rest.insert(if to < rest.len() {
        to
    } else {
        rest.len() as int
    }, roots[from])
}

/// The active workspace after a move: the first one with the active
/// workspace's root.
pub open spec fn active_after_move(roots: Seq<Seq<char>>, active: usize, from: int, to: int) -> usize {
    if active < roots.len() {
        match first_root(moved_roots(roots, from, to), roots[active as int], roots.len() as int) {
            Some(i) => i as usize,
            None => active,
        }
    } else {
        active
    }
}

proof fn lemma_first_root_found(roots: Seq<Seq<char>>, root: Seq<char>, n: int, k: int)
    requires
        0 <= k < n <= roots.len(),
        same_path(roots[k], root),
    ensures
        first_root(roots, root, n) matches Some(i) && 0 <= i <= k && same_path(roots[i], root),
    decreases n,
{
    if n - 1 > k {
        lemma_first_root_found(roots, root, n - 1, k);
    } else {
        if first_root(roots, root, n - 1) is Some {
            lemma_first_root_bounds(roots, root, n - 1);
        }
    }
}

proof fn lemma_first_root_bounds(roots: Seq<Seq<char>>, root: Seq<char>, n: int)
    requires
        0 <= n,
    ensures
        first_root(roots, root, n) matches Some(i) ==> 0 <= i < n && same_path(roots[i], root),
    decreases n,
{
    if n > 0 {
        lemma_first_root_bounds(roots, root, n - 1);
    }
}

/// Moving a workspace only reorders the list: the same roots, each as often
/// as before, the moved one at `min(to, len - 1)`, and the active index
/// still on the root that was active.
pub proof fn lemma_move_keeps_roots_and_active(
    roots: Seq<Seq<char>>,
    active: usize,
    from: int,
    to: int,
)
    requires
        0 <= from < roots.len() <= usize::MAX,
        0 <= to,
        from != to,
        active < roots.len(),
    ensures
        moved_roots(roots, from, to).len() == roots.len(),
        moved_roots(roots, from, to).to_multiset() == roots.to_multiset(),
        moved_roots(roots, from, to)[if to < roots.len() - 1 {
            to
        } else {
            roots.len() - 1
        }] == roots[from],
        active_after_move(roots, active, from, to) < roots.len(),
        same_path(
            moved_roots(roots, from, to)[active_after_move(roots, active, from, to) as int],
            roots[active as int],
        ),
{
    broadcast use vstd::seq_lib::to_multiset_remove, vstd::seq_lib::to_multiset_insert;

    let rest = roots.remove(from);
    let t: int = if to < rest.len() {
        to
    } else {
        rest.len() as int
    };
    let moved = moved_roots(roots, from, to);
    assert(moved == rest.insert(t, roots[from]));
    assert(rest.to_multiset() == roots.to_multiset().remove(roots[from]));
    assert(roots.to_multiset().count(roots[from]) > 0) by {
        vstd::seq_lib::to_multiset_contains(roots, roots[from]);
    }
    assert(moved.to_multiset() =~= roots.to_multiset());
    let k: int = if active == from {
        t
    } else if active < from {
        if active < t {
            active as int
        } else {
            active + 1
        }
    } else {
        if active - 1 < t {
            active - 1
        } else {
            active as int
        }
    };
    assert(moved[k] == roots[active as int]);
    let root = roots[active as int];
    assert(same_path(moved[k], root));
    lemma_first_root_found(moved, root, roots.len() as int, k);
    let i = first_root(moved, root, roots.len() as int)->0;
    assert(active_after_move(roots, active, from, to) == i as usize);
    assert((i as usize) as int == i);
}

/// Moves the workspace at `from` so it ends up at `to`, which is what
/// taking it out and putting it back there gives. Returns the active
/// workspace, which follows its root.
pub fn move_workspace(roots: &mut Vec<String>, active: usize, from: usize, to: usize) -> (r: usize)
    ensures
        (from == to || from >= old(roots)@.len()) ==> final(roots)@ == old(roots)@ && r == active,
        !(from == to || from >= old(roots)@.len()) ==> roots_view(final(roots)@) == moved_roots(
            roots_view(old(roots)@),
            from as int,
            to as int,
        ) && r == active_after_move(roots_view(old(roots)@), active, from as int, to as int),
{
    let n = roots.len();
    if from == to || from >= n {
        return active;
    }
    let ghost before = roots_view(roots@);
    let active_root: Option<String> = if active < n {
        Some(roots[active].clone())
    } else {
        None
    };
    let w = roots.remove(from);
    let rest_len = roots.len();
    let t = if to < rest_len {
        to
    } else {
        rest_len
    };
    roots.insert(t, w);
    let ghost after = roots_view(roots@);
    proof {
        assert(after =~= moved_roots(before, from as int, to as int));
    }
    let mut result = active;
    if let Some(root) = active_root {
        let mut i: usize = 0;
        let mut found = false;
        while i < roots.len() && !found
            invariant
                i <= roots@.len(),
                roots@.len() == n,
                after == roots_view(roots@),
                root@ == before[active as int],
                !found ==> first_root(after, root@, i as int) is None,
                found ==> first_root(after, root@, n as int) == Some(result as int),
            decreases n - i + (if found {
                0int
            } else {
                1int
            }),
        {
            if paths_equal(roots[i].as_str(), root.as_str()) {
                proof {
                    assert(after[i as int] == roots@[i as int]@);
                    assert(first_root(after, root@, i + 1) == Some(i as int));
                    lemma_first_root_stable(after, root@, i + 1, n as int);
                }
                result = i;
                found = true;
            } else {
                proof {
                    assert(after[i as int] == roots@[i as int]@);
                }
                i += 1;
            }
        }
        proof {
            if !found {
                let k: int = if (active as int) < (from as int) {
                    if (active as int) < (t as int) { active as int } else { active + 1 }
                } else if active == from {
                    t as int
                } else {
                    if (active - 1) < (t as int) { active - 1 } else { active as int }
                };
                assert(after[k] == before[active as int]);
                lemma_first_root_found(after, root@, n as int, k);
            }
        }
    }
    result
}

proof fn lemma_first_root_stable(roots: Seq<Seq<char>>, root: Seq<char>, m: int, n: int)
    requires
        0 <= m <= n,
        first_root(roots, root, m) is Some,
    ensures
        first_root(roots, root, n) == first_root(roots, root, m),
    decreases n - m,
{
    if n > m {
        lemma_first_root_stable(roots, root, m, n - 1);
    }
}

/// Moving a workspace keeps the active workspace active: the workspace
/// active after the move has the root that was active before.
pub proof fn lemma_move_keeps_active(roots: Seq<Seq<char>>, active: usize, from: int, to: int)
    requires
        active < roots.len() <= usize::MAX,
        0 <= from < roots.len(),
        0 <= to,
    ensures
        active_after_move(roots, active, from, to) < roots.len(),
        same_path(
            moved_roots(roots, from, to)[active_after_move(roots, active, from, to) as int],
            roots[active as int],
        ),
{
    let after = moved_roots(roots, from, to);
    let rest = roots.remove(from);
    let t: int = if to < rest.len() {
        to
    } else {
        rest.len() as int
    };
    let k: int = if (active as int) < from {
        if (active as int) < t { active as int } else { active + 1 }
    } else if active == from {
        t
    } else {
        if (active - 1) < t { active - 1 } else { active as int }
    };
    assert(after[k] == roots[active as int]);
    lemma_first_root_found(after, roots[active as int], roots.len() as int, k);
}

/// The active workspace after workspace `index` closes.
pub open spec fn active_after_close(len: int, active: usize, index: usize) -> usize {
    if index < active {
        (active - 1) as usize
    } else if index == active {
        if (active as int) < len - 2 {
            active
        } else {
            (len - 2) as usize
        }
    } else {
        active
    }
}

/// Closes workspace `index`, unless it is the last one open. Returns the
/// active workspace: the same one when another closes, else its neighbour.
pub fn close_workspace(roots: &mut Vec<String>, active: usize, index: usize) -> (r: usize)
    ensures
        (old(roots)@.len() <= 1 || index >= old(roots)@.len()) ==> final(roots)@ == old(roots)@
            && r == active,
        !(old(roots)@.len() <= 1 || index >= old(roots)@.len()) ==> final(roots)@ == old(
            roots,
        )@.remove(index as int) && r == active_after_close(old(roots)@.len() as int, active, index),
{
    let n = roots.len();
    if n <= 1 || index >= n {
        return active;
    }
    roots.remove(index);
    if index < active {
        active - 1
    } else if index == active {
        if active < n - 2 {
            active
        } else {
            n - 2
        }
    } else {
        active
    }
}

/// Closing a workspace other than the active one keeps the active one
/// active.
pub proof fn lemma_close_keeps_active(roots: Seq<Seq<char>>, active: usize, index: usize)
    requires
        active < roots.len(),
        index < roots.len(),
        index != active,
        roots.len() > 1,
    ensures
        roots.remove(index as int)[active_after_close(roots.len() as int, active, index) as int]
            == roots[active as int],
{
}


/// The workspace after the active one, wrapping to the first.
pub fn next_workspace(active: usize, count: usize) -> (r: usize)
    requires
        count > 0,
        active < usize::MAX,
    ensures
        r == (active + 1) % (count as int),
{
    (active + 1) % count
}

/// Whether picking workspace `index` changes the active one: it exists
/// and is not already active.
pub fn selects_workspace(index: usize, count: usize, active: usize) -> (r: bool)
    ensures
        r == (index < count && index != active),
{
    index < count && index != active
}

/// The physical key code of the grave (backtick) key, the same under any
/// keyboard layout.
pub const GRAVE_KEY_CODE: u16 = 50;

/// Whether a key press is the bare Cmd-` chord that cycles workspaces:
/// Shift, Control and Option must be absent, so that other chords on the
/// key keep their normal handling.
pub fn is_next_workspace_chord(key_code: u16, command: bool, shift: bool, control: bool, option: bool) -> (r: bool)
    ensures
        r == (key_code == GRAVE_KEY_CODE && command && !shift && !control && !option),
{
    if key_code != GRAVE_KEY_CODE {
        return false;
    }
    command && !(shift || control || option)
}

/// Where adding a folder as a workspace puts it.
#[derive(Clone, Copy, Debug, PartialEq, Eq)]
pub enum RootOpen {
    /// A workspace with that root is open already, at this index.
    AlreadyOpen(usize),
    /// A new workspace was added at the end, at this index.
    Added(usize),
}

/// Adds `root` as a workspace at the end of the rail, or finds the open
/// one with that root.
pub fn open_root(roots: &mut Vec<String>, root: &str) -> (r: RootOpen)
    ensures
        match first_root(roots_view(old(roots)@), root@, old(roots)@.len() as int) {
            Some(i) => r == RootOpen::AlreadyOpen(i as usize) && final(roots)@ == old(roots)@,
            None => r == RootOpen::Added(old(roots)@.len() as usize) && roots_view(final(roots)@)
                == roots_view(old(roots)@).push(root@),
        },
{
    let ghost before = roots_view(roots@);
    let n = roots.len();
    let mut i: usize = 0;
    while i < n
        invariant
            i <= n,
            n == roots@.len(),
            roots@ == old(roots)@,
            before == roots_view(roots@),
            first_root(before, root@, i as int) is None,
        decreases n - i,
    {
        if paths_equal(roots[i].as_str(), root) {
            proof {
                assert(before[i as int] == roots@[i as int]@);
                assert(first_root(before, root@, i + 1) == Some(i as int));
                lemma_first_root_stable(before, root@, i + 1, n as int);
            }
            return RootOpen::AlreadyOpen(i);
        }
        assert(before[i as int] == roots@[i as int]@);
        i += 1;
    }
    roots.push(root.to_string());
    assert(roots_view(roots@) =~= before.push(root@));
    RootOpen::Added(n)
}

/// The status shown when a folder is open already.
pub fn already_open_status(root: &str) -> (r: String)
    ensures
        r@ == root@ + " is already open"@,
{
    let mut c = crate::text::chars_of(root);
    crate::text::append_chars(&mut c, &crate::text::chars_of(" is already open"));
    crate::text::string_of(&c)
}


/// The actions a workspace's context menu offers, each `None` or `false`
/// when disabled: activating it, moving it up or down (to the index given),
/// and closing it.
#[derive(Clone, Copy, Debug, PartialEq, Eq)]
pub struct RailMenu {
    pub activate: bool,
    pub move_up: Option<usize>,
    pub move_down: Option<usize>,
    pub close: bool,
}

/// The context menu of workspace `index` of `total`: activating is offered
/// unless it is active, moving up unless it is first, moving down unless
/// it is last, and closing unless it is the only one.
pub fn rail_menu(index: usize, total: usize, active: bool) -> (r: RailMenu)
    ensures
        r.activate == !active,
        r.move_up == (if index == 0 {
            None
        } else {
            Some((index - 1) as usize)
        }),
        r.move_down == (if index + 1 >= total {
            None
        } else {
            Some((index + 1) as usize)
        }),
        r.close == (total > 1),
{
    RailMenu {
        activate: !active,
        move_up: if index == 0 {
            None
        } else {
            Some(index - 1)
        },
        move_down: if index >= total || index + 1 >= total {
            None
        } else {
            Some(index + 1)
        },
        close: total > 1,
    }
}

} // verus!
