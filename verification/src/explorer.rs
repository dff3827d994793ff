//! The Explorer's filtered view: a query picks paths from the full
//! inventory and the visible rows, brings their ancestor folders along,
//! and lays them out as a tree again.
//!
//! Paths are handled by their components. A path below the root is ordered
//! by its components under the root; a path outside it by all of its
//! components, a rooted one starting with `/`.
use std::cmp::Ordering;

use vstd::prelude::*;

use crate::fs_tree::{
    PathKey, key_has_prefix, key_of, key_starts_with, key_text, key_to_text, keys_equal, path_key,
};
use crate::fs_tree::Row;
use crate::paths::{components, views};
use crate::workspace::ExplorerInventoryEntry;
use crate::text::{chars_eq, lemma_lex_strict, lemma_lex_trans, lex_less, lex_lt, lowercase, to_lowercase};

verus! {

/// The components a path is ordered by, given the root's key.
pub open spec fn parts_under(p: (bool, Seq<Seq<char>>), root: (bool, Seq<Seq<char>>)) -> Seq<
    Seq<char>,
> {
    if key_starts_with(p, root) {
        p.1.skip(root.1.len() as int)
    } else if p.0 {
        seq![seq!['/']] + p.1
    } else {
        p.1
    }
}

/// `PathBuf::push` of one component onto a key: `/` starts over at the
/// root, `.` adds nothing (unless the path is empty), anything else is
/// appended.
pub open spec fn push_part(k: (bool, Seq<Seq<char>>), part: Seq<char>) -> (bool, Seq<Seq<char>>) {
    if part == seq!['/'] {
        (true, seq![])
    } else if part == seq!['.'] {
        if !k.0 && k.1.len() == 0 {
            (false, seq![seq!['.']])
        } else {
            k
        }
    } else {
        (k.0, k.1.push(part))
    }
}

/// The key of the root with `parts` pushed onto it.
pub open spec fn pushed(root: (bool, Seq<Seq<char>>), parts: Seq<Seq<char>>) -> (bool, Seq<Seq<char>>)
    decreases parts.len(),
{
    if parts.len() == 0 {
        root
    } else {
        push_part(pushed(root, parts.drop_last()), parts.last())
    }
}

/// The length of the longest common prefix of `a` and `b`, from `i` on.
pub open spec fn shared_from(a: Seq<Seq<char>>, b: Seq<Seq<char>>, i: nat) -> nat
    decreases if i <= a.len() {
        a.len() - i
    } else {
        0
    },
{
    if i < a.len() && i < b.len() && a[i as int] == b[i as int] {
        shared_from(a, b, i + 1)
    } else {
        i
    }
}

pub open spec fn shared(a: Seq<Seq<char>>, b: Seq<Seq<char>>) -> nat {
    shared_from(a, b, 0)
}

/// The outcome of comparing two paths.
#[derive(Clone, Copy, PartialEq, Eq, Structural, Debug)]
pub enum Order {
    Less,
    Equal,
    Greater,
}

pub open spec fn flip(o: Order) -> Order {
    match o {
        Order::Less => Order::Greater,
        Order::Equal => Order::Equal,
        Order::Greater => Order::Less,
    }
}

pub open spec fn nat_order(a: nat, b: nat) -> Order {
    if a < b {
        Order::Less
    } else if a > b {
        Order::Greater
    } else {
        Order::Equal
    }
}

/// Names: by lowercased text, then by exact text.
pub open spec fn name_order(x: Seq<char>, y: Seq<char>) -> Order {
    if lex_lt(lowercase(x), lowercase(y)) {
        Order::Less
    } else if lex_lt(lowercase(y), lowercase(x)) {
        Order::Greater
    } else if lex_lt(x, y) {
        Order::Less
    } else if lex_lt(y, x) {
        Order::Greater
    } else {
        Order::Equal
    }
}

/// Tree order of two component lists under `root`: a folder comes before
/// what it holds; siblings put folders (those in `dirs`) first, then go by
/// name.
pub open spec fn part_order(
    root: (bool, Seq<Seq<char>>),
    dirs: Set<(bool, Seq<Seq<char>>)>,
    a: Seq<Seq<char>>,
    b: Seq<Seq<char>>,
) -> Order {
    let s = shared(a, b);
    if s == a.len() || s == b.len() {
        nat_order(a.len(), b.len())
    } else {
        let ld = dirs.contains(pushed(root, a.take(s + 1int)));
        let rd = dirs.contains(pushed(root, b.take(s + 1int)));
        if ld && !rd {
            Order::Less
        } else if !ld && rd {
            Order::Greater
        } else {
            name_order(a[s as int], b[s as int])
        }
    }
}

/// The Explorer order of two paths (as keys) under a root.
pub open spec fn explorer_order(
    left: (bool, Seq<Seq<char>>),
    right: (bool, Seq<Seq<char>>),
    root: (bool, Seq<Seq<char>>),
    dirs: Set<(bool, Seq<Seq<char>>)>,
) -> Order {
    part_order(root, dirs, parts_under(left, root), parts_under(right, root))
}

proof fn lemma_shared_from(a: Seq<Seq<char>>, b: Seq<Seq<char>>, i: nat)
    requires
        i <= a.len(),
        i <= b.len(),
        a.take(i as int) == b.take(i as int),
    ensures
        i <= shared_from(a, b, i) <= a.len(),
        shared_from(a, b, i) <= b.len(),
        a.take(shared_from(a, b, i) as int) == b.take(shared_from(a, b, i) as int),
        shared_from(a, b, i) < a.len() && shared_from(a, b, i) < b.len() ==> a[shared_from(
            a,
            b,
            i,
        ) as int] != b[shared_from(a, b, i) as int],
        shared_from(a, b, i) == shared_from(b, a, i),
    decreases a.len() - i,
{
    if i < a.len() && i < b.len() && a[i as int] == b[i as int] {
        assert(a.take(i + 1int) =~= a.take(i as int).push(a[i as int]));
        assert(b.take(i + 1int) =~= b.take(i as int).push(b[i as int]));
        lemma_shared_from(a, b, i + 1);
    }
}

/// What `shared` is: the first place the lists differ.
pub proof fn lemma_shared(a: Seq<Seq<char>>, b: Seq<Seq<char>>)
    ensures
        shared(a, b) <= a.len(),
        shared(a, b) <= b.len(),
        a.take(shared(a, b) as int) == b.take(shared(a, b) as int),
        shared(a, b) < a.len() && shared(a, b) < b.len() ==> a[shared(a, b) as int] != b[shared(
            a,
            b,
        ) as int],
        shared(a, b) == shared(b, a),
{
    assert(a.take(0) =~= b.take(0));
    lemma_shared_from(a, b, 0);
}

/// `shared` is determined by where the lists first differ.
proof fn lemma_shared_is(a: Seq<Seq<char>>, b: Seq<Seq<char>>, t: nat)
    requires
        t <= a.len(),
        t <= b.len(),
        a.take(t as int) == b.take(t as int),
        t == a.len() || t == b.len() || a[t as int] != b[t as int],
    ensures
        shared(a, b) == t,
{
    lemma_shared(a, b);
    let s = shared(a, b);
    if s < t {
        assert(a[s as int] == a.take(t as int)[s as int]);
        assert(b[s as int] == b.take(t as int)[s as int]);
    } else if s > t {
        assert(a[t as int] == a.take(s as int)[t as int]);
        assert(b[t as int] == b.take(s as int)[t as int]);
    }
}

proof fn lemma_name_order(x: Seq<char>, y: Seq<char>, z: Seq<char>)
    ensures
        name_order(x, y) == flip(name_order(y, x)),
        name_order(x, y) == Order::Equal <==> x == y,
        name_order(x, y) == Order::Less && name_order(y, z) == Order::Less ==> name_order(
            x,
            z,
        ) == Order::Less,
{
    lemma_lex_strict(lowercase(x), lowercase(y));
    lemma_lex_strict(lowercase(y), lowercase(z));
    lemma_lex_strict(lowercase(x), lowercase(z));
    lemma_lex_strict(x, y);
    lemma_lex_strict(y, z);
    lemma_lex_strict(x, z);
    if lex_lt(lowercase(x), lowercase(y)) && lex_lt(lowercase(y), lowercase(z)) {
        lemma_lex_trans(lowercase(x), lowercase(y), lowercase(z));
    }
    if lex_lt(x, y) && lex_lt(y, z) {
        lemma_lex_trans(x, y, z);
    }
}

/// Swapping the two paths reverses their order; only a path compares
/// equal to itself.
pub proof fn lemma_part_order_antisymmetric(
    root: (bool, Seq<Seq<char>>),
    dirs: Set<(bool, Seq<Seq<char>>)>,
    a: Seq<Seq<char>>,
    b: Seq<Seq<char>>,
)
    ensures
        part_order(root, dirs, a, b) == flip(part_order(root, dirs, b, a)),
        part_order(root, dirs, a, b) == Order::Equal <==> a == b,
{
    lemma_shared(a, b);
    let s = shared(a, b);
    if s == a.len() && s == b.len() {
        assert(a =~= a.take(s as int));
        assert(b =~= b.take(s as int));
    } else if s < a.len() && s < b.len() {
        lemma_name_order(a[s as int], b[s as int], b[s as int]);
    }
}

/// The Explorer order in words: a folder comes before everything below it;
/// otherwise, at the first component where the two paths differ, a folder
/// comes before a file, and two of a kind go by name (lowercased first,
/// then exact).
pub proof fn lemma_part_order_cases(
    root: (bool, Seq<Seq<char>>),
    dirs: Set<(bool, Seq<Seq<char>>)>,
    a: Seq<Seq<char>>,
    b: Seq<Seq<char>>,
)
    ensures
        a.len() < b.len() && a == b.take(a.len() as int) ==> part_order(root, dirs, a, b)
            == Order::Less,
        b.len() < a.len() && b == a.take(b.len() as int) ==> part_order(root, dirs, a, b)
            == Order::Greater,
        forall|t: int|
            0 <= t < a.len() && t < b.len() && a.take(t) == b.take(t) && a[t] != b[t] ==> {
                let ld = dirs.contains(pushed(root, #[trigger] a.take(t + 1)));
                let rd = dirs.contains(pushed(root, b.take(t + 1)));
                part_order(root, dirs, a, b) == if ld && !rd {
                    Order::Less
                } else if !ld && rd {
                    Order::Greater
                } else {
                    name_order(a[t], b[t])
                }
            },
{
    if a.len() < b.len() && a == b.take(a.len() as int) {
        assert(a.take(a.len() as int) =~= a);
        lemma_shared_is(a, b, a.len());
    }
    if b.len() < a.len() && b == a.take(b.len() as int) {
        assert(b.take(b.len() as int) =~= b);
        lemma_shared_is(a, b, b.len());
    }
    assert forall|t: int|
        0 <= t < a.len() && t < b.len() && a.take(t) == b.take(t) && a[t] != b[t] implies {
            let ld = dirs.contains(pushed(root, #[trigger] a.take(t + 1)));
            let rd = dirs.contains(pushed(root, b.take(t + 1)));
            part_order(root, dirs, a, b) == if ld && !rd {
                Order::Less
            } else if !ld && rd {
                Order::Greater
            } else {
                name_order(a[t], b[t])
            }
        } by {
        lemma_shared_is(a, b, t as nat);
    }
}

/// The order is transitive.
pub proof fn lemma_part_order_transitive(
    root: (bool, Seq<Seq<char>>),
    dirs: Set<(bool, Seq<Seq<char>>)>,
    a: Seq<Seq<char>>,
    b: Seq<Seq<char>>,
    c: Seq<Seq<char>>,
)
    requires
        part_order(root, dirs, a, b) == Order::Less,
        part_order(root, dirs, b, c) == Order::Less,
    ensures
        part_order(root, dirs, a, c) == Order::Less,
{
    lemma_shared(a, b);
    lemma_shared(b, c);
    lemma_shared(a, c);
    let s1 = shared(a, b);
    let s2 = shared(b, c);
    if s1 == a.len() {
        // `a` is a proper prefix of `b`.
        if s2 == b.len() {
            assert(a.take(s1 as int) == c.take(s1 as int)) by {
                assert(a.take(s1 as int) =~= b.take(s2 as int).take(s1 as int));
                assert(c.take(s1 as int) =~= c.take(s2 as int).take(s1 as int));
            }
            lemma_shared_is(a, c, a.len());
        } else if s2 >= a.len() {
            assert(a.take(s1 as int) == c.take(s1 as int)) by {
                assert(a.take(s1 as int) =~= b.take(s2 as int).take(s1 as int));
                assert(c.take(s1 as int) =~= c.take(s2 as int).take(s1 as int));
            }
            lemma_shared_is(a, c, a.len());
        } else {
            assert(a.take(s2 as int) =~= b.take(s2 as int)) by {
                assert(a.take(s2 as int) =~= a.take(s1 as int).take(s2 as int));
                assert(b.take(s2 as int) =~= b.take(s1 as int).take(s2 as int));
            }
            assert(a[s2 as int] == b[s2 as int]) by {
                assert(a[s2 as int] == a.take(s1 as int)[s2 as int]);
                assert(b[s2 as int] == b.take(s1 as int)[s2 as int]);
            }
            assert(a.take(s2 + 1int) =~= b.take(s2 + 1int));
            assert(a.take(s2 as int) =~= c.take(s2 as int));
            lemma_shared_is(a, c, s2);
        }
    } else {
        // `a` and `b` differ at `s1`.
        if s2 == b.len() {
            assert(a.take(s1 as int) =~= c.take(s1 as int)) by {
                assert(b.take(s1 as int) =~= b.take(s2 as int).take(s1 as int));
                assert(c.take(s1 as int) =~= c.take(s2 as int).take(s1 as int));
            }
            assert(c[s1 as int] == b[s1 as int]) by {
                assert(b[s1 as int] == b.take(s2 as int)[s1 as int]);
                assert(c[s1 as int] == c.take(s2 as int)[s1 as int]);
            }
            assert(c.take(s1 + 1int) =~= b.take(s1 + 1int)) by {
                assert(b.take(s1 + 1int) =~= b.take(s2 as int).take(s1 + 1int));
                assert(c.take(s1 + 1int) =~= c.take(s2 as int).take(s1 + 1int));
            }
            lemma_shared_is(a, c, s1);
        } else if s1 < s2 {
            assert(a.take(s1 as int) =~= c.take(s1 as int)) by {
                assert(b.take(s1 as int) =~= b.take(s2 as int).take(s1 as int));
                assert(c.take(s1 as int) =~= c.take(s2 as int).take(s1 as int));
            }
            assert(c[s1 as int] == b[s1 as int]) by {
                assert(b[s1 as int] == b.take(s2 as int)[s1 as int]);
                assert(c[s1 as int] == c.take(s2 as int)[s1 as int]);
            }
            assert(c.take(s1 + 1int) =~= b.take(s1 + 1int)) by {
                assert(b.take(s1 + 1int) =~= b.take(s2 as int).take(s1 + 1int));
                assert(c.take(s1 + 1int) =~= c.take(s2 as int).take(s1 + 1int));
            }
            lemma_shared_is(a, c, s1);
        } else if s1 > s2 {
            assert(a.take(s2 as int) =~= c.take(s2 as int)) by {
                assert(a.take(s2 as int) =~= a.take(s1 as int).take(s2 as int));
                assert(b.take(s2 as int) =~= b.take(s1 as int).take(s2 as int));
            }
            assert(a[s2 as int] == b[s2 as int]) by {
                assert(a[s2 as int] == a.take(s1 as int)[s2 as int]);
                assert(b[s2 as int] == b.take(s1 as int)[s2 as int]);
            }
            assert(a.take(s2 + 1int) =~= b.take(s2 + 1int)) by {
                assert(a.take(s2 + 1int) =~= a.take(s1 as int).take(s2 + 1int));
                assert(b.take(s2 + 1int) =~= b.take(s1 as int).take(s2 + 1int));
            }
            lemma_shared_is(a, c, s2);
        } else {
            let s = s1;
            assert(a.take(s as int) =~= c.take(s as int));
            let ka = pushed(root, a.take(s + 1int));
            let kb = pushed(root, b.take(s + 1int));
            let kc = pushed(root, c.take(s + 1int));
            lemma_name_order(a[s as int], b[s as int], c[s as int]);
            if a[s as int] == c[s as int] {
                assert(a.take(s + 1int) =~= c.take(s + 1int));
                assert(false);
            }
            lemma_shared_is(a, c, s);
        }
    }
}

/// The set of folder keys a list of keys stands for.
pub open spec fn key_set(ks: Seq<PathKey>) -> Set<(bool, Seq<Seq<char>>)> {
    ks.map_values(|k: PathKey| k.key()).to_set()
}

/// The components `p` is ordered by under `root`.
pub fn parts_of(p: &PathKey, root: &PathKey) -> (r: Vec<Vec<char>>)
    ensures
        views(r@) == parts_under(p.key(), root.key()),
{
    let mut out: Vec<Vec<char>> = Vec::new();
    let start: usize = if key_has_prefix(p, root) {
        root.comps.len()
    } else {
        if p.abs {
            let sl: Vec<char> = vec!['/'];
            assert(sl@ == seq!['/']);
            out.push(sl);
            assert(views(out@) =~= seq![seq!['/']]);
        }
        0
    };
    let ghost head = views(out@);
    proof {
        if !key_starts_with(p.key(), root.key()) && p.abs {
            assert(head =~= seq![seq!['/']]);
        }
    }
    assert(views(root.comps@).len() == root.comps@.len());
    let mut i: usize = start;
    while i < p.comps.len()
        invariant
            start <= i <= p.comps@.len(),
            views(out@) =~= head + views(p.comps@).subrange(start as int, i as int),
        decreases p.comps@.len() - i,
    {
        let c = crate::text::copy_chars(&p.comps[i]);
        let ghost before = views(out@);
        out.push(c);
        assert(views(out@) =~= before.push(c@));
        assert(views(p.comps@).subrange(start as int, i + 1) =~= views(p.comps@).subrange(
            start as int,
            i as int,
        ).push(p.comps@[i as int]@));
        i += 1;
    }
    proof {
        if key_starts_with(p.key(), root.key()) {
            assert(head =~= Seq::<Seq<char>>::empty());
        } else if !p.abs {
            assert(head =~= Seq::<Seq<char>>::empty());
        }
    }
    out
}

/// `PathBuf::push` of the first `n` parts onto the root.
fn pushed_key(root: &PathKey, parts: &Vec<Vec<char>>, n: usize) -> (r: PathKey)
    requires
        n <= parts@.len(),
    ensures
        r.key() == pushed(root.key(), views(parts@).take(n as int)),
{
    let mut k = crate::fs_tree::copy_key(root);
    let mut i: usize = 0;
    assert(views(parts@).take(0) =~= Seq::<Seq<char>>::empty());
    let slash: Vec<char> = vec!['/'];
    let dot: Vec<char> = vec!['.'];
    assert(slash@ == seq!['/']);
    assert(dot@ == seq!['.']);
    while i < n
        invariant
            i <= n,
            n <= parts@.len(),
            slash@ == seq!['/'],
            dot@ == seq!['.'],
            k.key() == pushed(root.key(), views(parts@).take(i as int)),
        decreases n - i,
    {
        let part = &parts[i];
        assert(views(parts@).take(i + 1).drop_last() =~= views(parts@).take(i as int));
        assert(views(parts@).take(i + 1).last() == part@);
        if chars_eq(part, &slash) {
            k = PathKey { abs: true, comps: Vec::new() };
            assert(views(k.comps@) =~= Seq::<Seq<char>>::empty());
        } else if chars_eq(part, &dot) {
            if !k.abs && k.comps.len() == 0 {
                let mut c: Vec<Vec<char>> = Vec::new();
                let d: Vec<char> = vec!['.'];
                assert(d@ == seq!['.']);
                c.push(d);
                k = PathKey { abs: false, comps: c };
                assert(views(k.comps@) =~= seq![seq!['.']]);
            }
        } else {
            let ghost before = views(k.comps@);
            k.comps.push(crate::text::copy_chars(part));
            assert(views(k.comps@) =~= before.push(part@));
        }
        i += 1;
    }
    k
}

/// Whether a key is among `dirs`.
fn has_key(dirs: &Vec<PathKey>, k: &PathKey) -> (r: bool)
    ensures
        r == key_set(dirs@).contains(k.key()),
{
    let ghost ks = dirs@.map_values(|d: PathKey| d.key());
    let mut i: usize = 0;
    while i < dirs.len()
        invariant
            i <= dirs@.len(),
            ks == dirs@.map_values(|d: PathKey| d.key()),
            forall|j: int| 0 <= j < i ==> ks[j] != k.key(),
        decreases dirs@.len() - i,
    {
        if keys_equal(&dirs[i], k) {
            assert(ks[i as int] == k.key());
            assert(ks.contains(k.key()));
            return true;
        }
        i += 1;
    }
    assert(!ks.contains(k.key()));
    false
}

fn name_order_of(x: &Vec<char>, y: &Vec<char>) -> (r: Order)
    ensures
        r == name_order(x@, y@),
{
    let lx = to_lowercase(x);
    let ly = to_lowercase(y);
    if lex_less(&lx, &ly) {
        Order::Less
    } else if lex_less(&ly, &lx) {
        Order::Greater
    } else if lex_less(x, y) {
        Order::Less
    } else if lex_less(y, x) {
        Order::Greater
    } else {
        Order::Equal
    }
}

/// The tree order of two component lists.
pub fn order_of(root: &PathKey, dirs: &Vec<PathKey>, a: &Vec<Vec<char>>, b: &Vec<Vec<char>>) -> (r:
    Order)
    ensures
        r == part_order(root.key(), key_set(dirs@), views(a@), views(b@)),
{
    let ghost av = views(a@);
    let ghost bv = views(b@);
    let mut s: usize = 0;
    assert(av.take(0) =~= bv.take(0));
    while s < a.len() && s < b.len() && chars_eq(&a[s], &b[s])
        invariant
            s <= a@.len(),
            s <= b@.len(),
            av == views(a@),
            bv == views(b@),
            shared(av, bv) == shared_from(av, bv, s as nat),
        decreases a@.len() - s,
    {
        s += 1;
    }
    assert(shared(av, bv) == s);
    if s == a.len() || s == b.len() {
        return if a.len() < b.len() {
            Order::Less
        } else if a.len() > b.len() {
            Order::Greater
        } else {
            Order::Equal
        };
    }
    let ld = has_key(dirs, &pushed_key(root, a, s + 1));
    let rd = has_key(dirs, &pushed_key(root, b, s + 1));
    if ld && !rd {
        Order::Less
    } else if !ld && rd {
        Order::Greater
    } else {
        name_order_of(&a[s], &b[s])
    }
}

/// The folder keys of a list of folder paths.
pub open spec fn dir_set(ds: Seq<String>) -> Set<(bool, Seq<Seq<char>>)> {
    ds.map_values(|d: String| key_of(d@)).to_set()
}

fn keys_of(ds: &Vec<String>) -> (r: Vec<PathKey>)
    ensures
        key_set(r@) == dir_set(ds@),
{
    let mut out: Vec<PathKey> = Vec::new();
    let mut i: usize = 0;
    while i < ds.len()
        invariant
            i <= ds@.len(),
            out@.map_values(|k: PathKey| k.key()) =~= ds@.take(i as int).map_values(
                |d: String| key_of(d@),
            ),
        decreases ds@.len() - i,
    {
        let k = path_key(ds[i].as_str());
        out.push(k);
        assert(ds@.take(i + 1).map_values(|d: String| key_of(d@)) =~= ds@.take(i as int).map_values(
            |d: String| key_of(d@),
        ).push(key_of(ds@[i as int]@)));
        i += 1;
    }
    assert(ds@.take(ds@.len() as int) =~= ds@);
    out
}

/// The Explorer order of two paths under a root; `directories` are the
/// paths known to be folders.
pub fn explorer_order_of(left: &str, right: &str, root: &str, directories: &Vec<String>) -> (r: Order)
    ensures
        r == explorer_order(key_of(left@), key_of(right@), key_of(root@), dir_set(directories@)),
{
    let rk = path_key(root);
    let lp = parts_of(&path_key(left), &rk);
    let rp = parts_of(&path_key(right), &rk);
    let dirs = keys_of(directories);
    order_of(&rk, &dirs, &lp, &rp)
}

/// `std::cmp::Ordering` for an order.
pub open spec fn ordering_of(o: Order) -> Ordering {
    match o {
        Order::Less => Ordering::Less,
        Order::Equal => Ordering::Equal,
        Order::Greater => Ordering::Greater,
    }
}

/// The Explorer order of two paths under a root, as `Ordering`.
pub fn compare_explorer_paths(left: &str, right: &str, root: &str, directories: &Vec<String>) -> (r:
    Ordering)
    ensures
        r == ordering_of(
            explorer_order(key_of(left@), key_of(right@), key_of(root@), dir_set(directories@)),
        ),
{
    match explorer_order_of(left, right, root, directories) {
        Order::Less => Ordering::Less,
        Order::Equal => Ordering::Equal,
        Order::Greater => Ordering::Greater,
    }
}

/// One row of the filtered Explorer.
#[derive(Clone, Debug)]
pub struct ExplorerRow {
    pub path: String,
    pub name: String,
    pub depth: usize,
    pub is_dir: bool,
    pub expanded: bool,
}

/// The text a path is matched against: its components below the root
/// joined by `/`, or the whole path when it lies outside the root.
pub open spec fn match_text(p: Seq<char>, root: (bool, Seq<Seq<char>>)) -> Seq<char> {
    let k = key_of(p);
    if key_starts_with(k, root) {
        key_text((false, k.1.skip(root.1.len() as int)))
    } else {
        p
    }
}

/// Whether `q` occurs in `t`.
pub open spec fn contains_text(t: Seq<char>, q: Seq<char>) -> bool {
    exists|i: int| 0 <= i && i + q.len() <= t.len() && #[trigger] t.subrange(i, i + q.len()) == q
}

/// Whether a path matches a (lowercased) query.
pub open spec fn picked(p: Seq<char>, root: (bool, Seq<Seq<char>>), q: Seq<char>) -> bool {
    contains_text(lowercase(match_text(p, root)), q)
}

/// The folders between the root and `k`, outermost first, each as an
/// expanded folder.
pub open spec fn ancestor_adds(k: (bool, Seq<Seq<char>>), root: (bool, Seq<Seq<char>>)) -> Seq<
    ((bool, Seq<Seq<char>>), bool, bool),
> {
    let n: int = if key_starts_with(k, root) && k.1.len() > root.1.len() + 1 {
        k.1.len() - root.1.len() - 1
    } else {
        0
    };
    Seq::new(n as nat, |i: int| ((k.0, k.1.take(root.1.len() + 1 + i)), true, true))
}

/// What the picked inventory entries (path, is-folder) contribute: their
/// ancestor folders, then themselves (a folder counts as expanded).
pub open spec fn inventory_adds(
    inv: Seq<(Seq<char>, bool)>,
    root: (bool, Seq<Seq<char>>),
    q: Seq<char>,
) -> Seq<((bool, Seq<Seq<char>>), bool, bool)>
    decreases inv.len(),
{
    if inv.len() == 0 {
        seq![]
    } else {
        let prev = inventory_adds(inv.drop_last(), root, q);
        let e = inv.last();
        if picked(e.0, root, q) {
            prev + ancestor_adds(key_of(e.0), root) + seq![(key_of(e.0), e.1, e.1)]
        } else {
            prev
        }
    }
}

/// What the picked visible rows contribute: their ancestor folders, then
/// themselves with their own expansion.
pub open spec fn row_adds(
    rows: Seq<crate::fs_tree::RowView>,
    root: (bool, Seq<Seq<char>>),
    q: Seq<char>,
) -> Seq<((bool, Seq<Seq<char>>), bool, bool)>
    decreases rows.len(),
{
    if rows.len() == 0 {
        seq![]
    } else {
        let prev = row_adds(rows.drop_last(), root, q);
        let r = rows.last();
        if picked(r.entry.path, root, q) {
            prev + ancestor_adds(key_of(r.entry.path), root) + seq![
                (key_of(r.entry.path), r.entry.is_dir, r.expanded),
            ]
        } else {
            prev
        }
    }
}

/// The folder and expansion flags a path collects, each the "or" of every
/// contribution; `None` when nothing contributes it.
pub open spec fn flags_of(
    adds: Seq<((bool, Seq<Seq<char>>), bool, bool)>,
    k: (bool, Seq<Seq<char>>),
) -> Option<(bool, bool)>
    decreases adds.len(),
{
    if adds.len() == 0 {
        None
    } else {
        let x = adds.last();
        match flags_of(adds.drop_last(), k) {
            None => if x.0 == k {
                Some((x.1, x.2))
            } else {
                None
            },
            Some((d, e)) => if x.0 == k {
                Some((d || x.1, e || x.2))
            } else {
                Some((d, e))
            },
        }
    }
}

/// The paths that collected the folder flag.
pub open spec fn folder_keys(adds: Seq<((bool, Seq<Seq<char>>), bool, bool)>) -> Set<
    (bool, Seq<Seq<char>>),
> {
    Set::new(|k: (bool, Seq<Seq<char>>)| flags_of(adds, k) matches Some((d, _)) && d)
}

pub open spec fn row_depth(k: (bool, Seq<Seq<char>>), root: (bool, Seq<Seq<char>>)) -> int {
    let n = parts_under(k, root).len();
    if n == 0 {
        0
    } else {
        n - 1
    }
}

pub open spec fn row_name(k: (bool, Seq<Seq<char>>)) -> Seq<char> {
    match crate::paths::file_name(key_text(k)) {
        Some(n) => n,
        None => seq![],
    }
}

/// `out` lays out every path the contributions name, once each, with its
/// collected flags, in Explorer order.
pub open spec fn filtered_rows(
    out: Seq<ExplorerRow>,
    adds: Seq<((bool, Seq<Seq<char>>), bool, bool)>,
    root: (bool, Seq<Seq<char>>),
) -> bool {
    &&& forall|i: int|
        0 <= i < out.len() ==> #[trigger] flags_of(adds, key_of(out[i].path@)) == Some(
            (out[i].is_dir, out[i].expanded),
        )
    &&& forall|i: int| 0 <= i < out.len() ==> (#[trigger] out[i]).path@ == key_text(key_of(out[i].path@))
    &&& forall|i: int|
        0 <= i < out.len() ==> (#[trigger] out[i]).depth == row_depth(key_of(out[i].path@), root)
            && out[i].name@ == row_name(key_of(out[i].path@))
    &&& forall|i: int, j: int|
        0 <= i < out.len() && 0 <= j < out.len() && i != j ==> key_of(#[trigger] out[i].path@)
            != key_of(#[trigger] out[j].path@)
    &&& forall|k: (bool, Seq<Seq<char>>)|
        #[trigger] flags_of(adds, k) is Some ==> exists|i: int|
            0 <= i < out.len() && key_of(#[trigger] out[i].path@) == k
    &&& forall|i: int, j: int|
        0 <= i < j < out.len() ==> part_order(
            root,
            folder_keys(adds),
            parts_under(key_of(#[trigger] out[j].path@), root),
            parts_under(key_of(#[trigger] out[i].path@), root),
        ) != Order::Less
}

/// The flags collected for one path.
struct Acc {
    key: PathKey,
    is_dir: bool,
    expanded: bool,
}

spec fn acc_ok(acc: Seq<Acc>, done: Seq<((bool, Seq<Seq<char>>), bool, bool)>) -> bool {
    &&& forall|i: int, j: int|
        0 <= i < acc.len() && 0 <= j < acc.len() && i != j ==> (#[trigger] acc[i]).key.key() != (
        #[trigger] acc[j]).key.key()
    &&& forall|i: int|
        0 <= i < acc.len() ==> flags_of(done, (#[trigger] acc[i]).key.key()) == Some(
            (acc[i].is_dir, acc[i].expanded),
        )
    &&& forall|k: (bool, Seq<Seq<char>>)|
        #[trigger] flags_of(done, k) is Some ==> exists|i: int|
            0 <= i < acc.len() && (#[trigger] acc[i]).key.key() == k
    &&& forall|i: int|
        0 <= i < acc.len() ==> crate::paths::plain_parts(
            (#[trigger] acc[i]).key.key().0,
            acc[i].key.key().1,
        )
}

/// Adds one contribution.
fn note(
    acc: &mut Vec<Acc>,
    key: PathKey,
    is_dir: bool,
    expanded: bool,
    Ghost(done): Ghost<Seq<((bool, Seq<Seq<char>>), bool, bool)>>,
)
    requires
        acc_ok(old(acc)@, done),
        crate::paths::plain_parts(key.key().0, key.key().1),
    ensures
        acc_ok(final(acc)@, done.push((key.key(), is_dir, expanded))),
{
    let ghost nd = done.push((key.key(), is_dir, expanded));
    assert(nd.drop_last() =~= done);
    let mut j: usize = 0;
    while j < acc.len()
        invariant
            j <= acc@.len(),
            acc@ == old(acc)@,
            acc_ok(old(acc)@, done),
            nd == done.push((key.key(), is_dir, expanded)),
            nd.drop_last() == done,
            forall|q: int| 0 <= q < j ==> acc@[q].key.key() != key.key(),
        decreases acc@.len() - j,
    {
        if keys_equal(&acc[j].key, &key) {
            let ghost before = acc@;
            let d = acc[j].is_dir || is_dir;
            let e = acc[j].expanded || expanded;
            acc[j].is_dir = d;
            acc[j].expanded = e;
            proof {
                assert forall|i: int| 0 <= i < acc@.len() implies flags_of(nd, (#[trigger] acc@[i]).key.key())
                    == Some((acc@[i].is_dir, acc@[i].expanded)) by {
                    assert(before[j as int].key.key() == key.key());
                    if i != j {
                        assert(acc@[i] == before[i]);
                        assert(before[i].key.key() != before[j as int].key.key());
                        assert(flags_of(done, before[i].key.key()) == Some(
                            (before[i].is_dir, before[i].expanded),
                        ));
                    } else {
                        assert(flags_of(done, before[j as int].key.key()) == Some(
                            (before[j as int].is_dir, before[j as int].expanded),
                        ));
                    }
                }
                assert forall|k: (bool, Seq<Seq<char>>)| #[trigger] flags_of(nd, k) is Some implies exists|
                    i: int,
                | 0 <= i < acc@.len() && (#[trigger] acc@[i]).key.key() == k by {
                    if k == key.key() {
                        assert(before[j as int].key.key() == key.key());
                        assert(acc@[j as int].key.key() == k);
                    } else {
                        assert(flags_of(done, k) is Some);
                        let i = choose|i: int| 0 <= i < before.len() && (#[trigger] before[i]).key.key() == k;
                        assert(acc@[i].key == before[i].key);
                        assert(acc@[i].key.key() == k);
                    }
                }
                assert forall|a: int, b: int|
                    0 <= a < acc@.len() && 0 <= b < acc@.len() && a != b implies (
                #[trigger] acc@[a]).key.key() != (#[trigger] acc@[b]).key.key() by {
                    assert(acc@[a].key == before[a].key);
                    assert(acc@[b].key == before[b].key);
                }
                assert forall|i: int| 0 <= i < acc@.len() implies crate::paths::plain_parts(
                    (#[trigger] acc@[i]).key.key().0,
                    acc@[i].key.key().1,
                ) by {
                    assert(acc@[i].key == before[i].key);
                }
            }
            return ;
        }
        j += 1;
    }
    let ghost before = acc@;
    assert(flags_of(done, key.key()) is None) by {
        if flags_of(done, key.key()) is Some {
            let i = choose|i: int| 0 <= i < before.len() && (#[trigger] before[i]).key.key() == key.key();
        }
    }
    acc.push(Acc { key, is_dir, expanded });
    proof {
        let n = before.len() as int;
        assert forall|i: int| 0 <= i < acc@.len() implies flags_of(nd, (#[trigger] acc@[i]).key.key())
            == Some((acc@[i].is_dir, acc@[i].expanded)) by {
            if i < n {
                assert(acc@[i] == before[i]);
            }
        }
        assert forall|k: (bool, Seq<Seq<char>>)| #[trigger] flags_of(nd, k) is Some implies exists|i: int|
            0 <= i < acc@.len() && (#[trigger] acc@[i]).key.key() == k by {
            if k == acc@[n].key.key() {
            } else {
                assert(flags_of(done, k) is Some);
                let i = choose|i: int| 0 <= i < before.len() && (#[trigger] before[i]).key.key() == k;
                assert(acc@[i] == before[i]);
            }
        }
        assert forall|a: int, b: int|
            0 <= a < acc@.len() && 0 <= b < acc@.len() && a != b implies (#[trigger] acc@[a]).key.key()
            != (#[trigger] acc@[b]).key.key() by {
            if a < n && b < n {
                assert(acc@[a] == before[a]);
                assert(acc@[b] == before[b]);
            } else if a < n {
                assert(acc@[a] == before[a]);
            } else if b < n {
                assert(acc@[b] == before[b]);
            }
        }
        assert forall|i: int| 0 <= i < acc@.len() implies crate::paths::plain_parts(
            (#[trigger] acc@[i]).key.key().0,
            acc@[i].key.key().1,
        ) by {
            if i < n {
                assert(acc@[i] == before[i]);
            }
        }
    }
}

/// Whether `q` occurs in `t`.
pub fn contains_chars(t: &[char], q: &[char]) -> (r: bool)
    ensures
        r == contains_text(t@, q@),
{
    if q.len() > t.len() {
        return false;
    }
    if q.len() == 0 {
        assert(t@.subrange(0int, 0int + q@.len()) =~= q@);
        return true;
    }
    let n = t.len();
    let last = n - q.len();
    let mut i: usize = 0;
    while i <= last
        invariant
            n == t@.len(),
            last == t@.len() - q@.len(),
            last < t@.len(),
            q@.len() <= t@.len(),
            i <= last + 1,
            forall|j: int| 0 <= j < i ==> #[trigger] t@.subrange(j, j + q@.len()) != q@,
        decreases last + 1 - i,
    {
        if crate::text::occurs_at(t, q, i) {
            return true;
        }
        i += 1;
    }
    assert(!contains_text(t@, q@)) by {
        if contains_text(t@, q@) {
            let j = choose|j: int| 0 <= j && j + q@.len() <= t@.len() && #[trigger] t@.subrange(
                j,
                j + q@.len(),
            ) == q@;
            assert(t@.subrange(j, j + q@.len()) != q@);
        }
    }
    false
}

/// Whether a path matches a lowercased query.
fn picked_path(path: &str, rk: &PathKey, q: &Vec<char>) -> (r: bool)
    ensures
        r == picked(path@, rk.key(), q@),
{
    let k = path_key(path);
    let text: Vec<char> = if key_has_prefix(&k, rk) {
        assert(views(rk.comps@).len() == rk.comps@.len());
        let rel = crate::fs_tree::key_suffix(&k, rk.comps.len());
        crate::text::chars_of(key_to_text(&rel).as_str())
    } else {
        crate::text::chars_of(path)
    };
    contains_chars(&to_lowercase(&text), q)
}

/// Adds a picked path: its ancestor folders below the root, then itself.
fn add_path(
    acc: &mut Vec<Acc>,
    rk: &PathKey,
    path: &str,
    is_dir: bool,
    expanded: bool,
    Ghost(done): Ghost<Seq<((bool, Seq<Seq<char>>), bool, bool)>>,
)
    requires
        acc_ok(old(acc)@, done),
    ensures
        acc_ok(
            final(acc)@,
            done + ancestor_adds(key_of(path@), rk.key()) + seq![(key_of(path@), is_dir, expanded)],
        ),
{
    let k = path_key(path);
    proof {
        crate::paths::lemma_components_writable(path@);
    }
    let ghost anc = ancestor_adds(k.key(), rk.key());
    let mut d = Ghost(done);
    assert(views(rk.comps@).len() == rk.comps@.len());
    assert(views(k.comps@).len() == k.comps@.len());
    if key_has_prefix(&k, rk) && k.comps.len() - rk.comps.len() > 1 {
        let first = rk.comps.len() + 1;
        let mut m: usize = first;
        assert(anc.take(0) =~= Seq::<((bool, Seq<Seq<char>>), bool, bool)>::empty());
        assert(done + anc.take(0) =~= done);
        while m < k.comps.len()
            invariant
                first == rk.comps@.len() + 1,
                first <= m <= k.comps@.len(),
                anc == ancestor_adds(k.key(), rk.key()),
                anc.len() == k.comps@.len() - first,
                k.key() == key_of(path@),
                forall|n: int| 0 <= n <= components(path@).len() ==> crate::paths::plain_parts(
                    crate::paths::is_absolute(path@),
                    #[trigger] components(path@).take(n),
                ),
                acc_ok(acc@, done + anc.take(m - first)),
            decreases k.comps@.len() - m,
        {
            let a = crate::fs_tree::key_prefix(&k, m);
            assert(anc[m - first] == (a.key(), true, true));
            assert(components(path@).take(m as int) == a.key().1);
            note(acc, a, true, true, Ghost(done + anc.take(m - first)));
            assert(anc.take(m - first + 1) =~= anc.take(m - first).push(anc[m - first]));
            assert((done + anc.take(m - first)).push((a.key(), true, true)) =~= done + anc.take(
                m - first + 1,
            ));
            m += 1;
        }
        assert(anc.take(k.comps@.len() - first) =~= anc);
    } else {
        assert(anc =~= Seq::<((bool, Seq<Seq<char>>), bool, bool)>::empty());
        assert(done + anc =~= done);
    }
    assert(components(path@).take(components(path@).len() as int) =~= components(path@));
    note(acc, k, is_dir, expanded, Ghost(done + anc));
    assert((done + anc).push((k.key(), is_dir, expanded)) =~= done + anc + seq![
        (k.key(), is_dir, expanded),
    ]);
}

pub open spec fn inventory_view(inv: Seq<ExplorerInventoryEntry>) -> Seq<(Seq<char>, bool)> {
    inv.map_values(|e: ExplorerInventoryEntry| (e.path@, e.is_dir))
}

/// Everything the picked inventory entries and visible rows contribute.
pub open spec fn all_adds(
    root: (bool, Seq<Seq<char>>),
    inv: Seq<ExplorerInventoryEntry>,
    rows: Seq<Row>,
    q: Seq<char>,
) -> Seq<((bool, Seq<Seq<char>>), bool, bool)> {
    inventory_adds(inventory_view(inv), root, q) + row_adds(
        crate::fs_tree::rows_view(rows),
        root,
        q,
    )
}

fn accumulate(rk: &PathKey, inventory: &Vec<ExplorerInventoryEntry>, rows: &Vec<Row>, q: &Vec<char>) -> (r:
    Vec<Acc>)
    ensures
        acc_ok(r@, all_adds(rk.key(), inventory@, rows@, q@)),
{
    let mut acc: Vec<Acc> = Vec::new();
    let ghost iv = inventory_view(inventory@);
    let ghost rv = crate::fs_tree::rows_view(rows@);
    let mut i: usize = 0;
    assert(iv.take(0) =~= Seq::<(Seq<char>, bool)>::empty());
    while i < inventory.len()
        invariant
            i <= inventory@.len(),
            iv == inventory_view(inventory@),
            acc_ok(acc@, inventory_adds(iv.take(i as int), rk.key(), q@)),
        decreases inventory@.len() - i,
    {
        let e = &inventory[i];
        assert(iv.take(i + 1).drop_last() =~= iv.take(i as int));
        assert(iv.take(i + 1).last() == (e.path@, e.is_dir));
        if picked_path(e.path.as_str(), rk, q) {
            add_path(
                &mut acc,
                rk,
                e.path.as_str(),
                e.is_dir,
                e.is_dir,
                Ghost(inventory_adds(iv.take(i as int), rk.key(), q@)),
            );
        }
        i += 1;
    }
    assert(iv.take(inventory@.len() as int) =~= iv);
    let ghost base = inventory_adds(iv, rk.key(), q@);
    let mut j: usize = 0;
    assert(rv.take(0) =~= Seq::<crate::fs_tree::RowView>::empty());
    assert(base + row_adds(rv.take(0), rk.key(), q@) =~= base);
    while j < rows.len()
        invariant
            j <= rows@.len(),
            rv == crate::fs_tree::rows_view(rows@),
            base == inventory_adds(iv, rk.key(), q@),
            acc_ok(acc@, base + row_adds(rv.take(j as int), rk.key(), q@)),
        decreases rows@.len() - j,
    {
        let row = &rows[j];
        assert(rv.take(j + 1).drop_last() =~= rv.take(j as int));
        assert(rv.take(j + 1).last() == row@);
        let ghost prev = row_adds(rv.take(j as int), rk.key(), q@);
        if picked_path(row.entry.path.as_str(), rk, q) {
            add_path(
                &mut acc,
                rk,
                row.entry.path.as_str(),
                row.entry.is_dir,
                row.expanded,
                Ghost(base + prev),
            );
            assert(base + prev + ancestor_adds(key_of(row.entry.path@), rk.key()) + seq![
                (key_of(row.entry.path@), row.entry.is_dir, row.expanded),
            ] =~= base + row_adds(rv.take(j + 1), rk.key(), q@));
        } else {
            assert(base + prev =~= base + row_adds(rv.take(j + 1), rk.key(), q@));
        }
        j += 1;
    }
    assert(rv.take(rows@.len() as int) =~= rv);
    acc
}

/// The folder keys among the collected paths.
fn folder_list(acc: &Vec<Acc>, Ghost(done): Ghost<Seq<((bool, Seq<Seq<char>>), bool, bool)>>) -> (r:
    Vec<PathKey>)
    requires
        acc_ok(acc@, done),
    ensures
        key_set(r@) == folder_keys(done),
{
    let mut out: Vec<PathKey> = Vec::new();
    let mut i: usize = 0;
    while i < acc.len()
        invariant
            i <= acc@.len(),
            acc_ok(acc@, done),
            forall|k: (bool, Seq<Seq<char>>)|
                key_set(out@).contains(k) <==> exists|j: int|
                    0 <= j < i && #[trigger] acc@[j].key.key() == k && acc@[j].is_dir,
        decreases acc@.len() - i,
    {
        if acc[i].is_dir {
            let ghost before = out@;
            let ghost x = acc@[i as int].key.key();
            out.push(crate::fs_tree::copy_key(&acc[i].key));
            proof {
                let bm = before.map_values(|d: PathKey| d.key());
                assert(out@.map_values(|d: PathKey| d.key()) =~= bm.push(x));
                bm.lemma_push_to_set_commute(x);
                assert(key_set(out@) == key_set(before).insert(x));
            }
            assert forall|k: (bool, Seq<Seq<char>>)| key_set(out@).contains(k) <==> exists|j: int|
                0 <= j < i + 1 && #[trigger] acc@[j].key.key() == k && acc@[j].is_dir by {
                if k == x {
                    assert(acc@[i as int].key.key() == k && acc@[i as int].is_dir);
                } else if exists|j: int| 0 <= j < i + 1 && #[trigger] acc@[j].key.key() == k && acc@[j].is_dir {
                    let j = choose|j: int| 0 <= j < i + 1 && #[trigger] acc@[j].key.key() == k && acc@[j].is_dir;
                    assert(j < i);
                }
            }
        } else {
            assert forall|k: (bool, Seq<Seq<char>>)| key_set(out@).contains(k) <==> exists|j: int|
                0 <= j < i + 1 && #[trigger] acc@[j].key.key() == k && acc@[j].is_dir by {
                if exists|j: int| 0 <= j < i + 1 && #[trigger] acc@[j].key.key() == k && acc@[j].is_dir {
                    let j = choose|j: int| 0 <= j < i + 1 && #[trigger] acc@[j].key.key() == k && acc@[j].is_dir;
                    assert(j < i);
                }
            }
        }
        i += 1;
    }
    assert forall|k: (bool, Seq<Seq<char>>)| key_set(out@).contains(k) <==> folder_keys(done).contains(
        k,
    ) by {
        if folder_keys(done).contains(k) {
            assert(flags_of(done, k) is Some);
            let j = choose|j: int| 0 <= j < acc@.len() && (#[trigger] acc@[j]).key.key() == k;
            assert(flags_of(done, acc@[j].key.key()) == Some((acc@[j].is_dir, acc@[j].expanded)));
        }
        if key_set(out@).contains(k) {
            let j = choose|j: int| 0 <= j < acc@.len() && #[trigger] acc@[j].key.key() == k && acc@[j].is_dir;
            assert(flags_of(done, acc@[j].key.key()) == Some((acc@[j].is_dir, acc@[j].expanded)));
        }
    }
    assert(key_set(out@) =~= folder_keys(done));
    out
}

/// Whether some position of `src` below `n` holds `j`.
spec fn taken(src: Seq<int>, j: int, n: int) -> bool {
    exists|q: int| 0 <= q < n && #[trigger] src[q] == j
}

/// A collected path ready to be laid out.
struct Item {
    key: PathKey,
    parts: Vec<Vec<char>>,
    row: ExplorerRow,
}

spec fn item_ok(it: Item, a: Acc, root: (bool, Seq<Seq<char>>)) -> bool {
    &&& it.key.key() == a.key.key()
    &&& views(it.parts@) == parts_under(a.key.key(), root)
    &&& it.row.path@ == key_text(a.key.key())
    &&& key_of(it.row.path@) == a.key.key()
    &&& it.row.is_dir == a.is_dir
    &&& it.row.expanded == a.expanded
    &&& it.row.depth == row_depth(a.key.key(), root)
    &&& it.row.name@ == row_name(a.key.key())
}

fn make_item(a: &Acc, rk: &PathKey) -> (r: Item)
    requires
        crate::paths::plain_parts(a.key.key().0, a.key.key().1),
    ensures
        item_ok(r, *a, rk.key()),
{
    let parts = parts_of(&a.key, rk);
    let path = key_to_text(&a.key);
    proof {
        crate::paths::lemma_key_round_trip(a.key.key().0, a.key.key().1);
    }
    let name = match crate::paths::path_file_name(path.as_str()) {
        Some(n) => n,
        None => String::new(),
    };
    let depth = if parts.len() == 0 {
        0
    } else {
        parts.len() - 1
    };
    assert(views(parts@).len() == parts@.len());
    Item {
        key: crate::fs_tree::copy_key(&a.key),
        parts,
        row: ExplorerRow { path, name, depth, is_dir: a.is_dir, expanded: a.expanded },
    }
}

/// `b` does not come before `a`; kept opaque so that sortedness facts do
/// not unfold the order.
#[verifier::opaque]
spec fn not_after(
    root: (bool, Seq<Seq<char>>),
    f: Set<(bool, Seq<Seq<char>>)>,
    b: Seq<Seq<char>>,
    a: Seq<Seq<char>>,
) -> bool {
    part_order(root, f, b, a) != Order::Less
}

spec fn items_sorted(items: Seq<Item>, root: (bool, Seq<Seq<char>>), f: Set<(bool, Seq<Seq<char>>)>) -> bool {
    forall|q1: int, q2: int|
        0 <= q1 < q2 < items.len() ==> not_after(
            root,
            f,
            views((#[trigger] items[q2]).parts@),
            views((#[trigger] items[q1]).parts@),
        )
}

/// The inserted item does not come after any item behind it.
proof fn lemma_insert_sorted_at(
    old_out: Seq<Item>,
    p: int,
    x: Item,
    q2: int,
    root: (bool, Seq<Seq<char>>),
    f: Set<(bool, Seq<Seq<char>>)>,
)
    requires
        0 <= p < q2 <= old_out.len(),
        items_sorted(old_out, root, f),
        part_order(root, f, views(x.parts@), views(old_out[p].parts@)) == Order::Less,
    ensures
        not_after(root, f, views(old_out[q2 - 1].parts@), views(x.parts@)),
{
    reveal(not_after);
    let xp = views(x.parts@);
    let a = views(old_out[q2 - 1].parts@);
    let c = views(old_out[p].parts@);
    lemma_part_order_antisymmetric(root, f, a, xp);
    lemma_part_order_antisymmetric(root, f, xp, c);
    if part_order(root, f, a, xp) == Order::Less {
        lemma_part_order_transitive(root, f, a, xp, c);
        if q2 - 1 > p {
            assert(not_after(root, f, views(old_out[q2 - 1].parts@), views(old_out[p].parts@)));
        } else {
            lemma_part_order_antisymmetric(root, f, c, xp);
        }
    }
}

proof fn lemma_insert_sorted(
    old_out: Seq<Item>,
    p: int,
    x: Item,
    root: (bool, Seq<Seq<char>>),
    f: Set<(bool, Seq<Seq<char>>)>,
)
    requires
        0 <= p <= old_out.len(),
        items_sorted(old_out, root, f),
        forall|i: int|
            0 <= i < p ==> part_order(root, f, views(x.parts@), views((#[trigger] old_out[i]).parts@))
                != Order::Less,
        p < old_out.len() ==> part_order(root, f, views(x.parts@), views(old_out[p].parts@))
            == Order::Less,
    ensures
        items_sorted(old_out.insert(p, x), root, f),
{
    let out = old_out.insert(p, x);
    assert forall|q1: int, q2: int| 0 <= q1 < q2 < out.len() implies not_after(
        root,
        f,
        views((#[trigger] out[q2]).parts@),
        views((#[trigger] out[q1]).parts@),
    ) by {
        if q1 < p && q2 == p {
            assert(out[q1] == old_out[q1]);
            assert(out[q2] == x);
            assert(part_order(root, f, views(x.parts@), views(old_out[q1].parts@)) != Order::Less);
            reveal(not_after);
        } else if q1 < p && q2 > p {
            assert(out[q1] == old_out[q1]);
            assert(out[q2] == old_out[q2 - 1]);
        } else if q1 == p && q2 > p {
            assert(out[q1] == x);
            assert(out[q2] == old_out[q2 - 1]);
            lemma_insert_sorted_at(old_out, p, x, q2, root, f);
        } else if q1 > p {
            assert(out[q1] == old_out[q1 - 1]);
            assert(out[q2] == old_out[q2 - 1]);
        } else {
            assert(out[q1] == old_out[q1]);
            assert(out[q2] == old_out[q2]);
        }
    }
}

/// Inserts `x` after every item that does not come after it.
fn insert_item(out: &mut Vec<Item>, x: Item, rk: &PathKey, dirs: &Vec<PathKey>) -> (p: usize)
    requires
        items_sorted(old(out)@, rk.key(), key_set(dirs@)),
    ensures
        p <= old(out)@.len(),
        final(out)@ == old(out)@.insert(p as int, x),
        items_sorted(final(out)@, rk.key(), key_set(dirs@)),
{
    let ghost root = rk.key();
    let ghost f = key_set(dirs@);
    let mut p: usize = 0;
    while p < out.len() && !(order_of(rk, dirs, &x.parts, &out[p].parts) == Order::Less)
        invariant
            p <= out@.len(),
            out@ == old(out)@,
            forall|i: int|
                0 <= i < p ==> part_order(root, f, views(x.parts@), views((#[trigger] out@[i]).parts@))
                    != Order::Less,
            root == rk.key(),
            f == key_set(dirs@),
        decreases out@.len() - p,
    {
        p += 1;
    }
    let ghost old_out = out@;
    let ghost xv = x;
    assert(p < old_out.len() ==> part_order(root, f, views(xv.parts@), views(old_out[p as int].parts@))
        == Order::Less);
    out.insert(p, x);
    proof {
        lemma_insert_sorted(old_out, p as int, xv, root, f);
    }
    p
}

/// How the laid-out items stand for the collected paths: `src[q]` is the
/// collected path item `q` shows; every path shows once.
spec fn items_cover(items: Seq<Item>, src: Seq<int>, acc: Seq<Acc>, k: int, root: (bool, Seq<Seq<char>>)) -> bool {
    &&& items.len() == k
    &&& src.len() == k
    &&& forall|q: int| 0 <= q < k ==> 0 <= #[trigger] src[q] < k
    &&& forall|q: int| 0 <= q < k ==> item_ok(#[trigger] items[q], acc[src[q]], root)
    &&& forall|q1: int, q2: int| 0 <= q1 < k && 0 <= q2 < k && q1 != q2 ==> #[trigger] src[q1]
        != #[trigger] src[q2]
    &&& forall|j: int| 0 <= j < k ==> #[trigger] taken(src, j, k)
}

proof fn lemma_cover_insert(
    items: Seq<Item>,
    src: Seq<int>,
    acc: Seq<Acc>,
    k: int,
    root: (bool, Seq<Seq<char>>),
    p: int,
    x: Item,
)
    requires
        items_cover(items, src, acc, k, root),
        0 <= p <= k,
        k < acc.len(),
        item_ok(x, acc[k], root),
    ensures
        items_cover(items.insert(p, x), src.insert(p, k), acc, k + 1, root),
{
    let ni = items.insert(p, x);
    let ns = src.insert(p, k);
    assert forall|q: int| 0 <= q < k + 1 implies 0 <= #[trigger] ns[q] < k + 1 by {
        if q < p {
            assert(ns[q] == src[q]);
        } else if q > p {
            assert(ns[q] == src[q - 1]);
        }
    }
    assert forall|q: int| 0 <= q < k + 1 implies item_ok(#[trigger] ni[q], acc[ns[q]], root) by {
        if q < p {
            assert(ns[q] == src[q]);
            assert(ni[q] == items[q]);
        } else if q > p {
            assert(ns[q] == src[q - 1]);
            assert(ni[q] == items[q - 1]);
        }
    }
    assert forall|q1: int, q2: int| 0 <= q1 < k + 1 && 0 <= q2 < k + 1 && q1 != q2 implies #[trigger] ns[q1]
        != #[trigger] ns[q2] by {
        let o1 = if q1 < p {
            q1
        } else {
            q1 - 1
        };
        let o2 = if q2 < p {
            q2
        } else {
            q2 - 1
        };
        if q1 != p {
            assert(ns[q1] == src[o1]);
        }
        if q2 != p {
            assert(ns[q2] == src[o2]);
        }
    }
    assert forall|j: int| 0 <= j < k + 1 implies #[trigger] taken(ns, j, k + 1) by {
        if j == k {
            assert(ns[p] == k);
        } else {
            assert(taken(src, j, k));
            let q = choose|q: int| 0 <= q < k && #[trigger] src[q] == j;
            if q < p {
                assert(ns[q] == j);
            } else {
                assert(ns[q + 1] == j);
            }
        }
    }
}

/// Lays the collected paths out in Explorer order.
fn layout(
    acc: &Vec<Acc>,
    rk: &PathKey,
    dirs: &Vec<PathKey>,
    Ghost(done): Ghost<Seq<((bool, Seq<Seq<char>>), bool, bool)>>,
) -> (r: Vec<ExplorerRow>)
    requires
        acc_ok(acc@, done),
        key_set(dirs@) == folder_keys(done),
    ensures
        filtered_rows(r@, done, rk.key()),
{
    let ghost root = rk.key();
    let ghost f = folder_keys(done);
    let mut out: Vec<Item> = Vec::new();
    let ghost mut src: Seq<int> = seq![];
    let mut k: usize = 0;
    while k < acc.len()
        invariant
            k <= acc@.len(),
            acc_ok(acc@, done),
            key_set(dirs@) == f,
            root == rk.key(),
            items_cover(out@, src, acc@, k as int, root),
            items_sorted(out@, root, f),
        decreases acc@.len() - k,
    {
        let x = make_item(&acc[k], rk);
        let ghost old_out = out@;
        let ghost xv = x;
        let p = insert_item(&mut out, x, rk, dirs);
        proof {
            lemma_cover_insert(old_out, src, acc@, k as int, root, p as int, xv);
            src = src.insert(p as int, k as int);
        }
        k += 1;
    }
    let mut rows: Vec<ExplorerRow> = Vec::new();
    let mut i: usize = 0;
    while i < out.len()
        invariant
            i <= out@.len(),
            rows@.len() == i,
            forall|q: int| 0 <= q < i ==> #[trigger] rows@[q] == out@[q].row,
        decreases out@.len() - i,
    {
        let r = ExplorerRow {
            path: out[i].row.path.clone(),
            name: out[i].row.name.clone(),
            depth: out[i].row.depth,
            is_dir: out[i].row.is_dir,
            expanded: out[i].row.expanded,
        };
        rows.push(r);
        i += 1;
    }
    proof {
        lemma_rows_ok(out@, src, acc@, rows@, done, root);
    }
    rows
}

proof fn lemma_rows_ok(
    out: Seq<Item>,
    src: Seq<int>,
    acc: Seq<Acc>,
    rows: Seq<ExplorerRow>,
    done: Seq<((bool, Seq<Seq<char>>), bool, bool)>,
    root: (bool, Seq<Seq<char>>),
)
    requires
        acc_ok(acc, done),
        items_cover(out, src, acc, acc.len() as int, root),
        items_sorted(out, root, folder_keys(done)),
        rows.len() == out.len(),
        forall|q: int| 0 <= q < rows.len() ==> #[trigger] rows[q] == out[q].row,
    ensures
        filtered_rows(rows, done, root),
{
    let n = acc.len() as int;
    let f = folder_keys(done);
    assert forall|q: int| 0 <= q < n implies #[trigger] flags_of(done, key_of(rows[q].path@)) == Some(
        (rows[q].is_dir, rows[q].expanded),
    ) by {
        assert(rows[q] == out[q].row);
        assert(item_ok(out[q], acc[src[q]], root));
        assert(flags_of(done, acc[src[q]].key.key()) == Some((acc[src[q]].is_dir, acc[src[q]].expanded)));
    }
    assert forall|q: int| 0 <= q < n implies (#[trigger] rows[q]).path@ == key_text(key_of(rows[q].path@)) by {
        assert(rows[q] == out[q].row);
        assert(item_ok(out[q], acc[src[q]], root));
    }
    assert forall|q: int| 0 <= q < n implies (#[trigger] rows[q]).depth == row_depth(
        key_of(rows[q].path@),
        root,
    ) && rows[q].name@ == row_name(key_of(rows[q].path@)) by {
        assert(rows[q] == out[q].row);
        assert(item_ok(out[q], acc[src[q]], root));
    }
    assert forall|a: int, b: int| 0 <= a < n && 0 <= b < n && a != b implies key_of(
        #[trigger] rows[a].path@,
    ) != key_of(#[trigger] rows[b].path@) by {
        assert(rows[a] == out[a].row);
        assert(rows[b] == out[b].row);
        assert(item_ok(out[a], acc[src[a]], root));
        assert(item_ok(out[b], acc[src[b]], root));
        assert(src[a] != src[b]);
    }
    assert forall|kk: (bool, Seq<Seq<char>>)| #[trigger] flags_of(done, kk) is Some implies exists|q: int|
        0 <= q < n && key_of(#[trigger] rows[q].path@) == kk by {
        let j = choose|j: int| 0 <= j < acc.len() && (#[trigger] acc[j]).key.key() == kk;
        assert(taken(src, j, n));
        let q = choose|q: int| 0 <= q < n && #[trigger] src[q] == j;
        assert(rows[q] == out[q].row);
        assert(item_ok(out[q], acc[src[q]], root));
        assert(key_of(rows[q].path@) == kk);
    }
    assert forall|a: int, b: int| 0 <= a < b < n implies part_order(
        root,
        f,
        parts_under(key_of(#[trigger] rows[b].path@), root),
        parts_under(key_of(#[trigger] rows[a].path@), root),
    ) != Order::Less by {
        assert(rows[a] == out[a].row);
        assert(rows[b] == out[b].row);
        assert(item_ok(out[a], acc[src[a]], root));
        assert(item_ok(out[b], acc[src[b]], root));
        assert(not_after(root, f, views(out[b].parts@), views(out[a].parts@)));
        reveal(not_after);
    }
}

/// The Explorer rows a lowercased query picks: every inventory entry and
/// visible row whose path (below the root) contains the query, with the
/// folders above it. Each path appears once, with its flags combined.
pub fn filtered_inventory_rows(
    root: &str,
    inventory: &Vec<ExplorerInventoryEntry>,
    visible_rows: &Vec<Row>,
    query: &str,
) -> (r: Vec<ExplorerRow>)
    ensures
        filtered_rows(r@, all_adds(key_of(root@), inventory@, visible_rows@, query@), key_of(root@)),
{
    let rk = path_key(root);
    let q = crate::text::chars_of(query);
    let acc = accumulate(&rk, inventory, visible_rows, &q);
    let ghost done = all_adds(rk.key(), inventory@, visible_rows@, q@);
    let dirs = folder_list(&acc, Ghost(done));
    layout(&acc, &rk, &dirs, Ghost(done))
}

/// A folder strictly between the root and `p`.
pub open spec fn above(
    p: (bool, Seq<Seq<char>>),
    root: (bool, Seq<Seq<char>>),
    k: (bool, Seq<Seq<char>>),
) -> bool {
    &&& key_starts_with(p, root)
    &&& k.0 == p.0
    &&& root.1.len() < k.1.len() < p.1.len()
    &&& k.1 == p.1.take(k.1.len() as int)
}

/// The paths of the inventory entries.
pub open spec fn inventory_paths(inv: Seq<ExplorerInventoryEntry>) -> Seq<Seq<char>> {
    inv.map_values(|e: ExplorerInventoryEntry| e.path@)
}

/// The paths of the visible rows.
pub open spec fn visible_paths(rows: Seq<Row>) -> Seq<Seq<char>> {
    rows.map_values(|r: Row| r.entry.path@)
}

/// The key `k` is a picked path of `paths`, or a folder between the root
/// and one.
pub open spec fn brings(
    paths: Seq<Seq<char>>,
    root: (bool, Seq<Seq<char>>),
    q: Seq<char>,
    k: (bool, Seq<Seq<char>>),
) -> bool {
    exists|i: int|
        0 <= i < paths.len() && picked(#[trigger] paths[i], root, q) && (key_of(paths[i]) == k
            || above(key_of(paths[i]), root, k))
}

/// The key `k` is a folder between the root and a picked path of `paths`.
pub open spec fn opens(
    paths: Seq<Seq<char>>,
    root: (bool, Seq<Seq<char>>),
    q: Seq<char>,
    k: (bool, Seq<Seq<char>>),
) -> bool {
    exists|i: int| 0 <= i < paths.len() && picked(#[trigger] paths[i], root, q) && above(key_of(paths[i]), root, k)
}

/// Some contribution is for the key `k`.
pub open spec fn adds_key(adds: Seq<((bool, Seq<Seq<char>>), bool, bool)>, k: (bool, Seq<Seq<char>>)) -> bool {
    exists|j: int| 0 <= j < adds.len() && (#[trigger] adds[j]).0 == k
}

/// Some contribution marks the key `k` as an open folder.
pub open spec fn adds_open(adds: Seq<((bool, Seq<Seq<char>>), bool, bool)>, k: (bool, Seq<Seq<char>>)) -> bool {
    exists|j: int| 0 <= j < adds.len() && (#[trigger] adds[j]).0 == k && adds[j].1 && adds[j].2
}

proof fn lemma_has_concat(
    a: Seq<((bool, Seq<Seq<char>>), bool, bool)>,
    b: Seq<((bool, Seq<Seq<char>>), bool, bool)>,
    k: (bool, Seq<Seq<char>>),
)
    ensures
        adds_key(a + b, k) == (adds_key(a, k) || adds_key(b, k)),
        adds_open(a + b, k) == (adds_open(a, k) || adds_open(b, k)),
{
    let c = a + b;
    if adds_key(c, k) {
        let j = choose|j: int| 0 <= j < c.len() && (#[trigger] c[j]).0 == k;
        if j < a.len() {
            assert(c[j] == a[j]);
        } else {
            assert(c[j] == b[j - a.len()]);
        }
    }
    if adds_key(a, k) {
        let j = choose|j: int| 0 <= j < a.len() && (#[trigger] a[j]).0 == k;
        assert(c[j] == a[j]);
    }
    if adds_key(b, k) {
        let j = choose|j: int| 0 <= j < b.len() && (#[trigger] b[j]).0 == k;
        assert(c[j + a.len()] == b[j]);
    }
    if adds_open(c, k) {
        let j = choose|j: int| 0 <= j < c.len() && (#[trigger] c[j]).0 == k && c[j].1 && c[j].2;
        if j < a.len() {
            assert(c[j] == a[j]);
        } else {
            assert(c[j] == b[j - a.len()]);
        }
    }
    if adds_open(a, k) {
        let j = choose|j: int| 0 <= j < a.len() && (#[trigger] a[j]).0 == k && a[j].1 && a[j].2;
        assert(c[j] == a[j]);
    }
    if adds_open(b, k) {
        let j = choose|j: int| 0 <= j < b.len() && (#[trigger] b[j]).0 == k && b[j].1 && b[j].2;
        assert(c[j + a.len()] == b[j]);
    }
}

proof fn lemma_ancestor_adds_keys(
    p: (bool, Seq<Seq<char>>),
    root: (bool, Seq<Seq<char>>),
    k: (bool, Seq<Seq<char>>),
)
    ensures
        adds_key(ancestor_adds(p, root), k) == above(p, root, k),
        adds_open(ancestor_adds(p, root), k) == above(p, root, k),
{
    let aa = ancestor_adds(p, root);
    if above(p, root, k) {
        let t = k.1.len() - root.1.len() - 1;
        assert(aa[t].0 == (p.0, p.1.take(root.1.len() + 1 + t)));
        assert(aa[t].0 == k);
        assert(aa[t].1 && aa[t].2);
    }
    if adds_key(aa, k) {
        let t = choose|t: int| 0 <= t < aa.len() && (#[trigger] aa[t]).0 == k;
        assert(aa[t].0 == (p.0, p.1.take(root.1.len() + 1 + t)));
        assert(k.1 =~= p.1.take(k.1.len() as int));
    }
}

proof fn lemma_brings_push(
    paths: Seq<Seq<char>>,
    x: Seq<char>,
    root: (bool, Seq<Seq<char>>),
    q: Seq<char>,
    k: (bool, Seq<Seq<char>>),
)
    ensures
        brings(paths.push(x), root, q, k) == (brings(paths, root, q, k) || (picked(x, root, q) && (
        key_of(x) == k || above(key_of(x), root, k)))),
        opens(paths.push(x), root, q, k) == (opens(paths, root, q, k) || (picked(x, root, q)
            && above(key_of(x), root, k))),
{
    let ps = paths.push(x);
    if brings(ps, root, q, k) {
        let i = choose|i: int|
            0 <= i < ps.len() && picked(#[trigger] ps[i], root, q) && (key_of(ps[i]) == k || above(
                key_of(ps[i]),
                root,
                k,
            ));
        if i < paths.len() {
            assert(ps[i] == paths[i]);
        }
    }
    if brings(paths, root, q, k) {
        let i = choose|i: int|
            0 <= i < paths.len() && picked(#[trigger] paths[i], root, q) && (key_of(paths[i]) == k
                || above(key_of(paths[i]), root, k));
        assert(ps[i] == paths[i]);
    }
    if picked(x, root, q) {
        assert(ps[paths.len() as int] == x);
    }
    if opens(ps, root, q, k) {
        let i = choose|i: int| 0 <= i < ps.len() && picked(#[trigger] ps[i], root, q) && above(key_of(ps[i]), root, k);
        if i < paths.len() {
            assert(ps[i] == paths[i]);
        }
    }
    if opens(paths, root, q, k) {
        let i = choose|i: int| 0 <= i < paths.len() && picked(#[trigger] paths[i], root, q) && above(key_of(paths[i]), root, k);
        assert(ps[i] == paths[i]);
    }
}

proof fn lemma_one_add(k0: (bool, Seq<Seq<char>>), d: bool, e: bool, k: (bool, Seq<Seq<char>>))
    ensures
        adds_key(seq![(k0, d, e)], k) == (k0 == k),
        adds_open(seq![(k0, d, e)], k) ==> k0 == k,
{
    let s = seq![(k0, d, e)];
    if k0 == k {
        assert(s[0].0 == k);
    }
}

proof fn lemma_inventory_adds_keys(
    inv: Seq<(Seq<char>, bool)>,
    root: (bool, Seq<Seq<char>>),
    q: Seq<char>,
    k: (bool, Seq<Seq<char>>),
)
    ensures
        adds_key(inventory_adds(inv, root, q), k) == brings(
            inv.map_values(|e: (Seq<char>, bool)| e.0),
            root,
            q,
            k,
        ),
        opens(inv.map_values(|e: (Seq<char>, bool)| e.0), root, q, k) ==> adds_open(
            inventory_adds(inv, root, q),
            k,
        ),
    decreases inv.len(),
{
    let ps = inv.map_values(|e: (Seq<char>, bool)| e.0);
    if inv.len() == 0 {
        assert(ps.len() == 0);
    } else {
        lemma_inventory_adds_keys(inv.drop_last(), root, q, k);
        let prev_ps = inv.drop_last().map_values(|e: (Seq<char>, bool)| e.0);
        let x = inv.last();
        assert(ps =~= prev_ps.push(x.0));
        lemma_brings_push(prev_ps, x.0, root, q, k);
        let prev = inventory_adds(inv.drop_last(), root, q);
        if picked(x.0, root, q) {
            let aa = ancestor_adds(key_of(x.0), root);
            let own = seq![(key_of(x.0), x.1, x.1)];
            lemma_has_concat(prev, aa, k);
            lemma_has_concat(prev + aa, own, k);
            lemma_ancestor_adds_keys(key_of(x.0), root, k);
            lemma_one_add(key_of(x.0), x.1, x.1, k);
        }
    }
}

proof fn lemma_row_adds_keys(
    rows: Seq<crate::fs_tree::RowView>,
    root: (bool, Seq<Seq<char>>),
    q: Seq<char>,
    k: (bool, Seq<Seq<char>>),
)
    ensures
        adds_key(row_adds(rows, root, q), k) == brings(
            rows.map_values(|r: crate::fs_tree::RowView| r.entry.path),
            root,
            q,
            k,
        ),
        opens(rows.map_values(|r: crate::fs_tree::RowView| r.entry.path), root, q, k) ==> adds_open(
            row_adds(rows, root, q),
            k,
        ),
    decreases rows.len(),
{
    let ps = rows.map_values(|r: crate::fs_tree::RowView| r.entry.path);
    if rows.len() == 0 {
        assert(ps.len() == 0);
    } else {
        lemma_row_adds_keys(rows.drop_last(), root, q, k);
        let prev_ps = rows.drop_last().map_values(|r: crate::fs_tree::RowView| r.entry.path);
        let x = rows.last();
        assert(ps =~= prev_ps.push(x.entry.path));
        lemma_brings_push(prev_ps, x.entry.path, root, q, k);
        let prev = row_adds(rows.drop_last(), root, q);
        if picked(x.entry.path, root, q) {
            let aa = ancestor_adds(key_of(x.entry.path), root);
            let own = seq![(key_of(x.entry.path), x.entry.is_dir, x.expanded)];
            lemma_has_concat(prev, aa, k);
            lemma_has_concat(prev + aa, own, k);
            lemma_ancestor_adds_keys(key_of(x.entry.path), root, k);
            lemma_one_add(key_of(x.entry.path), x.entry.is_dir, x.expanded, k);
        }
    }
}

proof fn lemma_flags_keys(adds: Seq<((bool, Seq<Seq<char>>), bool, bool)>, k: (bool, Seq<Seq<char>>))
    ensures
        (flags_of(adds, k) is Some) == adds_key(adds, k),
        adds_open(adds, k) ==> (flags_of(adds, k) matches Some((d, e)) && d && e),
    decreases adds.len(),
{
    if adds.len() > 0 {
        let prev = adds.drop_last();
        lemma_flags_keys(prev, k);
        lemma_has_concat(prev, seq![adds.last()], k);
        lemma_one_add(adds.last().0, adds.last().1, adds.last().2, k);
        assert(prev + seq![adds.last()] =~= adds);
        if adds_open(seq![adds.last()], k) {
            let s = seq![adds.last()];
            let j = choose|j: int| 0 <= j < s.len() && (#[trigger] s[j]).0 == k && s[j].1 && s[j].2;
            assert(j == 0);
        }
    }
}

/// The filtered rows are exactly the picked paths (inventory entries and
/// visible rows whose path below the root holds the query) and the folders
/// between the root and each of them; each such folder shows as an open
/// folder.
pub proof fn lemma_filtered_rows_cover(
    root: (bool, Seq<Seq<char>>),
    inv: Seq<ExplorerInventoryEntry>,
    rows: Seq<Row>,
    q: Seq<char>,
    out: Seq<ExplorerRow>,
)
    requires
        filtered_rows(out, all_adds(root, inv, rows, q), root),
    ensures
        forall|i: int|
            0 <= i < out.len() ==> brings(inventory_paths(inv), root, q, key_of((#[trigger] out[i]).path@))
                || brings(visible_paths(rows), root, q, key_of(out[i].path@)),
        forall|k: (bool, Seq<Seq<char>>)|
            #![trigger brings(inventory_paths(inv), root, q, k)]
            #![trigger brings(visible_paths(rows), root, q, k)]
            brings(inventory_paths(inv), root, q, k) || brings(visible_paths(rows), root, q, k)
                ==> exists|i: int| 0 <= i < out.len() && key_of((#[trigger] out[i]).path@) == k,
        forall|i: int|
            0 <= i < out.len() && (opens(inventory_paths(inv), root, q, key_of((#[trigger] out[i]).path@))
                || opens(visible_paths(rows), root, q, key_of(out[i].path@))) ==> out[i].is_dir
                && out[i].expanded,
{
    let iv = inventory_view(inv);
    let rv = crate::fs_tree::rows_view(rows);
    let ia = inventory_adds(iv, root, q);
    let ra = row_adds(rv, root, q);
    let adds = all_adds(root, inv, rows, q);
    assert(adds == ia + ra);
    assert(iv.map_values(|e: (Seq<char>, bool)| e.0) =~= inventory_paths(inv));
    assert(rv.map_values(|r: crate::fs_tree::RowView| r.entry.path) =~= visible_paths(rows));
    assert forall|k: (bool, Seq<Seq<char>>)|
        true implies (#[trigger] adds_key(adds, k)) == (brings(inventory_paths(inv), root, q, k) || brings(
            visible_paths(rows),
            root,
            q,
            k,
        )) && ((opens(inventory_paths(inv), root, q, k) || opens(visible_paths(rows), root, q, k))
            ==> (flags_of(adds, k) matches Some((d, e)) && d && e)) && (flags_of(adds, k) is Some)
            == adds_key(adds, k) by {
        lemma_inventory_adds_keys(iv, root, q, k);
        lemma_row_adds_keys(rv, root, q, k);
        lemma_has_concat(ia, ra, k);
        lemma_flags_keys(adds, k);
    }
    assert forall|i: int| 0 <= i < out.len() implies brings(
        inventory_paths(inv),
        root,
        q,
        key_of((#[trigger] out[i]).path@),
    ) || brings(visible_paths(rows), root, q, key_of(out[i].path@)) by {
        assert(flags_of(adds, key_of(out[i].path@)) is Some);
        assert(adds_key(adds, key_of(out[i].path@)));
    }
    assert forall|k: (bool, Seq<Seq<char>>)|
        brings(inventory_paths(inv), root, q, k) || brings(visible_paths(rows), root, q, k) implies exists|
        i: int,
    | 0 <= i < out.len() && key_of((#[trigger] out[i]).path@) == k by {
        assert(adds_key(adds, k));
        assert(flags_of(adds, k) is Some);
    }
    assert forall|i: int|
        0 <= i < out.len() && (opens(inventory_paths(inv), root, q, key_of((#[trigger] out[i]).path@))
            || opens(visible_paths(rows), root, q, key_of(out[i].path@))) implies out[i].is_dir
        && out[i].expanded by {
        assert(adds_key(adds, key_of(out[i].path@)));
        assert(flags_of(adds, key_of(out[i].path@)) == Some((out[i].is_dir, out[i].expanded)));
    }
}

/// The row a visible tree row shows as when nothing is filtered.
pub open spec fn plain_row(r: Row, e: ExplorerRow) -> bool {
    &&& e.path@ == r.entry.path@
    &&& e.name@ == r.entry.name@
    &&& e.depth == r.depth
    &&& e.is_dir == r.entry.is_dir
    &&& e.expanded == r.expanded
}

/// The Explorer's rows for a query: with a blank query, the lazy tree's
/// rows exactly as they are; otherwise the filtered rows for the trimmed,
/// lowercased query.
pub fn explorer_rows(
    root: &str,
    tree_rows: &Vec<Row>,
    inventory: &Vec<ExplorerInventoryEntry>,
    query: &str,
) -> (r: Vec<ExplorerRow>)
    ensures
        lowercase(crate::text::trim(query@)).len() == 0 ==> r@.len() == tree_rows@.len() && forall|
            i: int,
        | 0 <= i < r@.len() ==> plain_row(tree_rows@[i], #[trigger] r@[i]),
        lowercase(crate::text::trim(query@)).len() > 0 ==> filtered_rows(
            r@,
            all_adds(key_of(root@), inventory@, tree_rows@, lowercase(crate::text::trim(query@))),
            key_of(root@),
        ),
{
    let q = to_lowercase(&crate::text::trim_ws(&crate::text::chars_of(query)));
    if q.len() == 0 {
        let mut out: Vec<ExplorerRow> = Vec::new();
        let mut i: usize = 0;
        while i < tree_rows.len()
            invariant
                i <= tree_rows@.len(),
                out@.len() == i,
                forall|j: int| 0 <= j < i ==> plain_row(tree_rows@[j], #[trigger] out@[j]),
            decreases tree_rows@.len() - i,
        {
            let row = &tree_rows[i];
            out.push(
                ExplorerRow {
                    path: row.entry.path.clone(),
                    name: row.entry.name.clone(),
                    depth: row.depth,
                    is_dir: row.entry.is_dir,
                    expanded: row.expanded,
                },
            );
            i += 1;
        }
        return out;
    }
    let qs = crate::text::string_of(&q);
    filtered_inventory_rows(root, inventory, tree_rows, qs.as_str())
}

/// Swapping two paths reverses their Explorer order, and only a path (by
/// its components under the root) compares equal to itself.
pub proof fn lemma_explorer_order_antisymmetric(
    left: (bool, Seq<Seq<char>>),
    right: (bool, Seq<Seq<char>>),
    root: (bool, Seq<Seq<char>>),
    dirs: Set<(bool, Seq<Seq<char>>)>,
)
    ensures
        explorer_order(left, right, root, dirs) == flip(explorer_order(right, left, root, dirs)),
        explorer_order(left, right, root, dirs) == Order::Equal <==> parts_under(left, root)
            == parts_under(right, root),
{
    lemma_part_order_antisymmetric(root, dirs, parts_under(left, root), parts_under(right, root));
}

/// The Explorer order of two paths under a root, in full: swapping them
/// reverses it; a folder comes before everything below it; otherwise, at
/// the first component below the root where they differ, a folder comes
/// before a file, and two of a kind go by lowercased name, then by exact
/// name.
pub proof fn lemma_explorer_order_law(
    left: (bool, Seq<Seq<char>>),
    right: (bool, Seq<Seq<char>>),
    root: (bool, Seq<Seq<char>>),
    dirs: Set<(bool, Seq<Seq<char>>)>,
)
    ensures
        explorer_order(left, right, root, dirs) == flip(explorer_order(right, left, root, dirs)),
        ({
            let a = parts_under(left, root);
            let b = parts_under(right, root);
            &&& a.len() < b.len() && a == b.take(a.len() as int) ==> explorer_order(left, right, root, dirs)
                == Order::Less
            &&& b.len() < a.len() && b == a.take(b.len() as int) ==> explorer_order(left, right, root, dirs)
                == Order::Greater
            &&& forall|t: int|
                0 <= t < a.len() && t < b.len() && a.take(t) == b.take(t) && a[t] != b[t] ==> {
                    let ld = dirs.contains(pushed(root, #[trigger] a.take(t + 1)));
                    let rd = dirs.contains(pushed(root, b.take(t + 1)));
                    explorer_order(left, right, root, dirs) == if ld && !rd {
                        Order::Less
                    } else if !ld && rd {
                        Order::Greater
                    } else {
                        name_order(a[t], b[t])
                    }
                }
        }),
{
    let a = parts_under(left, root);
    let b = parts_under(right, root);
    lemma_part_order_antisymmetric(root, dirs, a, b);
    lemma_part_order_cases(root, dirs, a, b);
}

/// The filtered Explorer rows, in full: no two share a path; they are
/// exactly the picked paths and the folders between the root and each,
/// those folders shown open; each row's depth is its components below the
/// root, less one; and no row comes after the next in Explorer order.
pub proof fn lemma_filtered_rows_law(
    root: (bool, Seq<Seq<char>>),
    inv: Seq<ExplorerInventoryEntry>,
    rows: Seq<Row>,
    q: Seq<char>,
    out: Seq<ExplorerRow>,
)
    requires
        filtered_rows(out, all_adds(root, inv, rows, q), root),
    ensures
        forall|i: int, j: int|
            0 <= i < out.len() && 0 <= j < out.len() && i != j ==> key_of(#[trigger] out[i].path@)
                != key_of(#[trigger] out[j].path@),
        forall|i: int|
            0 <= i < out.len() ==> brings(inventory_paths(inv), root, q, key_of((#[trigger] out[i]).path@))
                || brings(visible_paths(rows), root, q, key_of(out[i].path@)),
        forall|k: (bool, Seq<Seq<char>>)|
            #![trigger brings(inventory_paths(inv), root, q, k)]
            #![trigger brings(visible_paths(rows), root, q, k)]
            brings(inventory_paths(inv), root, q, k) || brings(visible_paths(rows), root, q, k)
                ==> exists|i: int| 0 <= i < out.len() && key_of((#[trigger] out[i]).path@) == k,
        forall|i: int|
            0 <= i < out.len() && (opens(inventory_paths(inv), root, q, key_of((#[trigger] out[i]).path@))
                || opens(visible_paths(rows), root, q, key_of(out[i].path@))) ==> out[i].is_dir
                && out[i].expanded,
        forall|i: int| 0 <= i < out.len() ==> (#[trigger] out[i]).depth == row_depth(key_of(out[i].path@), root),
        forall|i: int, j: int|
            0 <= i < j < out.len() ==> explorer_order(
                key_of(#[trigger] out[i].path@),
                key_of(#[trigger] out[j].path@),
                root,
                folder_keys(all_adds(root, inv, rows, q)),
            ) != Order::Greater,
{
    lemma_filtered_rows_cover(root, inv, rows, q, out);
    let f = folder_keys(all_adds(root, inv, rows, q));
    assert forall|i: int, j: int| 0 <= i < j < out.len() implies explorer_order(
        key_of(#[trigger] out[i].path@),
        key_of(#[trigger] out[j].path@),
        root,
        f,
    ) != Order::Greater by {
        lemma_explorer_order_antisymmetric(key_of(out[i].path@), key_of(out[j].path@), root, f);
    }
}

/// The Explorer order is transitive.
pub proof fn lemma_explorer_order_transitive(
    a: (bool, Seq<Seq<char>>),
    b: (bool, Seq<Seq<char>>),
    c: (bool, Seq<Seq<char>>),
    root: (bool, Seq<Seq<char>>),
    dirs: Set<(bool, Seq<Seq<char>>)>,
)
    requires
        explorer_order(a, b, root, dirs) == Order::Less,
        explorer_order(b, c, root, dirs) == Order::Less,
    ensures
        explorer_order(a, c, root, dirs) == Order::Less,
{
    lemma_part_order_transitive(
        root,
        dirs,
        parts_under(a, root),
        parts_under(b, root),
        parts_under(c, root),
    );
}

} // verus!
