//! Unix paths held as strings and compared the way `std::path` compares
//! them: by their components. Separators are `/`; empty pieces and `.`
//! pieces are not components, except a `.` that begins a relative path.
use vstd::prelude::*;

use crate::text::{append_chars, chars_eq, chars_of, split_char, split_on, string_of};

verus! {

/// A piece between separators that names something.
pub open spec fn is_component(c: Seq<char>) -> bool {
    c.len() > 0 && c != seq!['.']
}

pub open spec fn keep_components(p: Seq<Seq<char>>) -> Seq<Seq<char>>
    decreases p.len(),
{
    if p.len() == 0 {
        seq![]
    } else {
        let r = keep_components(p.drop_last());
        if is_component(p.last()) {
            r.push(p.last())
        } else {
            r
        }
    }
}

/// Whether a relative path begins with a `.` piece, which `std::path` keeps
/// as its first component.
pub open spec fn leading_cur_dir(s: Seq<char>) -> bool {
    s.len() > 0 && s[0] == '.' && (s.len() == 1 || s[1] == '/')
}

/// The components of a path.
pub open spec fn components(s: Seq<char>) -> Seq<Seq<char>> {
    if leading_cur_dir(s) {
        seq![seq!['.']] + keep_components(split_on(s, '/'))
    } else {
        keep_components(split_on(s, '/'))
    }
}

/// Whether a path starts at the root.
pub open spec fn is_absolute(s: Seq<char>) -> bool {
    s.len() > 0 && s[0] == '/'
}

/// Path equality: same root and same components.
pub open spec fn same_path(a: Seq<char>, b: Seq<char>) -> bool {
    is_absolute(a) == is_absolute(b) && components(a) == components(b)
}

/// `Path::starts_with`: `base`'s components are a prefix of `p`'s.
pub open spec fn path_starts_with(p: Seq<char>, base: Seq<char>) -> bool {
    is_absolute(p) == is_absolute(base) && components(base).is_prefix_of(components(p))
}

/// `Path::file_name`: the last component, unless there is none or it is
/// `.` or `..`.
pub open spec fn file_name(s: Seq<char>) -> Option<Seq<char>> {
    let c = components(s);
    if c.len() == 0 || c.last() == seq!['.', '.'] || c.last() == seq!['.'] {
        None
    } else {
        Some(c.last())
    }
}

/// Index of the last `c` in `s`, if any.
pub open spec fn last_index_of(s: Seq<char>, c: char) -> Option<int>
    decreases s.len(),
{
    if s.len() == 0 {
        None
    } else if s.last() == c {
        Some(s.len() - 1)
    } else {
        last_index_of(s.drop_last(), c)
    }
}

/// `Path::extension` of a file name: the text after the last `.`, unless
/// there is no `.` or the only one starts the name.
pub open spec fn name_extension(name: Seq<char>) -> Option<Seq<char>> {
    match last_index_of(name, '.') {
        None => None,
        Some(k) => if k == 0 {
            None
        } else {
            Some(name.skip(k + 1))
        },
    }
}

/// `Path::extension`.
pub open spec fn extension(s: Seq<char>) -> Option<Seq<char>> {
    match file_name(s) {
        None => None,
        Some(name) => name_extension(name),
    }
}

/// Components joined with `/`, with a leading `/` for an absolute path.
pub open spec fn join_components(abs: bool, c: Seq<Seq<char>>) -> Seq<char>
    decreases c.len(),
{
    if c.len() == 0 {
        if abs {
            seq!['/']
        } else {
            seq![]
        }
    } else if c.len() == 1 {
        if abs {
            seq!['/'] + c[0]
        } else {
            c[0]
        }
    } else {
        join_components(abs, c.drop_last()) + seq!['/'] + c.last()
    }
}

/// The components of a path.
pub fn path_components(s: &str) -> (r: Vec<Vec<char>>)
    ensures
        r@.len() == components(s@).len(),
        forall|k: int| 0 <= k < r@.len() ==> #[trigger] r@[k]@ == components(s@)[k],
{
    let chars = chars_of(s);
    components_of(&chars)
}

/// The components of a path given as characters.
pub fn components_of(chars: &[char]) -> (r: Vec<Vec<char>>)
    ensures
        r@.len() == components(chars@).len(),
        forall|k: int| 0 <= k < r@.len() ==> #[trigger] r@[k]@ == components(chars@)[k],
{
    let kept = kept_pieces(chars);
    let lead = chars.len() > 0 && chars[0] == '.' && (chars.len() == 1 || chars[1] == '/');
    if !lead {
        return kept;
    }
    let mut out: Vec<Vec<char>> = Vec::new();
    out.push(vec!['.']);
    let mut i: usize = 0;
    while i < kept.len()
        invariant
            i <= kept@.len(),
            out@.len() == i + 1,
            out@[0]@ == seq!['.'],
            forall|k: int| 1 <= k <= i ==> #[trigger] out@[k]@ == kept@[k - 1]@,
        decreases kept@.len() - i,
    {
        out.push(kept[i].clone());
        i += 1;
    }
    proof {
        let c = components(chars@);
        assert(c == seq![seq!['.']] + keep_components(split_on(chars@, '/')));
        assert forall|k: int| 0 <= k < out@.len() implies #[trigger] out@[k]@ == c[k] by {
            if k > 0 {
                assert(out@[k]@ == kept@[k - 1]@);
            }
        }
    }
    out
}

/// The pieces between separators that name something.
fn kept_pieces(chars: &[char]) -> (r: Vec<Vec<char>>)
    ensures
        r@.len() == keep_components(split_on(chars@, '/')).len(),
        forall|k: int|
            0 <= k < r@.len() ==> #[trigger] r@[k]@ == keep_components(split_on(chars@, '/'))[k],
{
    let pieces = split_char(chars, '/');
    let ghost ps = split_on(chars@, '/');
    let mut out: Vec<Vec<char>> = Vec::new();
    let mut i: usize = 0;
    let dot: Vec<char> = vec!['.'];
    assert(dot@ == seq!['.']);
    while i < pieces.len()
        invariant
            i <= pieces@.len(),
            pieces@.len() == ps.len(),
            forall|k: int| 0 <= k < pieces@.len() ==> #[trigger] pieces@[k]@ == ps[k],
            dot@ == seq!['.'],
            out@.len() == keep_components(ps.take(i as int)).len(),
            forall|k: int| 0 <= k < out@.len() ==> #[trigger] out@[k]@ == keep_components(
                ps.take(i as int),
            )[k],
        decreases pieces@.len() - i,
    {
        assert(ps.take(i + 1).drop_last() == ps.take(i as int));
        assert(ps.take(i + 1).last() == ps[i as int]);
        let piece = &pieces[i];
        if piece.len() > 0 && !chars_eq(piece, &dot) {
            out.push(piece.clone());
        }
        i += 1;
    }
    assert(ps.take(ps.len() as int) == ps);
    out
}

/// Whether two component lists are equal.
pub fn components_eq(a: &Vec<Vec<char>>, b: &Vec<Vec<char>>) -> (r: bool)
    ensures
        r == (views(a@) == views(b@)),
{
    if a.len() != b.len() {
        assert(views(a@).len() != views(b@).len());
        return false;
    }
    let mut i: usize = 0;
    while i < a.len()
        invariant
            a@.len() == b@.len(),
            i <= a@.len(),
            forall|j: int| 0 <= j < i ==> a@[j]@ == b@[j]@,
        decreases a@.len() - i,
    {
        if !chars_eq(&a[i], &b[i]) {
            assert(views(a@)[i as int] != views(b@)[i as int]);
            return false;
        }
        i += 1;
    }
    assert(views(a@) =~= views(b@));
    true
}

pub open spec fn views(c: Seq<Vec<char>>) -> Seq<Seq<char>> {
    c.map_values(|x: Vec<char>| x@)
}

/// Path equality as `std::path::Path` defines it.
pub fn paths_equal(a: &str, b: &str) -> (r: bool)
    ensures
        r == same_path(a@, b@),
{
    let ac = chars_of(a);
    let bc = chars_of(b);
    let a_abs = ac.len() > 0 && ac[0] == '/';
    let b_abs = bc.len() > 0 && bc[0] == '/';
    if a_abs != b_abs {
        return false;
    }
    let x = components_of(&ac);
    let y = components_of(&bc);
    assert(views(x@) =~= components(a@));
    assert(views(y@) =~= components(b@));
    components_eq(&x, &y)
}

/// `Path::starts_with`.
pub fn starts_with_path(p: &str, base: &str) -> (r: bool)
    ensures
        r == path_starts_with(p@, base@),
{
    let pc = chars_of(p);
    let bc = chars_of(base);
    let p_abs = pc.len() > 0 && pc[0] == '/';
    let b_abs = bc.len() > 0 && bc[0] == '/';
    if p_abs != b_abs {
        return false;
    }
    let x = components_of(&pc);
    let y = components_of(&bc);
    if y.len() > x.len() {
        return false;
    }
    let ghost pcs = components(p@);
    let ghost bcs = components(base@);
    let mut i: usize = 0;
    while i < y.len()
        invariant
            y@.len() <= x@.len(),
            i <= y@.len(),
            x@.len() == pcs.len(),
            y@.len() == bcs.len(),
            pcs == components(p@),
            bcs == components(base@),
            forall|k: int| 0 <= k < x@.len() ==> #[trigger] x@[k]@ == pcs[k],
            forall|k: int| 0 <= k < y@.len() ==> #[trigger] y@[k]@ == bcs[k],
            forall|j: int| 0 <= j < i ==> y@[j]@ == x@[j]@,
        decreases y@.len() - i,
    {
        if !chars_eq(&y[i], &x[i]) {
            assert(bcs[i as int] != pcs[i as int]);
            assert(!bcs.is_prefix_of(pcs)) by {
                if bcs.is_prefix_of(pcs) {
                    assert(bcs[i as int] == pcs.subrange(0, bcs.len() as int)[i as int]);
                }
            }
            return false;
        }
        i += 1;
    }
    assert(bcs.is_prefix_of(pcs)) by {
        assert forall|j: int| 0 <= j < bcs.len() implies bcs[j] == pcs[j] by {
            assert(y@[j]@ == x@[j]@);
        }
    }
    true
}

/// `Path::file_name`.
pub fn path_file_name(s: &str) -> (r: Option<String>)
    ensures
        match r {
            Some(n) => file_name(s@) == Some(n@),
            None => file_name(s@) is None,
        },
{
    let c = path_components(s);
    if c.len() == 0 {
        return None;
    }
    let last = &c[c.len() - 1];
    let dotdot: Vec<char> = vec!['.', '.'];
    let dot: Vec<char> = vec!['.'];
    assert(dotdot@ == seq!['.', '.']);
    assert(dot@ == seq!['.']);
    if chars_eq(last, &dotdot) || chars_eq(last, &dot) {
        None
    } else {
        Some(string_of(last))
    }
}

pub proof fn lemma_last_index_bound(s: Seq<char>, c: char)
    ensures
        last_index_of(s, c) matches Some(k) ==> 0 <= k < s.len() && s[k] == c,
    decreases s.len(),
{
    if s.len() > 0 && s.last() != c {
        lemma_last_index_bound(s.drop_last(), c);
    }
}

/// Index of the last `c` in `s`.
pub fn find_last(s: &[char], c: char) -> (r: Option<usize>)
    ensures
        match r {
            Some(k) => last_index_of(s@, c) == Some(k as int),
            None => last_index_of(s@, c) is None,
        },
{
    let mut j: usize = s.len();
    assert(s@.take(s@.len() as int) == s@);
    while j > 0
        invariant
            j <= s@.len(),
            last_index_of(s@, c) == last_index_of(s@.take(j as int), c),
        decreases j,
    {
        assert(s@.take(j as int).drop_last() == s@.take(j - 1));
        if s[j - 1] == c {
            return Some(j - 1);
        }
        j -= 1;
    }
    None
}

/// `Path::extension`.
pub fn path_extension(s: &str) -> (r: Option<Vec<char>>)
    ensures
        match r {
            Some(e) => extension(s@) == Some(e@),
            None => extension(s@) is None,
        },
{
    let name = match path_file_name(s) {
        Some(n) => n,
        None => return None,
    };
    let chars = chars_of(name.as_str());
    let n = chars.len();
    proof {
        lemma_last_index_bound(chars@, '.');
    }
    match find_last(&chars, '.') {
        None => None,
        Some(k) => {
            if k == 0 {
                None
            } else {
                let e = crate::text::slice_chars(&chars, k + 1, n);
                assert(e@ == chars@.skip(k + 1));
                Some(e)
            }
        },
    }
}

/// Appends a component to a path (`PathBuf::push` of a relative name).
pub open spec fn joined_path(base: Seq<char>, name: Seq<char>) -> Seq<char> {
    if base.len() > 0 && base.last() == '/' {
        base + name
    } else {
        base + seq!['/'] + name
    }
}

/// `Path::join` of a plain name.
pub fn join_name(base: &str, name: &[char]) -> (r: String)
    ensures
        r@ == joined_path(base@, name@),
{
    let mut out = chars_of(base);
    if !(out.len() > 0 && out[out.len() - 1] == '/') {
        out.push('/');
    }
    append_chars(&mut out, name);
    string_of(&out)
}

proof fn lemma_split_free(s: Seq<char>, c: char)
    ensures
        forall|k: int| 0 <= k < split_on(s, c).len() ==> !(#[trigger] split_on(s, c)[k]).contains(c),
    decreases s.len(),
{
    if s.len() > 0 {
        lemma_split_free(s.drop_last(), c);
        crate::text::lemma_split_on_nonempty(s.drop_last(), c);
        let r = split_on(s.drop_last(), c);
        if s.last() != c {
            assert forall|k: int| 0 <= k < split_on(s, c).len() implies !(
            #[trigger] split_on(s, c)[k]).contains(c) by {
                if k == r.len() - 1 {
                    let x = r.last().push(s.last());
                    assert(split_on(s, c)[k] == x);
                    if x.contains(c) {
                        let j = choose|j: int| 0 <= j < x.len() && x[j] == c;
                        assert(r.last()[j] == c);
                    }
                }
            }
        }
    }
}

proof fn lemma_keep_plain(p: Seq<Seq<char>>)
    requires
        forall|k: int| 0 <= k < p.len() ==> !(#[trigger] p[k]).contains('/'),
    ensures
        forall|k: int|
            0 <= k < keep_components(p).len() ==> (#[trigger] keep_components(p)[k]).len() > 0
                && !keep_components(p)[k].contains('/'),
    decreases p.len(),
{
    if p.len() > 0 {
        assert forall|k: int| 0 <= k < p.drop_last().len() implies !(
        #[trigger] p.drop_last()[k]).contains('/') by {
            assert(p.drop_last()[k] == p[k]);
        }
        lemma_keep_plain(p.drop_last());
        let r = keep_components(p.drop_last());
        if is_component(p.last()) {
            assert(p.last() == p[p.len() - 1]);
            assert forall|k: int| 0 <= k < keep_components(p).len() implies (
            #[trigger] keep_components(p)[k]).len() > 0 && !keep_components(p)[k].contains('/') by {
                if k < r.len() {
                    assert(keep_components(p)[k] == r[k]);
                }
            }
        }
    }
}

/// Every component is nonempty and holds no separator.
pub proof fn lemma_components_plain(s: Seq<char>)
    ensures
        forall|k: int|
            0 <= k < components(s).len() ==> (#[trigger] components(s)[k]).len() > 0
                && !components(s)[k].contains('/'),
{
    lemma_split_free(s, '/');
    lemma_keep_plain(split_on(s, '/'));
    if leading_cur_dir(s) {
        let kept = keep_components(split_on(s, '/'));
        assert forall|k: int| 0 <= k < components(s).len() implies (
        #[trigger] components(s)[k]).len() > 0 && !components(s)[k].contains('/') by {
            if k > 0 {
                assert(components(s)[k] == kept[k - 1]);
            } else {
                assert(components(s)[0] == seq!['.']);
                if seq!['.'].contains('/') {
                    let j = choose|j: int| 0 <= j < 1 && seq!['.'][j] == '/';
                }
            }
        }
    }
}

/// Joining plain relative components never gives a rooted path.
pub proof fn lemma_join_relative(cs: Seq<Seq<char>>)
    requires
        forall|k: int| 0 <= k < cs.len() ==> (#[trigger] cs[k]).len() > 0 && !cs[k].contains('/'),
    ensures
        !is_absolute(join_components(false, cs)),
        cs.len() > 0 ==> join_components(false, cs).len() > 0,
    decreases cs.len(),
{
    if cs.len() == 1 {
        assert(cs[0][0] != '/') by {
            if cs[0][0] == '/' {
                assert(cs[0].contains('/'));
            }
        }
    } else if cs.len() > 1 {
        assert forall|k: int| 0 <= k < cs.drop_last().len() implies (
        #[trigger] cs.drop_last()[k]).len() > 0 && !cs.drop_last()[k].contains('/') by {
            assert(cs.drop_last()[k] == cs[k]);
        }
        lemma_join_relative(cs.drop_last());
        let a = join_components(false, cs.drop_last());
        assert((a + seq!['/'] + cs.last())[0] == a[0]);
    }
}

proof fn lemma_split_concat(s: Seq<char>, c: char, t: Seq<char>)
    ensures
        split_on(s + seq![c] + t, c) == split_on(s, c) + split_on(t, c),
    decreases t.len(),
{
    if t.len() == 0 {
        assert(s + seq![c] + t =~= s.push(c));
        assert((s.push(c)).drop_last() =~= s);
        assert(split_on(s, c) + split_on(t, c) =~= split_on(s, c).push(Seq::<char>::empty()));
    } else {
        let u = s + seq![c] + t;
        assert(u.drop_last() =~= s + seq![c] + t.drop_last());
        lemma_split_concat(s, c, t.drop_last());
        crate::text::lemma_split_on_nonempty(t.drop_last(), c);
        let a = split_on(s, c);
        let b = split_on(t.drop_last(), c);
        if t.last() == c {
            assert(split_on(u, c) =~= (a + b).push(Seq::<char>::empty()));
            assert(split_on(t, c) =~= b.push(Seq::<char>::empty()));
        } else {
            let r = a + b;
            assert(split_on(u, c) == r.update(r.len() - 1, r.last().push(t.last())));
            assert(split_on(t, c) == b.update(b.len() - 1, b.last().push(t.last())));
            assert(r.update(r.len() - 1, r.last().push(t.last())) =~= a + b.update(
                b.len() - 1,
                b.last().push(t.last()),
            ));
        }
    }
}

proof fn lemma_split_single(t: Seq<char>, c: char)
    requires
        !t.contains(c),
    ensures
        split_on(t, c) == seq![t],
    decreases t.len(),
{
    if t.len() > 0 {
        assert(!t.drop_last().contains(c)) by {
            if t.drop_last().contains(c) {
                let j = choose|j: int| 0 <= j < t.drop_last().len() && t.drop_last()[j] == c;
                assert(t[j] == c);
            }
        }
        lemma_split_single(t.drop_last(), c);
        assert(t.last() != c) by {
            if t.last() == c {
                assert(t[t.len() - 1] == c);
            }
        }
        assert(t.drop_last().push(t.last()) =~= t);
        assert(seq![t.drop_last()].update(0, t.drop_last().push(t.last())) =~= seq![t]);
    } else {
        assert(t =~= Seq::<char>::empty());
    }
}

/// Components a key can be written back with: nonempty, without `/`, and
/// `.` only as the first component of a relative path.
pub open spec fn plain_parts(abs: bool, cs: Seq<Seq<char>>) -> bool {
    forall|k: int|
        0 <= k < cs.len() ==> (#[trigger] cs[k]).len() > 0 && !cs[k].contains('/') && (cs[k]
            == seq!['.'] ==> k == 0 && !abs)
}

proof fn lemma_split_join(cs: Seq<Seq<char>>)
    requires
        cs.len() > 0,
        forall|k: int| 0 <= k < cs.len() ==> !(#[trigger] cs[k]).contains('/'),
    ensures
        split_on(join_components(false, cs), '/') == cs,
    decreases cs.len(),
{
    if cs.len() == 1 {
        lemma_split_single(cs[0], '/');
        assert(seq![cs[0]] =~= cs);
    } else {
        assert forall|k: int| 0 <= k < cs.drop_last().len() implies !(
        #[trigger] cs.drop_last()[k]).contains('/') by {
            assert(cs.drop_last()[k] == cs[k]);
        }
        lemma_split_join(cs.drop_last());
        lemma_split_concat(join_components(false, cs.drop_last()), '/', cs.last());
        lemma_split_single(cs.last(), '/');
        assert(cs.drop_last() + seq![cs.last()] =~= cs);
    }
}

proof fn lemma_keep_all(p: Seq<Seq<char>>)
    requires
        forall|k: int| 0 <= k < p.len() ==> is_component(#[trigger] p[k]),
    ensures
        keep_components(p) == p,
    decreases p.len(),
{
    if p.len() > 0 {
        assert forall|k: int| 0 <= k < p.drop_last().len() implies is_component(
            #[trigger] p.drop_last()[k],
        ) by {
            assert(p.drop_last()[k] == p[k]);
        }
        lemma_keep_all(p.drop_last());
        assert(is_component(p[p.len() - 1]));
        assert(p.drop_last().push(p.last()) =~= p);
    }
}

proof fn lemma_join_abs(cs: Seq<Seq<char>>)
    requires
        cs.len() > 0,
    ensures
        join_components(true, cs) == seq!['/'] + join_components(false, cs),
    decreases cs.len(),
{
    if cs.len() > 1 {
        lemma_join_abs(cs.drop_last());
        assert(seq!['/'] + join_components(false, cs.drop_last()) + seq!['/'] + cs.last() =~= seq![
            '/',
        ] + (join_components(false, cs.drop_last()) + seq!['/'] + cs.last()));
    }
}

proof fn lemma_join_first(cs: Seq<Seq<char>>)
    requires
        cs.len() > 0,
    ensures
        cs.len() == 1 ==> join_components(false, cs) == cs[0],
        cs.len() > 1 ==> join_components(false, cs) == cs[0] + seq!['/'] + join_components(
            false,
            cs.drop_first(),
        ),
    decreases cs.len(),
{
    if cs.len() > 2 {
        lemma_join_first(cs.drop_last());
        let d = cs.drop_first();
        assert(cs.drop_last().drop_first() =~= d.drop_last());
        assert(d.last() == cs.last());
        assert(d.len() > 1);
        assert(join_components(false, d) == join_components(false, d.drop_last()) + seq!['/']
            + d.last());
        assert(cs.drop_last()[0] == cs[0]);
        assert(cs[0] + seq!['/'] + join_components(false, cs.drop_last().drop_first()) + seq!['/']
            + cs.last() =~= cs[0] + seq!['/'] + (join_components(false, cs.drop_first().drop_last())
            + seq!['/'] + cs.drop_first().last()));
    } else if cs.len() == 2 {
        assert(cs.drop_last() =~= seq![cs[0]]);
        assert(cs.drop_first() =~= seq![cs[1]]);
        assert(join_components(false, seq![cs[0]]) == cs[0]);
        assert(join_components(false, seq![cs[1]]) == cs[1]);
    }
}

/// Writing a key out and reading it back gives the key again.
pub proof fn lemma_key_round_trip(abs: bool, cs: Seq<Seq<char>>)
    requires
        plain_parts(abs, cs),
    ensures
        is_absolute(join_components(abs, cs)) == abs,
        components(join_components(abs, cs)) == cs,
{
    let t = join_components(abs, cs);
    if cs.len() == 0 {
        let e = Seq::<char>::empty();
        assert(split_on(e, '/') == seq![e]);
        assert(seq![e].drop_last() =~= Seq::<Seq<char>>::empty());
        assert(keep_components(Seq::<Seq<char>>::empty()) == Seq::<Seq<char>>::empty());
        assert(!is_component(e));
        assert(keep_components(seq![e]) == Seq::<Seq<char>>::empty());
        assert(cs =~= Seq::<Seq<char>>::empty());
        if abs {
            assert(t == seq!['/']);
            assert(seq!['/'].drop_last() =~= e);
            assert(seq!['/'].last() == '/');
            assert(split_on(seq!['/'], '/') == seq![e].push(e));
            assert(seq![e].push(e) =~= seq![e, e]);
            assert(seq![e, e].drop_last() =~= seq![e]);
            assert(seq![e, e].last() == e);
            assert(keep_components(seq![e, e]) == Seq::<Seq<char>>::empty());
        } else {
            assert(t =~= e);
        }
    } else {
        assert forall|k: int| 0 <= k < cs.len() implies !(#[trigger] cs[k]).contains('/') by {}
        lemma_split_join(cs);
        lemma_join_first(cs);
        let r = join_components(false, cs);
        assert(r.len() > 0 && r[0] == cs[0][0]) by {
            assert(cs[0].len() > 0);
            if cs.len() > 1 {
                assert((cs[0] + seq!['/'] + join_components(false, cs.drop_first()))[0] == cs[0][0]);
            }
        }
        assert(cs[0][0] != '/') by {
            if cs[0][0] == '/' {
                assert(cs[0].contains('/'));
            }
        }
        if abs {
            lemma_join_abs(cs);
            lemma_split_concat(Seq::<char>::empty(), '/', r);
            assert(Seq::<char>::empty() + seq!['/'] + r =~= t);
            assert(split_on(Seq::<char>::empty(), '/') =~= seq![Seq::<char>::empty()]);
            let p = seq![Seq::<char>::empty()] + cs;
            assert(split_on(t, '/') == p);
            assert forall|k: int| 0 <= k < cs.len() implies is_component(#[trigger] cs[k]) by {}
            lemma_keep_all(cs);
            assert(keep_components(p) == cs) by {
                assert(p =~= seq![Seq::<char>::empty()] + cs);
                lemma_keep_prefix_empty(cs);
            }
            assert(!leading_cur_dir(t));
        } else {
            if cs[0] == seq!['.'] {
                assert(leading_cur_dir(t)) by {
                    if cs.len() > 1 {
                        assert(t[1] == '/');
                    } else {
                        assert(t.len() == 1);
                    }
                }
                let rest = cs.drop_first();
                assert forall|k: int| 0 <= k < rest.len() implies is_component(#[trigger] rest[k]) by {
                    assert(rest[k] == cs[k + 1]);
                }
                lemma_keep_all(rest);
                lemma_keep_lead_dot(rest);
                assert(cs =~= seq![seq!['.']] + rest);
            } else {
                assert(!leading_cur_dir(t)) by {
                    if leading_cur_dir(t) {
                        if cs.len() == 1 {
                            assert(t == cs[0]);
                            assert(cs[0] =~= seq!['.']);
                        } else {
                            assert(t == cs[0] + seq!['/'] + join_components(false, cs.drop_first()));
                            if cs[0].len() == 1 {
                                assert(cs[0] =~= seq!['.']);
                            } else {
                                assert(t[1] == cs[0][1]);
                                assert(cs[0].contains('/'));
                            }
                        }
                    }
                }
                assert forall|k: int| 0 <= k < cs.len() implies is_component(#[trigger] cs[k]) by {}
                lemma_keep_all(cs);
            }
        }
    }
}

proof fn lemma_keep_prefix_empty(cs: Seq<Seq<char>>)
    requires
        forall|k: int| 0 <= k < cs.len() ==> is_component(#[trigger] cs[k]),
    ensures
        keep_components(seq![Seq::<char>::empty()] + cs) == cs,
    decreases cs.len(),
{
    let e = Seq::<char>::empty();
    if cs.len() == 0 {
        assert(seq![e] + cs =~= seq![e]);
        assert(seq![e].drop_last() =~= Seq::<Seq<char>>::empty());
        assert(keep_components(Seq::<Seq<char>>::empty()) == Seq::<Seq<char>>::empty());
        assert(!is_component(e));
        assert(seq![e].last() == e);
        assert(keep_components(seq![e]) == Seq::<Seq<char>>::empty());
        assert(cs =~= Seq::<Seq<char>>::empty());
    } else {
        assert forall|k: int| 0 <= k < cs.drop_last().len() implies is_component(
            #[trigger] cs.drop_last()[k],
        ) by {
            assert(cs.drop_last()[k] == cs[k]);
        }
        lemma_keep_prefix_empty(cs.drop_last());
        assert((seq![e] + cs).drop_last() =~= seq![e] + cs.drop_last());
        assert((seq![e] + cs).last() == cs.last());
        assert(is_component(cs[cs.len() - 1]));
        assert(cs.drop_last().push(cs.last()) =~= cs);
    }
}

proof fn lemma_keep_lead_dot(rest: Seq<Seq<char>>)
    requires
        forall|k: int| 0 <= k < rest.len() ==> is_component(#[trigger] rest[k]),
    ensures
        keep_components(seq![seq!['.']] + rest) == rest,
    decreases rest.len(),
{
    let d = seq!['.'];
    if rest.len() == 0 {
        assert(seq![d] + rest =~= seq![d]);
        assert(seq![d].drop_last() =~= Seq::<Seq<char>>::empty());
        assert(keep_components(Seq::<Seq<char>>::empty()) == Seq::<Seq<char>>::empty());
        assert(!is_component(d));
        assert(seq![d].last() == d);
        assert(keep_components(seq![d]) == Seq::<Seq<char>>::empty());
        assert(rest =~= Seq::<Seq<char>>::empty());
    } else {
        assert forall|k: int| 0 <= k < rest.drop_last().len() implies is_component(
            #[trigger] rest.drop_last()[k],
        ) by {
            assert(rest.drop_last()[k] == rest[k]);
        }
        lemma_keep_lead_dot(rest.drop_last());
        assert((seq![d] + rest).drop_last() =~= seq![d] + rest.drop_last());
        assert((seq![d] + rest).last() == rest.last());
        assert(is_component(rest[rest.len() - 1]));
        assert(rest.drop_last().push(rest.last()) =~= rest);
    }
}

proof fn lemma_keep_no_dot(p: Seq<Seq<char>>)
    ensures
        forall|k: int| 0 <= k < keep_components(p).len() ==> is_component(#[trigger] keep_components(p)[k]),
    decreases p.len(),
{
    if p.len() > 0 {
        lemma_keep_no_dot(p.drop_last());
        let r = keep_components(p.drop_last());
        if is_component(p.last()) {
            assert forall|k: int| 0 <= k < keep_components(p).len() implies is_component(
                #[trigger] keep_components(p)[k],
            ) by {
                if k < r.len() {
                    assert(keep_components(p)[k] == r[k]);
                }
            }
        }
    }
}

/// The components of a path can be written back: they are plain.
pub proof fn lemma_components_writable(s: Seq<char>)
    ensures
        plain_parts(is_absolute(s), components(s)),
        forall|n: int| 0 <= n <= components(s).len() ==> plain_parts(
            is_absolute(s),
            #[trigger] components(s).take(n),
        ),
{
    lemma_components_plain(s);
    lemma_keep_no_dot(split_on(s, '/'));
    let kept = keep_components(split_on(s, '/'));
    if leading_cur_dir(s) {
        assert forall|k: int| 0 <= k < components(s).len() && components(s)[k] == seq!['.'] implies k
            == 0 && !is_absolute(s) by {
            if k > 0 {
                assert(components(s)[k] == kept[k - 1]);
            }
        }
    } else {
        assert forall|k: int| 0 <= k < components(s).len() implies components(s)[k] != seq!['.'] by {
            assert(components(s)[k] == kept[k]);
        }
    }
    assert forall|n: int| 0 <= n <= components(s).len() implies plain_parts(
        is_absolute(s),
        #[trigger] components(s).take(n),
    ) by {
        assert forall|k: int| 0 <= k < components(s).take(n).len() implies (#[trigger] components(
            s,
        ).take(n)[k]).len() > 0 && !components(s).take(n)[k].contains('/') && (components(s).take(
            n,
        )[k] == seq!['.'] ==> k == 0 && !is_absolute(s)) by {
            assert(components(s).take(n)[k] == components(s)[k]);
        }
    }
}

} // verus!
