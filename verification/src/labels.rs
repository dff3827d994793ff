//! Texts the shell shows about files: the status bar's language label and
//! the shortened path of a repository card.
use vstd::prelude::*;

use crate::markdown::join_with;
use crate::text::{
    append_chars, ascii_lower_seq, ascii_upper_seq, chars_eq, chars_of, lower_ascii, split_char,
    split_on, starts_with, string_of, upper_ascii,
};
use crate::workspace::{lower_extension, lowered_extension};

verus! {

/// The status bar's label for a file: Markdown and plain text by
/// extension, the extension in capitals where the highlighter only knows
/// the file as text, else the language's own name.
pub open spec fn status_label(path: Seq<char>, language: Seq<char>) -> Seq<char> {
    match lower_extension(path) {
        Some(e) => if e == "md"@ || e == "markdown"@ {
            "Markdown"@
        } else if e == "txt"@ {
            "Plain Text"@
        } else if ascii_lower_seq(language) == "text"@ {
            ascii_upper_seq(e)
        } else {
            language
        },
        None => language,
    }
}

/// The label the status bar shows for a file in a language.
pub fn file_status_label(path: &str, language: &str) -> (r: String)
    ensures
        r@ == status_label(path@, language@),
{
    match lowered_extension(path) {
        Some(e) => {
            if chars_eq(&e, &chars_of("md")) || chars_eq(&e, &chars_of("markdown")) {
                "Markdown".to_string()
            } else if chars_eq(&e, &chars_of("txt")) {
                "Plain Text".to_string()
            } else if chars_eq(&lower_ascii(&chars_of(language)), &chars_of("text")) {
                string_of(&upper_ascii(&e))
            } else {
                language.to_string()
            }
        },
        None => language.to_string(),
    }
}

/// A path with the home folder written `~`.
pub open spec fn home_shortened(path: Seq<char>, home: Seq<char>) -> Seq<char> {
    if home.len() > 0 && home.is_prefix_of(path) {
        seq!['~'] + path.skip(home.len() as int)
    } else {
        path
    }
}

/// A path for a repository card: home becomes `~`, and a path of more than
/// four `/`-separated parts keeps only its last three, after `.../`.
pub open spec fn shortened(path: Seq<char>, home: Seq<char>) -> Seq<char> {
    let t = home_shortened(path, home);
    let parts = split_on(t, '/');
    if parts.len() <= 4 {
        t
    } else {
        ".../"@ + join_with(parts.skip(parts.len() - 3), '/')
    }
}

/// Shortens a path for a repository card, given the home folder (empty
/// when unknown).
pub fn shorten_path(path: &str, home: &str) -> (r: String)
    ensures
        r@ == shortened(path@, home@),
{
    let p = chars_of(path);
    let h = chars_of(home);
    let text = if h.len() > 0 && starts_with(&p, &h) {
        let mut t = chars_of("~");
        proof {
            reveal_strlit("~");
        }
        append_chars(&mut t, &crate::text::slice_chars(&p, h.len(), p.len()));
        assert(t@ =~= seq!['~'] + p@.skip(h@.len() as int));
        t
    } else {
        p
    };
    let parts = split_char(&text, '/');
    let n = parts.len();
    if n <= 4 {
        return string_of(&text);
    }
    let ghost pv = split_on(text@, '/');
    let ghost tail = pv.skip(n - 3);
    let mut out = chars_of(".../");
    let ghost start = out@;
    let mut k: usize = n - 3;
    assert(tail.take(0) =~= Seq::<Seq<char>>::empty());
    while k < n
        invariant
            n > 4,
            n - 3 <= k <= n,
            n == parts@.len(),
            n == pv.len(),
            tail == pv.skip(n - 3),
            start == ".../"@,
            forall|x: int| 0 <= x < n ==> #[trigger] parts@[x]@ == pv[x],
            out@ == start + join_with(tail.take(k - (n - 3)), '/'),
        decreases n - k,
    {
        proof {
            assert(tail[k - (n - 3)] == pv[k as int]);
            crate::diff::lemma_join_push_sep(tail.take(k - (n - 3)), parts@[k as int]@, '/');
            assert(tail.take(k - (n - 3) + 1) =~= tail.take(k - (n - 3)).push(parts@[k as int]@));
        }
        if k > n - 3 {
            out.push('/');
        }
        append_chars(&mut out, &parts[k]);
        k += 1;
    }
    assert(tail.take(3) =~= tail);
    string_of(&out)
}


/// A path as shown inside its workspace: below `root` it is the rest of
/// its components; elsewhere the path itself.
pub fn relative_to(path: &str, root: &str) -> (r: String)
    ensures
        r@ == crate::explorer::match_text(path@, crate::fs_tree::key_of(root@)),
{
    let k = crate::fs_tree::path_key(path);
    let rk = crate::fs_tree::path_key(root);
    if crate::fs_tree::key_has_prefix(&k, &rk) {
        assert(crate::paths::views(rk.comps@).len() == rk.comps@.len());
        let rel = crate::fs_tree::key_suffix(&k, rk.comps.len());
        crate::fs_tree::key_to_text(&rel)
    } else {
        path.to_string()
    }
}

} // verus!
