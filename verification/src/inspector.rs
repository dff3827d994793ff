//! The inspector's reading context for the selected tab: what it is, the
//! people behind the recent commits, and a one-line summary of the
//! working tree.
use vstd::prelude::*;

use crate::git::Commit;
use crate::markdown::{lines, lines_of};
use crate::text::{
    append_chars, chars_of, decimal_chars, decimal_string, same_text, string_of, to_uppercase_char,
    uppercase,
};

verus! {

/// What the selected tab is, with the facts the inspector lists.
pub enum Subject {
    /// A text file: its path inside the workspace, size in bytes, line
    /// count, language and whether it has unsaved edits.
    File { relative: String, bytes: usize, lines: usize, language: String, unsaved: bool },
    /// A terminal: the workspace it runs in and whether its shell exited.
    Terminal { root: String, exited: bool },
    /// An image or a video: its path inside the workspace and size.
    Media { relative: String, bytes: u64 },
    /// An image change: whether each side exists.
    ImageDiff { head: bool, working: bool },
    /// A text change: its diff.
    Diff { text: String },
}

/// A section title and its label-value rows.
pub struct Identity {
    pub section: String,
    pub rows: Vec<(String, String)>,
}

pub open spec fn yes_no(b: bool) -> Seq<char> {
    if b {
        "yes"@
    } else {
        "no"@
    }
}

pub open spec fn present(b: bool) -> Seq<char> {
    if b {
        "present"@
    } else {
        "absent"@
    }
}

/// How many of the lines start with `p`.
pub open spec fn count_starting(ls: Seq<Seq<char>>, p: Seq<char>) -> nat
    decreases ls.len(),
{
    if ls.len() == 0 {
        0
    } else {
        count_starting(ls.drop_last(), p) + if p.is_prefix_of(ls.last()) {
            1nat
        } else {
            0nat
        }
    }
}

/// The inspector's section and rows for a subject.
pub open spec fn identity_of(s: Subject) -> (Seq<char>, Seq<(Seq<char>, Seq<char>)>) {
    match s {
        Subject::File { relative, bytes, lines, language, unsaved } => (
            "FILE"@,
            seq![
                ("Path"@, relative@),
                ("Bytes"@, decimal_chars(bytes as nat)),
                ("Lines"@, decimal_chars(lines as nat)),
                ("Language"@, language@),
                ("Unsaved"@, yes_no(unsaved)),
            ],
        ),
        Subject::Terminal { root, exited } => (
            "TERMINAL"@,
            seq![
                ("Shell"@, "/bin/zsh -l"@),
                ("Working directory"@, root@),
                ("Exited"@, yes_no(exited)),
            ],
        ),
        Subject::Media { relative, bytes } => (
            "FILE"@,
            seq![("Path"@, relative@), ("Bytes"@, decimal_chars(bytes as nat))],
        ),
        Subject::ImageDiff { head, working } => (
            "DIFF"@,
            seq![("HEAD"@, present(head)), ("Working"@, present(working))],
        ),
        Subject::Diff { text } => {
            let ls = lines_of(text@);
            (
                "DIFF"@,
                seq![
                    ("Additions"@, decimal_chars(count_starting(ls, "+"@))),
                    ("Deletions"@, decimal_chars(count_starting(ls, "-"@))),
                    ("Hunks"@, decimal_chars(count_starting(ls, "@@"@))),
                ],
            )
        },
    }
}

pub open spec fn rows_view(rows: Seq<(String, String)>) -> Seq<(Seq<char>, Seq<char>)> {
    rows.map_values(|r: (String, String)| (r.0@, r.1@))
}

fn count_lines_starting(ls: &Vec<Vec<char>>, p: &str) -> (r: usize)
    ensures
        r == count_starting(ls@.map_values(|l: Vec<char>| l@), p@),
{
    let ghost lv = ls@.map_values(|l: Vec<char>| l@);
    let pc = chars_of(p);
    let mut n: usize = 0;
    let mut i: usize = 0;
    while i < ls.len()
        invariant
            i <= ls@.len(),
            lv == ls@.map_values(|l: Vec<char>| l@),
            pc@ == p@,
            n == count_starting(lv.subrange(0, i as int), p@),
            n <= i,
        decreases ls@.len() - i,
    {
        assert(lv.subrange(0, i + 1).drop_last() =~= lv.subrange(0, i as int));
        assert(lv.subrange(0, i + 1).last() == ls@[i as int]@);
        if crate::text::starts_with(&ls[i], &pc) {
            n = n + 1;
        }
        i += 1;
    }
    assert(lv.subrange(0, lv.len() as int) =~= lv);
    n
}

fn row(label: &str, value: String) -> (r: (String, String))
    ensures
        r.0@ == label@,
        r.1@ == value@,
{
    (label.to_string(), value)
}

fn number(n: u64) -> (r: String)
    ensures
        r@ == decimal_chars(n as nat),
{
    string_of(&decimal_string(n))
}

/// The inspector's section and rows for the selected tab.
pub fn identity(s: &Subject) -> (r: Identity)
    ensures
        (r.section@, rows_view(r.rows@)) == identity_of(*s),
{
    let (section, rows): (&str, Vec<(String, String)>) = match s {
        Subject::File { relative, bytes, lines, language, unsaved } => (
            "FILE",
            vec![
                row("Path", relative.clone()),
                row("Bytes", number(*bytes as u64)),
                row("Lines", number(*lines as u64)),
                row("Language", language.clone()),
                row(
                    "Unsaved",
                    if *unsaved {
                        "yes".to_string()
                    } else {
                        "no".to_string()
                    },
                ),
            ],
        ),
        Subject::Terminal { root, exited } => (
            "TERMINAL",
            vec![
                row("Shell", "/bin/zsh -l".to_string()),
                row("Working directory", root.clone()),
                row(
                    "Exited",
                    if *exited {
                        "yes".to_string()
                    } else {
                        "no".to_string()
                    },
                ),
            ],
        ),
        Subject::Media { relative, bytes } => (
            "FILE",
            vec![row("Path", relative.clone()), row("Bytes", number(*bytes))],
        ),
        Subject::ImageDiff { head, working } => (
            "DIFF",
            vec![
                row(
                    "HEAD",
                    if *head {
                        "present".to_string()
                    } else {
                        "absent".to_string()
                    },
                ),
                row(
                    "Working",
                    if *working {
                        "present".to_string()
                    } else {
                        "absent".to_string()
                    },
                ),
            ],
        ),
        Subject::Diff { text } => {
            let ls = lines(&chars_of(text.as_str()));
            let ghost lv = lines_of(text@);
            assert(ls@.map_values(|l: Vec<char>| l@) =~= lv);
            (
                "DIFF",
                vec![
                    row("Additions", number(count_lines_starting(&ls, "+") as u64)),
                    row("Deletions", number(count_lines_starting(&ls, "-") as u64)),
                    row("Hunks", number(count_lines_starting(&ls, "@@") as u64)),
                ],
            )
        },
    };
    let r = Identity { section: section.to_string(), rows };
    assert(rows_view(r.rows@) =~= identity_of(*s).1);
    r
}

/// Up to three distinct authors of the commits, newest first.
pub open spec fn recent_authors_of(commits: Seq<Commit>) -> Seq<Seq<char>>
    decreases commits.len(),
{
    if commits.len() == 0 {
        Seq::empty()
    } else {
        let a = recent_authors_of(commits.drop_last());
        let who = commits.last().author@;
        if a.len() >= 3 || a.contains(who) {
            a
        } else {
            a.push(who)
        }
    }
}

pub open spec fn names_view(v: Seq<String>) -> Seq<Seq<char>> {
    v.map_values(|s: String| s@)
}

/// Up to three distinct authors of the commits, in commit order.
pub fn recent_authors(commits: &Vec<Commit>) -> (r: Vec<String>)
    ensures
        names_view(r@) == recent_authors_of(commits@),
{
    let ghost cs = commits@;
    let mut out: Vec<String> = Vec::new();
    let mut i: usize = 0;
    while i < commits.len()
        invariant
            i <= cs.len(),
            cs == commits@,
            names_view(out@) == recent_authors_of(cs.subrange(0, i as int)),
            out@.len() <= 3,
        decreases cs.len() - i,
    {
        assert(cs.subrange(0, i + 1).drop_last() =~= cs.subrange(0, i as int));
        let who = &commits[i].author;
        let ghost before = names_view(out@);
        let mut seen = false;
        let mut k: usize = 0;
        while k < out.len()
            invariant
                k <= out@.len(),
                before == names_view(out@),
                !seen ==> forall|j: int| 0 <= j < k ==> before[j] != who@,
                seen ==> before.contains(who@),
            decreases out@.len() - k,
        {
            assert(before[k as int] == out@[k as int]@);
            if same_text(out[k].as_str(), who.as_str()) {
                seen = true;
            }
            k += 1;
        }
        assert(seen == before.contains(who@));
        if !seen && out.len() < 3 {
            out.push(who.clone());
            assert(names_view(out@) =~= before.push(who@));
        }
        i += 1;
    }
    assert(cs.subrange(0, cs.len() as int) =~= cs);
    out
}

/// The first character of a name, uppercased; a question mark for an
/// empty name.
pub open spec fn initial_of(name: Seq<char>) -> Seq<char> {
    if name.len() == 0 {
        "?"@
    } else {
        uppercase(name[0])
    }
}

/// The badge letter of a name: its first character, uppercased, or a
/// question mark when the name is empty.
pub fn initial(name: &str) -> (r: String)
    ensures
        r@ == initial_of(name@),
{
    let c = chars_of(name);
    if c.len() == 0 {
        return "?".to_string();
    }
    string_of(&to_uppercase_char(c[0]))
}

/// The working tree's one-line summary.
pub open spec fn changes_summary_of(changed: nat) -> Seq<char> {
    if changed == 0 {
        "Working tree clean"@
    } else {
        decimal_chars(changed) + " changed files"@
    }
}

/// The working tree's one-line summary.
pub fn changes_summary(changed: usize) -> (r: String)
    ensures
        r@ == changes_summary_of(changed as nat),
{
    if changed == 0 {
        return "Working tree clean".to_string();
    }
    let mut c = decimal_string(changed as u64);
    append_chars(&mut c, &chars_of(" changed files"));
    string_of(&c)
}

/// The branch and short head, two spaces apart.
pub fn branch_line(branch: &str, head_short: &str) -> (r: String)
    ensures
        r@ == branch@ + "  "@ + head_short@,
{
    let mut c = chars_of(branch);
    append_chars(&mut c, &chars_of("  "));
    append_chars(&mut c, &chars_of(head_short));
    string_of(&c)
}

} // verus!
