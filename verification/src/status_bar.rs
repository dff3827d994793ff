//! What the status bar says: the branch and head, how many files changed,
//! the last status message, what the selected tab shows and in which mode,
//! whether the working tree is clean, and a rough token count.
use vstd::prelude::*;

use crate::labels::{file_status_label, status_label};
use crate::text::{append_chars, chars_of, decimal_chars, decimal_string, string_of};
use crate::workspace::FileMode;

verus! {

/// What the selected tab shows, as far as the status bar cares.
pub enum Surface {
    /// A text file: its language's name, its mode, whether it has a
    /// preview (or is an HTML page), its line ending and its size in bytes.
    File {
        path: String,
        language: String,
        mode: FileMode,
        previewable: bool,
        line_ending: String,
        bytes: usize,
    },
    Terminal,
    Image,
    Video,
    /// The text diff of the change at `path`.
    Diff { path: String },
    ImageDiff,
}

/// The status bar's texts; a `None` is not shown.
pub struct StatusBar {
    pub branch: String,
    /// The short head hash; not shown when empty.
    pub head: String,
    pub changed: Option<String>,
    pub status: Option<String>,
    pub surface: Option<String>,
    pub document_mode: Option<String>,
    pub line_ending: Option<String>,
    /// Whether the working tree is clean, and its label.
    pub git_state: Option<(bool, String)>,
    pub tokens: Option<String>,
}

pub open spec fn opt_text(s: Option<String>) -> Option<Seq<char>> {
    match s {
        Some(x) => Some(x@),
        None => None,
    }
}

/// The branch shown: the checked-out one, or a note outside a repository.
pub open spec fn branch_text(is_repo: bool, branch: Seq<char>) -> Seq<char> {
    if is_repo {
        branch
    } else {
        "no repository"@
    }
}

/// The changed-files count, shown when there are any.
pub open spec fn changed_text(changed: nat, condensed: bool) -> Option<Seq<char>> {
    if changed == 0 {
        None
    } else if condensed {
        Some(decimal_chars(changed) + " ch"@)
    } else {
        Some(decimal_chars(changed) + " changed"@)
    }
}

/// The label of what the selected tab shows.
pub open spec fn surface_text(s: Surface) -> Seq<char> {
    match s {
        Surface::File { path, language, .. } => status_label(path@, language@),
        Surface::Terminal => "Terminal"@,
        Surface::Image => "Image"@,
        Surface::Video => "Video"@,
        Surface::Diff { path } => status_label(path@, "Text"@) + " Diff"@,
        Surface::ImageDiff => "Image Diff"@,
    }
}

/// The document mode of a previewable text file.
pub open spec fn mode_text(s: Surface) -> Option<Seq<char>> {
    match s {
        Surface::File { mode, previewable, .. } => if previewable {
            Some(
                match mode {
                    FileMode::Preview => "Preview"@,
                    FileMode::Source => "Raw"@,
                },
            )
        } else {
            None
        },
        _ => None,
    }
}

/// Whether the working tree is clean, with its label, inside a repository.
pub open spec fn git_state_text(is_repo: bool, changed: nat, condensed: bool) -> Option<
    (bool, Seq<char>),
> {
    if !is_repo {
        None
    } else if changed == 0 {
        Some((true, if condensed {
            "Clean"@
        } else {
            "Working Tree Clean"@
        }))
    } else {
        Some((false, if condensed {
            "Dirty"@
        } else {
            "Working Tree Dirty"@
        }))
    }
}

/// A text file's rough token count: a quarter of its bytes.
pub open spec fn tokens_text(s: Surface, condensed: bool) -> Option<Seq<char>> {
    match s {
        Surface::File { bytes, .. } => Some(
            "~"@ + decimal_chars((bytes / 4) as nat) + if condensed {
                " tok"@
            } else {
                " tokens"@
            },
        ),
        _ => None,
    }
}

fn number_text(n: usize, after: &str) -> (r: String)
    ensures
        r@ == decimal_chars(n as nat) + after@,
{
    let mut c = decimal_string(n as u64);
    append_chars(&mut c, &chars_of(after));
    string_of(&c)
}

/// The status bar's texts. `condensed` is the narrow layout, which
/// shortens labels and drops the status message.
pub fn status_bar(
    is_repo: bool,
    branch: &str,
    head: &str,
    changed: usize,
    condensed: bool,
    status: Option<&str>,
    surface: Option<&Surface>,
) -> (r: StatusBar)
    ensures
        r.branch@ == branch_text(is_repo, branch@),
        r.head@ == head@,
        opt_text(r.changed) == changed_text(changed as nat, condensed),
        opt_text(r.status) == (match status {
            Some(s) => if condensed {
                None
            } else {
                Some(s@)
            },
            None => None,
        }),
        opt_text(r.surface) == (match surface {
            Some(s) => Some(surface_text(*s)),
            None => None,
        }),
        opt_text(r.document_mode) == (match surface {
            Some(s) => mode_text(*s),
            None => None,
        }),
        opt_text(r.line_ending) == (match surface {
            Some(Surface::File { line_ending, .. }) => Some(line_ending@),
            _ => None,
        }),
        (match r.git_state {
            Some((clean, label)) => Some((clean, label@)),
            None => None,
        }) == git_state_text(is_repo, changed as nat, condensed),
        opt_text(r.tokens) == (match surface {
            Some(s) => tokens_text(*s, condensed),
            None => None,
        }),
{
    let branch = if is_repo {
        branch.to_string()
    } else {
        "no repository".to_string()
    };
    let changed_label = if changed == 0 {
        None
    } else if condensed {
        Some(number_text(changed, " ch"))
    } else {
        Some(number_text(changed, " changed"))
    };
    let status = match status {
        Some(s) => if condensed {
            None
        } else {
            Some(s.to_string())
        },
        None => None,
    };
    let (surface_label, document_mode, line_ending, tokens) = match surface {
        Some(Surface::File { path, language, mode, previewable, line_ending, bytes }) => {
            let document_mode = if *previewable {
                Some(
                    match mode {
                        FileMode::Preview => "Preview".to_string(),
                        FileMode::Source => "Raw".to_string(),
                    },
                )
            } else {
                None
            };
            let mut t = chars_of("~");
            append_chars(&mut t, &decimal_string((*bytes / 4) as u64));
            append_chars(
                &mut t,
                &chars_of(
                    if condensed {
                        " tok"
                    } else {
                        " tokens"
                    },
                ),
            );
            (
                Some(file_status_label(path.as_str(), language.as_str())),
                document_mode,
                Some(line_ending.clone()),
                Some(string_of(&t)),
            )
        },
        Some(Surface::Terminal) => (Some("Terminal".to_string()), None, None, None),
        Some(Surface::Image) => (Some("Image".to_string()), None, None, None),
        Some(Surface::Video) => (Some("Video".to_string()), None, None, None),
        Some(Surface::Diff { path }) => {
            let mut c = chars_of(file_status_label(path.as_str(), "Text").as_str());
            append_chars(&mut c, &chars_of(" Diff"));
            (Some(string_of(&c)), None, None, None)
        },
        Some(Surface::ImageDiff) => (Some("Image Diff".to_string()), None, None, None),
        None => (None, None, None, None),
    };
    let git_state = if !is_repo {
        None
    } else if changed == 0 {
        Some((true, if condensed {
            "Clean".to_string()
        } else {
            "Working Tree Clean".to_string()
        }))
    } else {
        Some((false, if condensed {
            "Dirty".to_string()
        } else {
            "Working Tree Dirty".to_string()
        }))
    };
    StatusBar {
        branch,
        head: head.to_string(),
        changed: changed_label,
        status,
        surface: surface_label,
        document_mode,
        line_ending,
        git_state,
        tokens,
    }
}

} // verus!
