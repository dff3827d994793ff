//! Session persistence: which workspaces are open and which file tabs each
//! one holds, and how a saved session is put back.
//!
//! Only durable state is stored. Terminal tabs are recreated fresh and diff
//! tabs are dropped. Reading and writing the file is the caller's part.
use vstd::prelude::*;

use crate::paths::same_path;
use crate::workspace::{FileMode, html_extension, is_html_path, lower_extension};

verus! {

/// Which sidebar tab was showing.
#[derive(Clone, Copy, PartialEq, Eq, Debug)]
pub enum SidebarTabState {
    Explorer,
    Git,
}

impl Default for SidebarTabState {
    /// The Explorer.
    fn default() -> (r: SidebarTabState)
        ensures
            r == SidebarTabState::Explorer,
    {
        SidebarTabState::Explorer
    }
}

/// One open workspace.
#[derive(Clone, Debug, PartialEq)]
pub struct WorkspaceState {
    pub root: String,
    /// Path of the selected tab. `None` means a terminal was selected; the
    /// restored terminal takes selection instead.
    pub selected: Option<String>,
    pub files: Vec<FileTabState>,
}

/// One file tab.
#[derive(Clone, Debug, PartialEq)]
pub struct FileTabState {
    pub path: String,
    /// True when a previewable file was showing its preview.
    pub preview: bool,
}

/// What a tab is, as far as the session cares.
#[derive(Clone, Copy, PartialEq, Eq, Debug)]
pub enum TabClass {
    Terminal,
    /// A text file, in the mode it shows.
    File(FileMode),
    Image,
    Video,
    Diff,
    ImageDiff,
}

/// The file tab a session keeps for a tab, if any: text files with their
/// mode, images and videos without a preview flag; terminals and diffs are
/// not kept.
pub open spec fn kept_tab(class: TabClass) -> Option<bool> {
    match class {
        TabClass::File(mode) => Some(mode == FileMode::Preview),
        TabClass::Image => Some(false),
        TabClass::Video => Some(false),
        _ => None,
    }
}

/// The saved state of a tab showing `path`, when the session keeps it.
pub fn kept_tab_state(class: TabClass, path: &str) -> (r: Option<FileTabState>)
    ensures
        match kept_tab(class) {
            Some(p) => r matches Some(f) && f.path@ == path@ && f.preview == p,
            None => r is None,
        },
{
    match class {
        TabClass::File(mode) => Some(
            FileTabState { path: path.to_string(), preview: mode == FileMode::Preview },
        ),
        TabClass::Image => Some(FileTabState { path: path.to_string(), preview: false }),
        TabClass::Video => Some(FileTabState { path: path.to_string(), preview: false }),
        _ => None,
    }
}

/// The mode a restored text tab starts in: the saved preview only when the
/// file still has one (or is an HTML page).
pub fn restored_mode(saved_preview: bool, has_preview: bool, path: &str) -> (r: FileMode)
    ensures
        r == (if saved_preview && (has_preview || (lower_extension(path@) matches Some(e)
            && html_extension(e))) {
            FileMode::Preview
        } else {
            FileMode::Source
        }),
{
    if saved_preview && (has_preview || is_html_path(path)) {
        FileMode::Preview
    } else {
        FileMode::Source
    }
}

/// The first tab showing `path`.
pub open spec fn first_with_path(paths: Seq<Option<Seq<char>>>, p: Seq<char>, n: int) -> Option<int>
    decreases n,
{
    if n <= 0 {
        None
    } else {
        match first_with_path(paths, p, n - 1) {
            Some(i) => Some(i),
            None => if paths[n - 1] matches Some(q) && same_path(q, p) {
                Some(n - 1)
            } else {
                None
            },
        }
    }
}

/// The first terminal tab.
pub open spec fn first_terminal(terminals: Seq<bool>, n: int) -> Option<int>
    decreases n,
{
    if n <= 0 {
        None
    } else {
        match first_terminal(terminals, n - 1) {
            Some(i) => Some(i),
            None => if terminals[n - 1] {
                Some(n - 1)
            } else {
                None
            },
        }
    }
}

pub open spec fn paths_view(paths: Seq<Option<String>>) -> Seq<Option<Seq<char>>> {
    paths.map_values(
        |p: Option<String>|
            match p {
                Some(s) => Some(s@),
                None => None,
            },
    )
}

/// The tab selected after a restore: the saved file's tab, else the first
/// terminal. `paths` holds each tab's file, `terminals` which tabs are
/// terminals.
pub fn restored_selection(
    paths: &Vec<Option<String>>,
    terminals: &Vec<bool>,
    selected: &Option<String>,
) -> (r: Option<usize>)
    requires
        paths@.len() == terminals@.len(),
    ensures
        r == (match (
            match selected {
                Some(s) => first_with_path(paths_view(paths@), s@, paths@.len() as int),
                None => None,
            },
            first_terminal(terminals@, terminals@.len() as int),
        ) {
            (Some(i), _) => Some(i as usize),
            (None, Some(t)) => Some(t as usize),
            (None, None) => None,
        }),
{
    let ghost pv = paths_view(paths@);
    let ghost n = paths@.len() as int;
    let mut found: Option<usize> = None;
    if let Some(s) = selected {
        let mut i: usize = 0;
        while i < paths.len() && found.is_none()
            invariant
                i <= paths@.len(),
                n == paths@.len(),
                pv == paths_view(paths@),
                found is None ==> first_with_path(pv, s@, i as int) is None,
                found matches Some(f) ==> first_with_path(pv, s@, n) == Some(f as int),
            decreases paths@.len() - i + (if found is None {
                1int
            } else {
                0int
            }),
        {
            let hit = match &paths[i] {
                Some(q) => crate::paths::paths_equal(q.as_str(), s.as_str()),
                None => false,
            };
            assert(pv[i as int] == (match paths@[i as int] {
                Some(x) => Some(x@),
                None => None::<Seq<char>>,
            }));
            if hit {
                found = Some(i);
                assert(first_with_path(pv, s@, i + 1) == Some(i as int));
                proof {
                    lemma_first_path_stable(pv, s@, i + 1, n);
                }
            } else {
                i += 1;
            }
        }
    }
    if found.is_some() {
        return found;
    }
    let mut t: usize = 0;
    while t < terminals.len()
        invariant
            t <= terminals@.len(),
            pv == paths_view(paths@),
            n == paths@.len(),
            (match selected {
                Some(s) => first_with_path(pv, s@, n),
                None => None,
            }) is None,
            first_terminal(terminals@, t as int) is None,
        decreases terminals@.len() - t,
    {
        if terminals[t] {
            proof {
                lemma_first_terminal_stable(terminals@, t + 1, terminals@.len() as int);
            }
            return Some(t);
        }
        t += 1;
    }
    None
}

proof fn lemma_first_path_stable(paths: Seq<Option<Seq<char>>>, p: Seq<char>, m: int, n: int)
    requires
        0 <= m <= n,
        first_with_path(paths, p, m) is Some,
    ensures
        first_with_path(paths, p, n) == first_with_path(paths, p, m),
    decreases n - m,
{
    if n > m {
        lemma_first_path_stable(paths, p, m, n - 1);
    }
}

proof fn lemma_first_terminal_stable(terminals: Seq<bool>, m: int, n: int)
    requires
        0 <= m <= n,
        first_terminal(terminals, m) is Some,
    ensures
        first_terminal(terminals, n) == first_terminal(terminals, m),
    decreases n - m,
{
    if n > m {
        lemma_first_terminal_stable(terminals, m, n - 1);
    }
}

/// The workspace made active after a restore: the saved one, or the last
/// when fewer came back.
pub fn restored_active(saved: usize, count: usize) -> (r: usize)
    requires
        count > 0,
    ensures
        r == (if saved < count {
            saved
        } else {
            (count - 1) as usize
        }),
{
    if saved < count {
        saved
    } else {
        count - 1
    }
}

} // verus!
