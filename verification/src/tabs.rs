//! The tabs of one workspace: which tab a file, a change or a terminal
//! opens in, the file history behind Back and Forward, and which tab stays
//! selected as tabs close.
//!
//! The views a tab shows (an editor, a terminal, a rendered preview) are
//! made by the caller for the tabs this bookkeeping adds; a tab here holds
//! what the decisions read.
use vstd::prelude::*;

use crate::paths::{file_name, path_file_name, paths_equal, same_path};
use crate::session::FileTabState;
use crate::text::{append_chars, chars_of, same_text, string_of};
use crate::workspace::{
    FileMode, html_extension, image_extension, initial_mode, is_html_path, is_image_path,
    is_video_path, lower_extension, markdown_extension, video_extension,
};

verus! {

/// What a tab shows.
#[derive(Debug)]
pub enum TabKind {
    Terminal,
    /// A text file in the editor, with a rendered preview when
    /// `has_preview` (Markdown) or when it is an HTML page.
    File { path: String, mode: FileMode, has_preview: bool },
    /// An image opens as a pure preview; there is nothing to edit.
    Image { path: String },
    /// A video plays in a player.
    Video { path: String },
    /// The text diff of one change, staged or not.
    Diff { path: String, staged: bool },
    /// An image change: the HEAD copy against the working file. A missing
    /// side means the file was added or deleted.
    ImageDiff { path: String, head: Option<String>, working: Option<String> },
}

/// One tab.
#[derive(Debug)]
pub struct Tab {
    pub id: usize,
    pub title: String,
    pub kind: TabKind,
    /// A preview tab is replaced by the next single-click open.
    pub preview: bool,
}

/// A tab kind as contracts see it.
pub enum KindView {
    Terminal,
    File { path: Seq<char>, mode: FileMode, has_preview: bool },
    Image { path: Seq<char> },
    Video { path: Seq<char> },
    Diff { path: Seq<char>, staged: bool },
    ImageDiff { path: Seq<char>, head: Option<Seq<char>>, working: Option<Seq<char>> },
}

/// A tab as contracts see it.
pub struct TabView {
    pub id: usize,
    pub title: Seq<char>,
    pub kind: KindView,
    pub preview: bool,
}

pub open spec fn opt_view(s: Option<String>) -> Option<Seq<char>> {
    match s {
        Some(x) => Some(x@),
        None => None,
    }
}

pub open spec fn kind_view(k: TabKind) -> KindView {
    match k {
        TabKind::Terminal => KindView::Terminal,
        TabKind::File { path, mode, has_preview } => KindView::File {
            path: path@,
            mode,
            has_preview,
        },
        TabKind::Image { path } => KindView::Image { path: path@ },
        TabKind::Video { path } => KindView::Video { path: path@ },
        TabKind::Diff { path, staged } => KindView::Diff { path: path@, staged },
        TabKind::ImageDiff { path, head, working } => KindView::ImageDiff {
            path: path@,
            head: opt_view(head),
            working: opt_view(working),
        },
    }
}

impl View for Tab {
    type V = TabView;

    open spec fn view(&self) -> TabView {
        TabView { id: self.id, title: self.title@, kind: kind_view(self.kind), preview: self.preview }
    }
}

/// The file a tab shows: text files, images and videos have one.
pub open spec fn kind_path(k: KindView) -> Option<Seq<char>> {
    match k {
        KindView::File { path, .. } => Some(path),
        KindView::Image { path } => Some(path),
        KindView::Video { path } => Some(path),
        _ => None,
    }
}

/// The first of the first `n` tabs for which `f` holds.
pub open spec fn first_matching(tabs: Seq<TabView>, f: spec_fn(TabView) -> bool, n: int) -> Option<
    int,
>
    decreases n,
{
    if n <= 0 {
        None
    } else {
        match first_matching(tabs, f, n - 1) {
            Some(i) => Some(i),
            None => if f(tabs[n - 1]) {
                Some(n - 1)
            } else {
                None
            },
        }
    }
}

/// The first tab for which `f` holds.
pub open spec fn first_tab(tabs: Seq<TabView>, f: spec_fn(TabView) -> bool) -> Option<int> {
    first_matching(tabs, f, tabs.len() as int)
}

/// A tab showing the file `p` (by path equality).
pub open spec fn has_path(p: Seq<char>) -> spec_fn(TabView) -> bool {
    |t: TabView| kind_path(t.kind) matches Some(q) && same_path(q, p)
}

/// A preview tab.
pub open spec fn is_preview_tab() -> spec_fn(TabView) -> bool {
    |t: TabView| t.preview
}

/// The image diff of the change at `p`.
pub open spec fn is_image_diff_of(p: Seq<char>) -> spec_fn(TabView) -> bool {
    |t: TabView| t.kind matches KindView::ImageDiff { path, .. } && path == p
}

/// The text diff of the change at `p`, staged or not.
pub open spec fn is_diff_of(p: Seq<char>, staged: bool) -> spec_fn(TabView) -> bool {
    |t: TabView| t.kind matches KindView::Diff { path, staged: s } && path == p && s == staged
}

/// A terminal.
pub open spec fn is_terminal_tab() -> spec_fn(TabView) -> bool {
    |t: TabView| t.kind is Terminal
}

/// The title of a tab for `path`: its file name, else the whole path.
pub open spec fn title_for(path: Seq<char>) -> Seq<char> {
    match file_name(path) {
        Some(n) => n,
        None => path,
    }
}

/// The title of a diff tab.
pub open spec fn diff_title(path: Seq<char>) -> Seq<char> {
    title_for(path) + " (diff)"@
}

/// What a newly opened file shows: images and videos open as previews, any
/// other file in the editor, Markdown rendered.
pub open spec fn new_file_kind(path: Seq<char>) -> KindView {
    if lower_extension(path) matches Some(e) && image_extension(e) {
        KindView::Image { path }
    } else if lower_extension(path) matches Some(e) && video_extension(e) {
        KindView::Video { path }
    } else {
        KindView::File {
            path,
            mode: if markdown_extension(path) {
                FileMode::Preview
            } else {
                FileMode::Source
            },
            has_preview: markdown_extension(path),
        }
    }
}

/// The tabs of a workspace as contracts see them.
pub struct TabsView {
    pub tabs: Seq<TabView>,
    pub selected: int,
    /// Files left behind, the latest last.
    pub back: Seq<Seq<char>>,
    /// Files backed out of, the latest last.
    pub forward: Seq<Seq<char>>,
    /// The id of the latest tab made.
    pub next_id: int,
}

/// The selection points at a tab, or is 0 when there is none.
pub open spec fn tabs_wf(v: TabsView) -> bool {
    &&& 0 <= v.next_id <= usize::MAX
    &&& if v.tabs.len() == 0 {
        v.selected == 0
    } else {
        0 <= v.selected < v.tabs.len()
    }
}

/// The file of the selected tab.
pub open spec fn selected_path(v: TabsView) -> Option<Seq<char>> {
    if 0 <= v.selected < v.tabs.len() {
        kind_path(v.tabs[v.selected].kind)
    } else {
        None
    }
}

/// `v` with tab `tab` added at the end and selected.
pub open spec fn pushed(v: TabsView, tab: TabView) -> TabsView {
    TabsView {
        tabs: v.tabs.push(tab),
        selected: v.tabs.len() as int,
        back: v.back,
        forward: v.forward,
        next_id: v.next_id + 1,
    }
}

/// `v` with tab `i` selected.
pub open spec fn with_selected(v: TabsView, i: int) -> TabsView {
    TabsView { tabs: v.tabs, selected: i, back: v.back, forward: v.forward, next_id: v.next_id }
}

/// `v` with tab `i` replaced by `tab` and selected.
pub open spec fn put_at(v: TabsView, i: int, tab: TabView) -> TabsView {
    TabsView {
        tabs: v.tabs.update(i, tab),
        selected: i,
        back: v.back,
        forward: v.forward,
        next_id: v.next_id,
    }
}

/// A new tab for `kind`, with the next id.
pub open spec fn made_tab(v: TabsView, title: Seq<char>, kind: KindView, preview: bool) -> TabView {
    TabView { id: (v.next_id + 1) as usize, title, kind, preview }
}

/// Opening a file without touching the history: an open tab for it is
/// selected (and kept, when the open is not a preview); otherwise a new tab
/// replaces the preview tab on a preview open, or is added at the end.
pub open spec fn opened(v: TabsView, path: Seq<char>, preview: bool) -> TabsView {
    match first_tab(v.tabs, has_path(path)) {
        Some(i) => if preview {
            with_selected(v, i)
        } else {
            put_at(
                v,
                i,
                TabView {
                    id: v.tabs[i].id,
                    title: v.tabs[i].title,
                    kind: v.tabs[i].kind,
                    preview: false,
                },
            )
        },
        None => {
            let tab = made_tab(v, title_for(path), new_file_kind(path), preview);
            match (if preview {
                first_tab(v.tabs, is_preview_tab())
            } else {
                None
            }) {
                Some(j) => TabsView {
                    tabs: v.tabs.update(j, tab),
                    selected: j,
                    back: v.back,
                    forward: v.forward,
                    next_id: v.next_id + 1,
                },
                None => pushed(v, tab),
            }
        },
    }
}

/// The history step of a plain open: leaving one file for another records
/// it as left behind and forgets what was backed out of.
pub open spec fn recorded(v: TabsView, path: Seq<char>) -> TabsView {
    match selected_path(v) {
        Some(cur) => if same_path(cur, path) {
            v
        } else {
            TabsView {
                tabs: v.tabs,
                selected: v.selected,
                back: v.back.push(cur),
                forward: Seq::empty(),
                next_id: v.next_id,
            }
        },
        None => v,
    }
}

/// A plain open: recorded in the history, then opened.
pub open spec fn opened_file(v: TabsView, path: Seq<char>, preview: bool) -> TabsView {
    opened(recorded(v, path), path, preview)
}

/// The next file of a history step (the latest left behind when stepping
/// back, the latest backed out of when stepping forward), taken off it.
pub open spec fn popped(v: TabsView, back: bool) -> (TabsView, Option<Seq<char>>) {
    let side = if back {
        v.back
    } else {
        v.forward
    };
    if side.len() == 0 {
        (v, None)
    } else if back {
        (
            TabsView {
                tabs: v.tabs,
                selected: v.selected,
                back: v.back.drop_last(),
                forward: v.forward,
                next_id: v.next_id,
            },
            Some(v.back.last()),
        )
    } else {
        (
            TabsView {
                tabs: v.tabs,
                selected: v.selected,
                back: v.back,
                forward: v.forward.drop_last(),
                next_id: v.next_id,
            },
            Some(v.forward.last()),
        )
    }
}

/// Arriving at `path` by a history step: the file being left goes on the
/// other side of the history, and `path` opens as a kept tab.
pub open spec fn arrived(v: TabsView, path: Seq<char>, back: bool) -> TabsView {
    let w = match selected_path(v) {
        Some(cur) => if back {
            TabsView {
                tabs: v.tabs,
                selected: v.selected,
                back: v.back,
                forward: v.forward.push(cur),
                next_id: v.next_id,
            }
        } else {
            TabsView {
                tabs: v.tabs,
                selected: v.selected,
                back: v.back.push(cur),
                forward: v.forward,
                next_id: v.next_id,
            }
        },
        None => v,
    };
    opened(w, path, false)
}

/// A new terminal, added at the end and selected.
pub open spec fn terminal_opened(v: TabsView) -> TabsView {
    pushed(v, made_tab(v, "zsh"@, KindView::Terminal, false))
}

/// A video change opens the working-tree player at `working`: its open tab,
/// else a new one titled after the change's `path`.
pub open spec fn video_opened(v: TabsView, path: Seq<char>, working: Seq<char>) -> TabsView {
    match first_tab(v.tabs, has_path(working)) {
        Some(i) => with_selected(v, i),
        None => pushed(v, made_tab(v, title_for(path), KindView::Video { path: working }, false)),
    }
}

/// An image change opens (or refreshes) its side-by-side diff tab.
pub open spec fn image_diff_opened(
    v: TabsView,
    path: Seq<char>,
    head: Option<Seq<char>>,
    working: Option<Seq<char>>,
) -> TabsView {
    let kind = KindView::ImageDiff { path, head, working };
    match first_tab(v.tabs, is_image_diff_of(path)) {
        Some(i) => put_at(
            v,
            i,
            TabView { id: v.tabs[i].id, title: v.tabs[i].title, kind, preview: v.tabs[i].preview },
        ),
        None => pushed(v, made_tab(v, diff_title(path), kind, false)),
    }
}

/// A text change opens (or refreshes) its diff tab, one per path and side.
pub open spec fn diff_opened(v: TabsView, path: Seq<char>, staged: bool) -> TabsView {
    match first_tab(v.tabs, is_diff_of(path, staged)) {
        Some(i) => with_selected(v, i),
        None => pushed(
            v,
            made_tab(v, diff_title(path), KindView::Diff { path, staged }, false),
        ),
    }
}

/// How many of the first `n` tabs are terminals.
pub open spec fn terminals_in(tabs: Seq<TabView>, n: int) -> nat
    decreases n,
{
    if n <= 0 {
        0
    } else {
        terminals_in(tabs, n - 1) + if tabs[n - 1].kind is Terminal {
            1nat
        } else {
            0nat
        }
    }
}

/// How many tabs are terminals.
pub open spec fn terminal_count(tabs: Seq<TabView>) -> nat {
    terminals_in(tabs, tabs.len() as int)
}

/// Closing tab `index`. The last terminal stays open; past the end nothing
/// happens. The selection stays on its tab, or on the last one when it was
/// the closed one at the end.
pub open spec fn closed(v: TabsView, index: int) -> TabsView {
    if index < 0 || index >= v.tabs.len() || (v.tabs[index].kind is Terminal && terminal_count(
        v.tabs,
    ) <= 1) {
        v
    } else {
        let rest = v.tabs.remove(index);
        TabsView {
            tabs: rest,
            selected: if index < v.selected {
                v.selected - 1
            } else if v.selected >= rest.len() {
                if rest.len() == 0 {
                    0
                } else {
                    rest.len() - 1
                }
            } else {
                v.selected
            },
            back: v.back,
            forward: v.forward,
            next_id: v.next_id,
        }
    }
}

/// Switching the selected text file between source and preview, when it
/// has a preview (or is an HTML page, whose preview is made on first show).
pub open spec fn mode_toggled(v: TabsView) -> TabsView {
    if 0 <= v.selected < v.tabs.len() {
        let t = v.tabs[v.selected];
        match t.kind {
            KindView::File { path, mode, has_preview } => if has_preview || (lower_extension(
                path,
            ) matches Some(e) && html_extension(e)) {
                put_at(
                    v,
                    v.selected,
                    TabView {
                        id: t.id,
                        title: t.title,
                        kind: KindView::File {
                            path,
                            mode: match mode {
                                FileMode::Source => FileMode::Preview,
                                FileMode::Preview => FileMode::Source,
                            },
                            has_preview,
                        },
                        preview: t.preview,
                    },
                )
            } else {
                v
            },
            _ => v,
        }
    } else {
        v
    }
}

/// How a change opens: a video whose working file exists plays; an image
/// compares its two sides; anything else is a text diff.
#[derive(Clone, Copy, PartialEq, Eq, Debug)]
pub enum DiffSurface {
    Player,
    ImageSides,
    Text,
}

pub open spec fn diff_surface_of(path: Seq<char>, working_is_file: bool) -> DiffSurface {
    if working_is_file && (lower_extension(path) matches Some(e) && video_extension(e)) {
        DiffSurface::Player
    } else if lower_extension(path) matches Some(e) && image_extension(e) {
        DiffSurface::ImageSides
    } else {
        DiffSurface::Text
    }
}

/// How the change at `path` opens; `working_is_file` tells whether its
/// working-tree file exists.
pub fn diff_surface(path: &str, working_is_file: bool) -> (r: DiffSurface)
    ensures
        r == diff_surface_of(path@, working_is_file),
{
    if working_is_file && is_video_path(path) {
        DiffSurface::Player
    } else if is_image_path(path) {
        DiffSurface::ImageSides
    } else {
        DiffSurface::Text
    }
}

proof fn lemma_same_path_refl(p: Seq<char>)
    ensures
        same_path(p, p),
{
}

/// After a file opens, the selected tab shows it.
pub proof fn lemma_open_selects(v: TabsView, path: Seq<char>, preview: bool)
    requires
        tabs_wf(v),
        v.next_id < usize::MAX,
    ensures
        tabs_wf(opened(v, path, preview)),
        selected_path(opened(v, path, preview)) matches Some(q) && same_path(q, path),
        opened(v, path, preview).back == v.back,
        opened(v, path, preview).forward == v.forward,
{
    lemma_first_found(v.tabs, has_path(path), v.tabs.len() as int);
    lemma_first_found(v.tabs, is_preview_tab(), v.tabs.len() as int);
    lemma_same_path_refl(path);
    let w = opened(v, path, preview);
    match first_tab(v.tabs, has_path(path)) {
        Some(i) => {
            assert(has_path(path)(v.tabs[i]));
        },
        None => {
            let k = new_file_kind(path);
            assert(kind_path(k) == Some(path));
            match (if preview {
                first_tab(v.tabs, is_preview_tab())
            } else {
                None
            }) {
                Some(j) => {
                    assert(w.tabs[j] == made_tab(v, title_for(path), k, preview));
                },
                None => {
                    assert(w.tabs[v.tabs.len() as int] == made_tab(v, title_for(path), k, preview));
                },
            }
        },
    }
}

/// Stepping back and then forward returns to the file left: it is selected
/// again, what was backed out of is as before, and what was left behind is
/// as before but for its latest entry, which is the file stepped back to.
pub proof fn lemma_back_then_forward(v: TabsView, here: Seq<char>)
    requires
        tabs_wf(v),
        v.next_id + 2 <= usize::MAX,
        selected_path(v) == Some(here),
        v.back.len() > 0,
    ensures
        ({
            let (v1, to) = popped(v, true);
            let v2 = arrived(v1, to.unwrap(), true);
            let (v3, again) = popped(v2, false);
            let v4 = arrived(v3, again.unwrap(), false);
            &&& to == Some(v.back.last())
            &&& again == Some(here)
            &&& v4.forward == v.forward
            &&& v4.back.len() == v.back.len()
            &&& v4.back.drop_last() == v.back.drop_last()
            &&& same_path(v4.back.last(), v.back.last())
            &&& selected_path(v4) matches Some(q) && same_path(q, here)
        }),
{
    let (v1, to) = popped(v, true);
    let b = v.back.last();
    let w1 = TabsView {
        tabs: v1.tabs,
        selected: v1.selected,
        back: v1.back,
        forward: v1.forward.push(here),
        next_id: v1.next_id,
    };
    lemma_open_selects(w1, b, false);
    let v2 = arrived(v1, b, true);
    assert(v2 == opened(w1, b, false));
    let (v3, again) = popped(v2, false);
    assert(v2.forward == v.forward.push(here));
    assert(again == Some(here));
    assert(v3.forward =~= v.forward);
    let q = selected_path(v2).unwrap();
    assert(selected_path(v3) == Some(q));
    let w3 = TabsView {
        tabs: v3.tabs,
        selected: v3.selected,
        back: v3.back.push(q),
        forward: v3.forward,
        next_id: v3.next_id,
    };
    assert(v2.next_id <= v.next_id + 1) by {
        lemma_open_bumps_id(w1, b, false);
    }
    lemma_open_selects(w3, here, false);
    assert(arrived(v3, here, false) == opened(w3, here, false));
    assert(w3.back.drop_last() =~= v.back.drop_last());
}

/// Opening a file other than the one shown records the one left as the
/// latest behind and empties what lies ahead: the new file is shown,
/// stepping back returns to the file left, and stepping forward does
/// nothing.
pub proof fn lemma_open_file_history(v: TabsView, path: Seq<char>, preview: bool, cur: Seq<char>)
    requires
        tabs_wf(v),
        v.next_id < usize::MAX,
        selected_path(v) == Some(cur),
        !same_path(cur, path),
    ensures
        selected_path(opened_file(v, path, preview)) matches Some(q) && same_path(q, path),
        opened_file(v, path, preview).back == v.back.push(cur),
        opened_file(v, path, preview).forward.len() == 0,
        popped(opened_file(v, path, preview), false) == (
            opened_file(v, path, preview),
            None::<Seq<char>>,
        ),
        popped(opened_file(v, path, preview), true).1 == Some(cur),
{
    let w = recorded(v, path);
    assert(tabs_wf(w));
    lemma_open_selects(w, path, preview);
}

proof fn lemma_open_bumps_id(v: TabsView, path: Seq<char>, preview: bool)
    ensures
        opened(v, path, preview).next_id <= v.next_id + 1,
{
}

proof fn lemma_terminals_remove(tabs: Seq<TabView>, i: int)
    requires
        0 <= i < tabs.len(),
    ensures
        terminal_count(tabs.remove(i)) + (if tabs[i].kind is Terminal {
            1nat
        } else {
            0nat
        }) == terminal_count(tabs),
    decreases tabs.len(),
{
    let r = tabs.remove(i);
    if i == tabs.len() - 1 {
        assert(r =~= tabs.drop_last());
        lemma_terminals_prefix(tabs, tabs.len() - 1);
    } else {
        lemma_terminals_remove(tabs.drop_last(), i);
        assert(r.drop_last() =~= tabs.drop_last().remove(i));
        lemma_terminals_prefix(r, r.len() - 1);
        lemma_terminals_prefix(tabs, tabs.len() - 1);
        assert(r.last() == tabs.last());
    }
}

proof fn lemma_terminals_prefix(tabs: Seq<TabView>, n: int)
    requires
        0 <= n <= tabs.len(),
    ensures
        terminals_in(tabs, n) == terminal_count(tabs.subrange(0, n)),
    decreases n,
{
    let p = tabs.subrange(0, n);
    if n > 0 {
        lemma_terminals_prefix(tabs, n - 1);
        assert(p.subrange(0, n - 1) =~= tabs.subrange(0, n - 1));
        lemma_terminals_same(p, tabs, n - 1);
    }
}

proof fn lemma_terminals_same(a: Seq<TabView>, b: Seq<TabView>, n: int)
    requires
        0 <= n <= a.len(),
        n <= b.len(),
        forall|k: int| 0 <= k < n ==> a[k] == b[k],
    ensures
        terminals_in(a, n) == terminals_in(b, n),
    decreases n,
{
    if n > 0 {
        lemma_terminals_same(a, b, n - 1);
    }
}

/// The last terminal stays open: closing any tab leaves at least one
/// terminal when there was one.
pub proof fn lemma_last_terminal_stays(v: TabsView, index: int)
    requires
        terminal_count(v.tabs) >= 1,
    ensures
        terminal_count(closed(v, index).tabs) >= 1,
{
    if !(index < 0 || index >= v.tabs.len() || (v.tabs[index].kind is Terminal && terminal_count(
        v.tabs,
    ) <= 1)) {
        lemma_terminals_remove(v.tabs, index);
    }
}

/// A single-click open of a file that has no tab takes the place of the
/// preview tab, when there is one: the number of tabs stays.
pub proof fn lemma_preview_open_keeps_count(v: TabsView, path: Seq<char>)
    requires
        first_tab(v.tabs, has_path(path)) is None,
        first_tab(v.tabs, is_preview_tab()) is Some,
    ensures
        opened(v, path, true).tabs.len() == v.tabs.len(),
        opened(v, path, true).tabs[first_tab(v.tabs, is_preview_tab()).unwrap()].preview,
{
    lemma_first_found(v.tabs, is_preview_tab(), v.tabs.len() as int);
}

/// Opening a file a second time in a kept tab changes no tab: a file has
/// one tab.
pub proof fn lemma_open_twice(v: TabsView, path: Seq<char>)
    requires
        tabs_wf(v),
    ensures
        opened(opened(v, path, false), path, false).tabs == opened(v, path, false).tabs,
        opened(opened(v, path, false), path, false).selected == opened(v, path, false).selected,
{
    let w = opened(v, path, false);
    lemma_first_found(v.tabs, has_path(path), v.tabs.len() as int);
    lemma_same_path_refl(path);
    match first_tab(v.tabs, has_path(path)) {
        Some(i) => {
            lemma_first_same(v.tabs, w.tabs, has_path(path), i);
            assert(w.tabs.update(i, TabView { id: w.tabs[i].id, title: w.tabs[i].title, kind: w.tabs[i].kind, preview: false }) =~= w.tabs);
        },
        None => {
            let n = v.tabs.len() as int;
            assert(w.tabs[n].kind == new_file_kind(path));
            assert(has_path(path)(w.tabs[n]));
            lemma_first_none_prefix(v.tabs, w.tabs, has_path(path), n);
            assert(first_matching(w.tabs, has_path(path), n + 1) == Some(n));
            assert(w.tabs.update(n, TabView { id: w.tabs[n].id, title: w.tabs[n].title, kind: w.tabs[n].kind, preview: false }) =~= w.tabs);
        },
    }
}

proof fn lemma_first_none_prefix(a: Seq<TabView>, b: Seq<TabView>, f: spec_fn(TabView) -> bool, n: int)
    requires
        0 <= n <= a.len(),
        n <= b.len(),
        forall|k: int| 0 <= k < n ==> a[k] == b[k],
    ensures
        first_matching(b, f, n) == first_matching(a, f, n),
    decreases n,
{
    if n > 0 {
        lemma_first_none_prefix(a, b, f, n - 1);
    }
}

/// A change to tab `i` that keeps whether `f` holds of it keeps what
/// `first_matching` finds, when it found `i`.
proof fn lemma_first_same(a: Seq<TabView>, b: Seq<TabView>, f: spec_fn(TabView) -> bool, i: int)
    requires
        first_tab(a, f) == Some(i),
        a.len() == b.len(),
        0 <= i < a.len(),
        f(b[i]),
        forall|k: int| 0 <= k < a.len() && k != i ==> a[k] == b[k],
    ensures
        first_tab(b, f) == Some(i),
{
    lemma_first_upto(a, f, i, a.len() as int);
    lemma_first_none_prefix(a, b, f, i);
    assert(first_matching(b, f, i + 1) == Some(i));
    lemma_first_stable(b, f, i + 1, b.len() as int);
}

/// When the first match among `n` is `i`, none is found among the first `i`.
proof fn lemma_first_upto(a: Seq<TabView>, f: spec_fn(TabView) -> bool, i: int, n: int)
    requires
        first_matching(a, f, n) == Some(i),
    ensures
        first_matching(a, f, i) is None,
    decreases n,
{
    if n > 0 {
        match first_matching(a, f, n - 1) {
            Some(j) => {
                lemma_first_upto(a, f, i, n - 1);
            },
            None => {
                assert(i == n - 1);
            },
        }
    }
}

/// Where a file open puts its tab (see `opened`).
pub open spec fn open_placement(v: TabsView, path: Seq<char>, preview: bool) -> Placement {
    match first_tab(v.tabs, has_path(path)) {
        Some(i) => Placement::Selected(i as usize),
        None => match (if preview {
            first_tab(v.tabs, is_preview_tab())
        } else {
            None
        }) {
            Some(j) => Placement::Replaced(j as usize),
            None => Placement::Added(v.tabs.len() as usize),
        },
    }
}

/// The last tab after a restored file's mode is applied to it: a text file
/// shows its preview only when it was saved so and still has one.
pub open spec fn restored_last(v: TabsView, saved_preview: bool) -> TabsView {
    if v.tabs.len() == 0 {
        v
    } else {
        let k = v.tabs.len() - 1;
        let t = v.tabs[k];
        match t.kind {
            KindView::File { path, mode, has_preview } => TabsView {
                tabs: v.tabs.update(
                    k,
                    TabView {
                        id: t.id,
                        title: t.title,
                        kind: KindView::File {
                            path,
                            mode: if saved_preview && (has_preview || (lower_extension(path) matches Some(e)
                                && html_extension(e))) {
                                FileMode::Preview
                            } else {
                                FileMode::Source
                            },
                            has_preview,
                        },
                        preview: t.preview,
                    },
                ),
                selected: v.selected,
                back: v.back,
                forward: v.forward,
                next_id: v.next_id,
            },
            _ => v,
        }
    }
}

/// The selected tab switched to its source, when it is a text file.
pub open spec fn sourced(v: TabsView) -> TabsView {
    if 0 <= v.selected < v.tabs.len() {
        let t = v.tabs[v.selected];
        match t.kind {
            KindView::File { path, mode, has_preview } => put_at(
                v,
                v.selected,
                TabView {
                    id: t.id,
                    title: t.title,
                    kind: KindView::File { path, mode: FileMode::Source, has_preview },
                    preview: t.preview,
                },
            ),
            _ => v,
        }
    } else {
        v
    }
}

/// What a session keeps of the tabs: each text file with whether it shows
/// its preview, each image and video; terminals and diffs are not kept.
pub open spec fn kept_files(tabs: Seq<TabView>) -> Seq<(Seq<char>, bool)>
    decreases tabs.len(),
{
    if tabs.len() == 0 {
        Seq::empty()
    } else {
        let rest = kept_files(tabs.drop_last());
        match tabs.last().kind {
            KindView::File { path, mode, .. } => rest.push((path, mode == FileMode::Preview)),
            KindView::Image { path } => rest.push((path, false)),
            KindView::Video { path } => rest.push((path, false)),
            _ => rest,
        }
    }
}

pub open spec fn file_states_view(v: Seq<FileTabState>) -> Seq<(Seq<char>, bool)> {
    v.map_values(|f: FileTabState| (f.path@, f.preview))
}

/// Where an open put its tab.
#[derive(Clone, Copy, PartialEq, Eq, Debug)]
pub enum Placement {
    /// An open tab was selected as it is.
    Selected(usize),
    /// An open tab was selected, and what it shows is to be made again.
    Refreshed(usize),
    /// A new tab took the place of the preview tab.
    Replaced(usize),
    /// A new tab was added at the end.
    Added(usize),
}

impl Placement {
    pub open spec fn index(self) -> usize {
        match self {
            Placement::Selected(i) => i,
            Placement::Refreshed(i) => i,
            Placement::Replaced(i) => i,
            Placement::Added(i) => i,
        }
    }
}

/// The tabs of one workspace.
pub struct Tabs {
    tabs: Vec<Tab>,
    selected: usize,
    back: Vec<String>,
    forward: Vec<String>,
    next_id: usize,
}

pub open spec fn strings_view(v: Seq<String>) -> Seq<Seq<char>> {
    v.map_values(|s: String| s@)
}

pub open spec fn tabs_view(v: Seq<Tab>) -> Seq<TabView> {
    v.map_values(|t: Tab| t@)
}

impl View for Tabs {
    type V = TabsView;

    closed spec fn view(&self) -> TabsView {
        TabsView {
            tabs: tabs_view(self.tabs@),
            selected: self.selected as int,
            back: strings_view(self.back@),
            forward: strings_view(self.forward@),
            next_id: self.next_id as int,
        }
    }
}

/// What a search over the tabs looks for.
enum Probe<'a> {
    Path(&'a str),
    Preview,
    ImageDiff(&'a str),
    TextDiff(&'a str, bool),
    Terminal,
}

spec fn probe_fn(p: Probe) -> spec_fn(TabView) -> bool {
    match p {
        Probe::Path(s) => has_path(s@),
        Probe::Preview => is_preview_tab(),
        Probe::ImageDiff(s) => is_image_diff_of(s@),
        Probe::TextDiff(s, staged) => is_diff_of(s@, staged),
        Probe::Terminal => is_terminal_tab(),
    }
}

fn probe_holds(t: &Tab, p: &Probe) -> (r: bool)
    ensures
        r == probe_fn(*p)(t@),
{
    match p {
        Probe::Path(s) => match &t.kind {
            TabKind::File { path, .. } => paths_equal(path.as_str(), s),
            TabKind::Image { path } => paths_equal(path.as_str(), s),
            TabKind::Video { path } => paths_equal(path.as_str(), s),
            _ => false,
        },
        Probe::Preview => t.preview,
        Probe::ImageDiff(s) => match &t.kind {
            TabKind::ImageDiff { path, .. } => same_text(path.as_str(), s),
            _ => false,
        },
        Probe::TextDiff(s, staged) => match &t.kind {
            TabKind::Diff { path, staged: st } => *st == *staged && same_text(path.as_str(), s),
            _ => false,
        },
        Probe::Terminal => match &t.kind {
            TabKind::Terminal => true,
            _ => false,
        },
    }
}

proof fn lemma_first_stable(tabs: Seq<TabView>, f: spec_fn(TabView) -> bool, m: int, n: int)
    requires
        0 <= m <= n,
        first_matching(tabs, f, m) is Some,
    ensures
        first_matching(tabs, f, n) == first_matching(tabs, f, m),
    decreases n - m,
{
    if n > m {
        lemma_first_stable(tabs, f, m, n - 1);
    }
}

/// What `first_matching` finds holds `f` and is in range.
pub proof fn lemma_first_found(tabs: Seq<TabView>, f: spec_fn(TabView) -> bool, n: int)
    ensures
        first_matching(tabs, f, n) matches Some(i) ==> 0 <= i < n && f(tabs[i]),
    decreases n,
{
    if n > 0 {
        lemma_first_found(tabs, f, n - 1);
    }
}

fn title_of(path: &str) -> (r: String)
    ensures
        r@ == title_for(path@),
{
    match path_file_name(path) {
        Some(n) => n,
        None => path.to_string(),
    }
}

fn diff_title_of(path: &str) -> (r: String)
    ensures
        r@ == diff_title(path@),
{
    let mut c = chars_of(title_of(path).as_str());
    append_chars(&mut c, &chars_of(" (diff)"));
    string_of(&c)
}

fn file_kind(path: &str) -> (k: TabKind)
    ensures
        kind_view(k) == new_file_kind(path@),
{
    if is_image_path(path) {
        TabKind::Image { path: path.to_string() }
    } else if is_video_path(path) {
        TabKind::Video { path: path.to_string() }
    } else {
        let mode = initial_mode(path);
        let has_preview = match mode {
            FileMode::Preview => true,
            FileMode::Source => false,
        };
        TabKind::File { path: path.to_string(), mode, has_preview }
    }
}

impl Tabs {
    /// The tabs are well formed: `tabs_wf` of the view.
    pub open spec fn wf(&self) -> bool {
        tabs_wf(self@)
    }

    /// No tabs, no history.
    pub fn new() -> (r: Tabs)
        ensures
            r.wf(),
            r@.tabs.len() == 0,
            r@.back.len() == 0,
            r@.forward.len() == 0,
            r@.next_id == 0,
    {
        let r = Tabs { tabs: Vec::new(), selected: 0, back: Vec::new(), forward: Vec::new(), next_id: 0 };
        assert(tabs_view(r.tabs@) =~= Seq::empty());
        assert(strings_view(r.back@) =~= Seq::empty());
        assert(strings_view(r.forward@) =~= Seq::empty());
        r
    }

    /// The tabs, in order.
    pub fn tabs(&self) -> (r: &Vec<Tab>)
        ensures
            tabs_view(r@) == self@.tabs,
    {
        &self.tabs
    }

    /// The index of the selected tab.
    pub fn selected(&self) -> (r: usize)
        ensures
            r == self@.selected,
    {
        self.selected
    }

    /// The id of the latest tab made.
    pub fn next_id(&self) -> (r: usize)
        ensures
            r == self@.next_id,
    {
        self.next_id
    }

    fn find(&self, p: &Probe) -> (r: Option<usize>)
        ensures
            match r {
                Some(i) => first_tab(self@.tabs, probe_fn(*p)) == Some(i as int),
                None => first_tab(self@.tabs, probe_fn(*p)) is None,
            },
    {
        let ghost tv = self@.tabs;
        let ghost f = probe_fn(*p);
        let mut i: usize = 0;
        while i < self.tabs.len()
            invariant
                i <= self.tabs@.len(),
                tv == self@.tabs,
                tv == tabs_view(self.tabs@),
                f == probe_fn(*p),
                first_matching(tv, f, i as int) is None,
            decreases self.tabs@.len() - i,
        {
            if probe_holds(&self.tabs[i], p) {
                assert(tv[i as int] == self.tabs@[i as int]@);
                assert(first_matching(tv, f, i + 1) == Some(i as int));
                proof {
                    lemma_first_stable(tv, f, i + 1, tv.len() as int);
                }
                return Some(i);
            }
            assert(tv[i as int] == self.tabs@[i as int]@);
            i += 1;
        }
        None
    }

    /// The file of the selected tab.
    pub fn selected_path(&self) -> (r: Option<String>)
        requires
            self.wf(),
        ensures
            opt_view(r) == selected_path(self@),
    {
        if self.selected >= self.tabs.len() {
            return None;
        }
        let t = &self.tabs[self.selected];
        assert(self@.tabs[self.selected as int] == t@);
        match &t.kind {
            TabKind::File { path, .. } => Some(path.clone()),
            TabKind::Image { path } => Some(path.clone()),
            TabKind::Video { path } => Some(path.clone()),
            _ => None,
        }
    }


    fn make_tab(&mut self, title: String, kind: TabKind, preview: bool) -> (t: Tab)
        requires
            old(self)@.next_id < usize::MAX,
        ensures
            final(self)@.tabs == old(self)@.tabs,
            final(self)@.selected == old(self)@.selected,
            final(self)@.back == old(self)@.back,
            final(self)@.forward == old(self)@.forward,
            final(self)@.next_id == old(self)@.next_id + 1,
            t@ == made_tab(old(self)@, title@, kind_view(kind), preview),
    {
        self.next_id = self.next_id + 1;
        Tab { id: self.next_id, title, kind, preview }
    }

    fn push_tab(&mut self, t: Tab) -> (r: usize)
        ensures
            final(self)@.tabs == old(self)@.tabs.push(t@),
            final(self)@.selected == old(self)@.tabs.len(),
            final(self)@.back == old(self)@.back,
            final(self)@.forward == old(self)@.forward,
            final(self)@.next_id == old(self)@.next_id,
            r == old(self)@.tabs.len(),
    {
        let ghost t_view = t@;
        self.tabs.push(t);
        assert(tabs_view(self.tabs@) =~= tabs_view(old(self).tabs@).push(t_view));
        self.selected = self.tabs.len() - 1;
        self.selected
    }

    fn put_tab(&mut self, i: usize, t: Tab)
        requires
            i < old(self)@.tabs.len(),
        ensures
            final(self)@ == put_at(old(self)@, i as int, t@),
    {
        let ghost t_view = t@;
        self.tabs.set(i, t);
        assert(tabs_view(self.tabs@) =~= tabs_view(old(self).tabs@).update(i as int, t_view));
        self.selected = i;
    }

    fn take_tab(&mut self, i: usize) -> (t: Tab)
        requires
            i < old(self)@.tabs.len(),
        ensures
            final(self)@.tabs == old(self)@.tabs.remove(i as int),
            final(self)@.selected == old(self)@.selected,
            final(self)@.back == old(self)@.back,
            final(self)@.forward == old(self)@.forward,
            final(self)@.next_id == old(self)@.next_id,
            t@ == old(self)@.tabs[i as int],
    {
        let t = self.tabs.remove(i);
        assert(tabs_view(self.tabs@) =~= tabs_view(old(self).tabs@).remove(i as int));
        t
    }

    fn give_tab(&mut self, i: usize, t: Tab)
        requires
            i <= old(self)@.tabs.len(),
        ensures
            final(self)@.tabs == old(self)@.tabs.insert(i as int, t@),
            final(self)@.back == old(self)@.back,
            final(self)@.forward == old(self)@.forward,
            final(self)@.next_id == old(self)@.next_id,
            final(self)@.selected == i,
    {
        let ghost t_view = t@;
        self.tabs.insert(i, t);
        assert(tabs_view(self.tabs@) =~= tabs_view(old(self).tabs@).insert(i as int, t_view));
        self.selected = i;
    }

    /// Opens a file without touching the history.
    fn open_unrecorded(&mut self, path: &str, preview: bool) -> (r: Placement)
        requires
            old(self).wf(),
            old(self)@.next_id < usize::MAX,
        ensures
            final(self).wf(),
            final(self)@ == opened(old(self)@, path@, preview),
            r == open_placement(old(self)@, path@, preview),
            r.index() == final(self)@.selected,
    {
        let ghost v = self@;
        proof {
            lemma_first_found(v.tabs, has_path(path@), v.tabs.len() as int);
        }
        match self.find(&Probe::Path(path)) {
            Some(i) => {
                if !preview {
                    let t = self.take_tab(i);
                    assert(t@ == v.tabs[i as int]);
                    let kept = Tab { id: t.id, title: t.title, kind: t.kind, preview: false };
                    self.give_tab(i, kept);
                    assert(self@.tabs =~= v.tabs.update(
                        i as int,
                        TabView {
                            id: v.tabs[i as int].id,
                            title: v.tabs[i as int].title,
                            kind: v.tabs[i as int].kind,
                            preview: false,
                        },
                    ));
                } else {
                    self.selected = i;
                }
                Placement::Selected(i)
            },
            None => {
                let title = title_of(path);
                let kind = file_kind(path);
                let tab = self.make_tab(title, kind, preview);
                if preview {
                    match self.find(&Probe::Preview) {
                        Some(j) => {
                            proof {
                                lemma_first_found(v.tabs, is_preview_tab(), v.tabs.len() as int);
                            }
                            let ghost t_view = tab@;
                            self.tabs.set(j, tab);
                            assert(tabs_view(self.tabs@) =~= v.tabs.update(j as int, t_view));
                            self.selected = j;
                            return Placement::Replaced(j);
                        },
                        None => {},
                    }
                }
                let k = self.push_tab(tab);
                Placement::Added(k)
            },
        }
    }

    /// Opens a file the plain way: leaving another file records it as left
    /// behind and forgets what was backed out of. `preview` replaces the
    /// current preview tab, the single-click rule.
    pub fn open_file(&mut self, path: &str, preview: bool) -> (r: Placement)
        requires
            old(self).wf(),
            old(self)@.next_id < usize::MAX,
        ensures
            final(self).wf(),
            final(self)@ == opened_file(old(self)@, path@, preview),
            r == open_placement(recorded(old(self)@, path@), path@, preview),
            r.index() == final(self)@.selected,
    {
        match self.selected_path() {
            Some(cur) => {
                if !paths_equal(cur.as_str(), path) {
                    let ghost c = cur@;
                    self.back.push(cur);
                    assert(strings_view(self.back@) =~= old(self)@.back.push(c));
                    self.forward = Vec::new();
                    assert(strings_view(self.forward@) =~= Seq::<Seq<char>>::empty());
                }
            },
            None => {},
        }
        assert(self@ == recorded(old(self)@, path@));
        self.open_unrecorded(path, preview)
    }

    /// Takes the next file of a history step off its side: the latest left
    /// behind when `back`, else the latest backed out of. The caller skips a
    /// file that no longer exists by asking again, and arrives at the first
    /// that does.
    pub fn pop_history(&mut self, back: bool) -> (r: Option<String>)
        ensures
            (final(self)@, opt_view(r)) == popped(old(self)@, back),
            old(self).wf() ==> final(self).wf(),
    {
        let r = if back {
            self.back.pop()
        } else {
            self.forward.pop()
        };
        assert(strings_view(self.back@) =~= if back && old(self).back@.len() > 0 {
            old(self)@.back.drop_last()
        } else {
            old(self)@.back
        });
        assert(strings_view(self.forward@) =~= if !back && old(self).forward@.len() > 0 {
            old(self)@.forward.drop_last()
        } else {
            old(self)@.forward
        });
        r
    }

    /// Arrives at `path` by a history step: the file being left goes on the
    /// other side of the history, and `path` opens as a kept tab.
    pub fn arrive(&mut self, path: &str, back: bool) -> (r: Placement)
        requires
            old(self).wf(),
            old(self)@.next_id < usize::MAX,
        ensures
            final(self).wf(),
            final(self)@ == arrived(old(self)@, path@, back),
            r.index() == final(self)@.selected,
    {
        match self.selected_path() {
            Some(cur) => {
                let ghost c = cur@;
                if back {
                    self.forward.push(cur);
                    assert(strings_view(self.forward@) =~= old(self)@.forward.push(c));
                } else {
                    self.back.push(cur);
                    assert(strings_view(self.back@) =~= old(self)@.back.push(c));
                }
            },
            None => {},
        }
        self.open_unrecorded(path, false)
    }

    /// A new terminal tab, added at the end and selected; its id.
    pub fn open_terminal(&mut self) -> (r: usize)
        requires
            old(self).wf(),
            old(self)@.next_id < usize::MAX,
        ensures
            final(self).wf(),
            final(self)@ == terminal_opened(old(self)@),
            r == final(self)@.next_id,
    {
        let t = self.make_tab("zsh".to_string(), TabKind::Terminal, false);
        self.push_tab(t);
        self.next_id
    }

    /// A video change opens the working-tree player at `working` (the
    /// caller has seen that file exist): its open tab, else a new one titled
    /// after the change's `path`.
    pub fn open_video_change(&mut self, path: &str, working: &str) -> (r: Placement)
        requires
            old(self).wf(),
            old(self)@.next_id < usize::MAX,
        ensures
            final(self).wf(),
            final(self)@ == video_opened(old(self)@, path@, working@),
            r.index() == final(self)@.selected,
            r is Selected <==> first_tab(old(self)@.tabs, has_path(working@)) is Some,
    {
        proof {
            lemma_first_found(self@.tabs, has_path(working@), self@.tabs.len() as int);
        }
        match self.find(&Probe::Path(working)) {
            Some(i) => {
                self.selected = i;
                Placement::Selected(i)
            },
            None => {
                let t = self.make_tab(title_of(path), TabKind::Video { path: working.to_string() }, false);
                let k = self.push_tab(t);
                Placement::Added(k)
            },
        }
    }

    /// An image change opens its side-by-side diff: the HEAD copy `head`
    /// against the working file `working`. An open diff tab of the change
    /// is refreshed; otherwise a new one is added.
    pub fn open_image_diff(
        &mut self,
        path: &str,
        head: Option<String>,
        working: Option<String>,
    ) -> (r: Placement)
        requires
            old(self).wf(),
            old(self)@.next_id < usize::MAX,
        ensures
            final(self).wf(),
            final(self)@ == image_diff_opened(old(self)@, path@, opt_view(head), opt_view(working)),
            r.index() == final(self)@.selected,
            r is Refreshed <==> first_tab(old(self)@.tabs, is_image_diff_of(path@)) is Some,
            r is Added <==> first_tab(old(self)@.tabs, is_image_diff_of(path@)) is None,
    {
        let ghost v = self@;
        proof {
            lemma_first_found(v.tabs, is_image_diff_of(path@), v.tabs.len() as int);
        }
        let kind = TabKind::ImageDiff { path: path.to_string(), head, working };
        match self.find(&Probe::ImageDiff(path)) {
            Some(i) => {
                let t = self.take_tab(i);
                let fresh = Tab { id: t.id, title: t.title, kind, preview: t.preview };
                self.give_tab(i, fresh);
                assert(self@.tabs =~= v.tabs.update(
                    i as int,
                    TabView {
                        id: v.tabs[i as int].id,
                        title: v.tabs[i as int].title,
                        kind: kind_view(kind),
                        preview: v.tabs[i as int].preview,
                    },
                ));
                Placement::Refreshed(i)
            },
            None => {
                let t = self.make_tab(diff_title_of(path), kind, false);
                let k = self.push_tab(t);
                Placement::Added(k)
            },
        }
    }

    /// A text change opens its diff tab, one per path and side: an open one
    /// is selected and its diff made again; otherwise a new one is added.
    pub fn open_text_diff(&mut self, path: &str, staged: bool) -> (r: Placement)
        requires
            old(self).wf(),
            old(self)@.next_id < usize::MAX,
        ensures
            final(self).wf(),
            final(self)@ == diff_opened(old(self)@, path@, staged),
            r.index() == final(self)@.selected,
            r is Refreshed <==> first_tab(old(self)@.tabs, is_diff_of(path@, staged)) is Some,
            r is Added <==> first_tab(old(self)@.tabs, is_diff_of(path@, staged)) is None,
    {
        proof {
            lemma_first_found(self@.tabs, is_diff_of(path@, staged), self@.tabs.len() as int);
        }
        match self.find(&Probe::TextDiff(path, staged)) {
            Some(i) => {
                self.selected = i;
                Placement::Refreshed(i)
            },
            None => {
                let t = self.make_tab(
                    diff_title_of(path),
                    TabKind::Diff { path: path.to_string(), staged },
                    false,
                );
                let k = self.push_tab(t);
                Placement::Added(k)
            },
        }
    }

    /// How many tabs are terminals.
    pub fn terminal_count(&self) -> (r: usize)
        ensures
            r == terminal_count(self@.tabs),
    {
        let ghost tv = self@.tabs;
        let mut n: usize = 0;
        let mut i: usize = 0;
        while i < self.tabs.len()
            invariant
                i <= self.tabs@.len(),
                tv == tabs_view(self.tabs@),
                tv == self@.tabs,
                n == terminals_in(tv, i as int),
                n <= i,
            decreases self.tabs@.len() - i,
        {
            assert(tv[i as int] == self.tabs@[i as int]@);
            match &self.tabs[i].kind {
                TabKind::Terminal => {
                    n = n + 1;
                },
                _ => {},
            }
            i += 1;
        }
        n
    }

    /// Closes tab `index`; false when nothing closed. The last terminal
    /// stays open, and the selection stays on its tab.
    pub fn close_tab(&mut self, index: usize) -> (r: bool)
        requires
            old(self).wf(),
        ensures
            final(self).wf(),
            final(self)@ == closed(old(self)@, index as int),
            r == (final(self)@ != old(self)@),
    {
        if index >= self.tabs.len() {
            return false;
        }
        let ghost v = self@;
        assert(v.tabs[index as int] == self.tabs@[index as int]@);
        let terminal = match &self.tabs[index].kind {
            TabKind::Terminal => true,
            _ => false,
        };
        if terminal && self.terminal_count() <= 1 {
            return false;
        }
        self.take_tab(index);
        if index < self.selected {
            self.selected = self.selected - 1;
        } else if self.selected >= self.tabs.len() {
            self.selected = if self.tabs.len() == 0 {
                0
            } else {
                self.tabs.len() - 1
            };
        }
        assert(self@.tabs.len() != v.tabs.len());
        true
    }

    /// Switches the selected text file between source and preview, when it
    /// has a preview (or is an HTML page).
    pub fn toggle_mode(&mut self)
        requires
            old(self).wf(),
        ensures
            final(self).wf(),
            final(self)@ == mode_toggled(old(self)@),
    {
        if self.selected >= self.tabs.len() {
            return;
        }
        let ghost v = self@;
        let i = self.selected;
        assert(v.tabs[i as int] == self.tabs@[i as int]@);
        let flips = match &self.tabs[i].kind {
            TabKind::File { path, has_preview, .. } => *has_preview || is_html_path(path.as_str()),
            _ => false,
        };
        if !flips {
            return;
        }
        let t = self.take_tab(i);
        let Tab { id, title, kind, preview } = t;
        let kind = match kind {
            TabKind::File { path, mode, has_preview } => TabKind::File {
                path,
                mode: match mode {
                    FileMode::Source => FileMode::Preview,
                    FileMode::Preview => FileMode::Source,
                },
                has_preview,
            },
            other => other,
        };
        self.give_tab(i, Tab { id, title, kind, preview });
        assert(self@.tabs =~= mode_toggled(v).tabs);
    }

    /// Shows the selected tab's source, when it is a text file.
    pub fn show_source(&mut self)
        requires
            old(self).wf(),
        ensures
            final(self).wf(),
            final(self)@ == sourced(old(self)@),
    {
        if self.selected >= self.tabs.len() {
            return;
        }
        let ghost v = self@;
        let i = self.selected;
        assert(v.tabs[i as int] == self.tabs@[i as int]@);
        let is_file = match &self.tabs[i].kind {
            TabKind::File { .. } => true,
            _ => false,
        };
        if !is_file {
            return;
        }
        let t = self.take_tab(i);
        let Tab { id, title, kind, preview } = t;
        let kind = match kind {
            TabKind::File { path, has_preview, .. } => TabKind::File {
                path,
                mode: FileMode::Source,
                has_preview,
            },
            other => other,
        };
        self.give_tab(i, Tab { id, title, kind, preview });
        assert(self@.tabs =~= sourced(v).tabs);
    }

    /// Applies a restored file's saved mode to the last tab, when that is
    /// a text file: its preview only when saved so and it still has one.
    pub fn restore_last_mode(&mut self, saved_preview: bool)
        requires
            old(self).wf(),
        ensures
            final(self).wf(),
            final(self)@ == restored_last(old(self)@, saved_preview),
    {
        if self.tabs.len() == 0 {
            return;
        }
        let ghost v = self@;
        let i = self.tabs.len() - 1;
        let sel = self.selected;
        assert(v.tabs[i as int] == self.tabs@[i as int]@);
        let is_file = match &self.tabs[i].kind {
            TabKind::File { .. } => true,
            _ => false,
        };
        if !is_file {
            return;
        }
        let t = self.take_tab(i);
        let Tab { id, title, kind, preview } = t;
        let kind = match kind {
            TabKind::File { path, has_preview, .. } => {
                let mode = crate::session::restored_mode(saved_preview, has_preview, path.as_str());
                TabKind::File { path, mode, has_preview }
            },
            other => other,
        };
        self.give_tab(i, Tab { id, title, kind, preview });
        self.selected = sel;
        assert(self@.tabs =~= restored_last(v, saved_preview).tabs);
    }

    /// Selects tab `index`.
    pub fn select(&mut self, index: usize)
        requires
            old(self).wf(),
            index < old(self)@.tabs.len(),
        ensures
            final(self).wf(),
            final(self)@ == with_selected(old(self)@, index as int),
    {
        self.selected = index;
    }

    /// What a session keeps of these tabs.
    pub fn session_files(&self) -> (r: Vec<FileTabState>)
        ensures
            file_states_view(r@) == kept_files(self@.tabs),
    {
        let ghost tv = self@.tabs;
        let mut out: Vec<FileTabState> = Vec::new();
        let mut i: usize = 0;
        while i < self.tabs.len()
            invariant
                i <= self.tabs@.len(),
                tv == tabs_view(self.tabs@),
                tv == self@.tabs,
                file_states_view(out@) == kept_files(tv.subrange(0, i as int)),
            decreases self.tabs@.len() - i,
        {
            assert(tv.subrange(0, i + 1).drop_last() =~= tv.subrange(0, i as int));
            assert(tv[i as int] == self.tabs@[i as int]@);
            let ghost before = out@;
            match &self.tabs[i].kind {
                TabKind::File { path, mode, .. } => {
                    let preview = match mode {
                        FileMode::Preview => true,
                        FileMode::Source => false,
                    };
                    out.push(FileTabState { path: path.clone(), preview });
                },
                TabKind::Image { path } => {
                    out.push(FileTabState { path: path.clone(), preview: false });
                },
                TabKind::Video { path } => {
                    out.push(FileTabState { path: path.clone(), preview: false });
                },
                _ => {},
            }
            assert(file_states_view(out@) =~= kept_files(tv.subrange(0, i + 1)));
            i += 1;
        }
        assert(tv.subrange(0, tv.len() as int) =~= tv);
        out
    }

    /// The index of the first terminal.
    pub fn first_terminal(&self) -> (r: Option<usize>)
        ensures
            match r {
                Some(i) => first_tab(self@.tabs, is_terminal_tab()) == Some(i as int),
                None => first_tab(self@.tabs, is_terminal_tab()) is None,
            },
    {
        self.find(&Probe::Terminal)
    }
}


/// The icon of a tab in the strip.
#[derive(Clone, Debug, PartialEq, Eq)]
pub enum TabGlyph {
    Terminal,
    /// A text file, drawn by the icon of its file name.
    File(String),
    Image,
    Video,
    Change,
}

/// One tab as the strip draws it.
#[derive(Clone, Debug, PartialEq, Eq)]
pub struct StripEntry {
    pub title: String,
    pub preview: bool,
    pub glyph: TabGlyph,
    /// A terminal can close only while another terminal is open.
    pub closable: bool,
}

pub open spec fn glyph_of(k: KindView) -> (int, Seq<char>) {
    match k {
        KindView::Terminal => (0, Seq::empty()),
        KindView::File { path, .. } => (
            1,
            match file_name(path) {
                Some(n) => n,
                None => Seq::empty(),
            },
        ),
        KindView::Image { .. } => (2, Seq::empty()),
        KindView::Video { .. } => (3, Seq::empty()),
        _ => (4, Seq::empty()),
    }
}

pub open spec fn glyph_view(g: TabGlyph) -> (int, Seq<char>) {
    match g {
        TabGlyph::Terminal => (0, Seq::empty()),
        TabGlyph::File(n) => (1, n@),
        TabGlyph::Image => (2, Seq::empty()),
        TabGlyph::Video => (3, Seq::empty()),
        TabGlyph::Change => (4, Seq::empty()),
    }
}

/// Whether the selected tab is a text file with a preview (or an HTML
/// page), and whether it shows that preview.
pub open spec fn preview_state(v: TabsView) -> (bool, bool) {
    if 0 <= v.selected < v.tabs.len() {
        match v.tabs[v.selected].kind {
            KindView::File { path, mode, has_preview } => (
                has_preview || (lower_extension(path) matches Some(e) && html_extension(e)),
                mode == FileMode::Preview,
            ),
            _ => (false, false),
        }
    } else {
        (false, false)
    }
}

impl Tabs {
    /// The tabs as the strip draws them, in order.
    pub fn strip(&self) -> (r: Vec<StripEntry>)
        ensures
            r@.len() == self@.tabs.len(),
            forall|i: int|
                0 <= i < r@.len() ==> {
                    let t = #[trigger] self@.tabs[i];
                    &&& r@[i].title@ == t.title
                    &&& r@[i].preview == t.preview
                    &&& glyph_view(r@[i].glyph) == glyph_of(t.kind)
                    &&& r@[i].closable == (!(t.kind is Terminal) || terminal_count(self@.tabs) > 1)
                },
    {
        let terminals = self.terminal_count();
        let ghost tv = self@.tabs;
        let mut out: Vec<StripEntry> = Vec::new();
        let mut i: usize = 0;
        while i < self.tabs.len()
            invariant
                i <= self.tabs@.len(),
                tv == self@.tabs,
                tv == tabs_view(self.tabs@),
                terminals == terminal_count(tv),
                out@.len() == i,
                forall|j: int|
                    0 <= j < i ==> {
                        let t = #[trigger] tv[j];
                        &&& out@[j].title@ == t.title
                        &&& out@[j].preview == t.preview
                        &&& glyph_view(out@[j].glyph) == glyph_of(t.kind)
                        &&& out@[j].closable == (!(t.kind is Terminal) || terminal_count(tv) > 1)
                    },
            decreases self.tabs@.len() - i,
        {
            let t = &self.tabs[i];
            assert(tv[i as int] == t@);
            let (glyph, terminal) = match &t.kind {
                TabKind::Terminal => (TabGlyph::Terminal, true),
                TabKind::File { path, .. } => (
                    TabGlyph::File(
                        match path_file_name(path.as_str()) {
                            Some(n) => n,
                            None => String::new(),
                        },
                    ),
                    false,
                ),
                TabKind::Image { .. } => (TabGlyph::Image, false),
                TabKind::Video { .. } => (TabGlyph::Video, false),
                _ => (TabGlyph::Change, false),
            };
            out.push(
                StripEntry {
                    title: t.title.clone(),
                    preview: t.preview,
                    glyph,
                    closable: !terminal || terminals > 1,
                },
            );
            i += 1;
        }
        out
    }

    /// Whether the selected tab has a preview to switch to, and whether it
    /// shows it.
    pub fn preview_state(&self) -> (r: (bool, bool))
        requires
            self.wf(),
        ensures
            r == preview_state(self@),
    {
        if self.selected >= self.tabs.len() {
            return (false, false);
        }
        let t = &self.tabs[self.selected];
        assert(self@.tabs[self.selected as int] == t@);
        match &t.kind {
            TabKind::File { path, mode, has_preview } => (
                *has_preview || is_html_path(path.as_str()),
                match mode {
                    FileMode::Preview => true,
                    FileMode::Source => false,
                },
            ),
            _ => (false, false),
        }
    }
}

} // verus!
