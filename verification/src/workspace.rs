//! The decisions of one live workspace that do not need a window: which
//! preview a file gets, how background walks are serialised, and how the
//! Explorer's full inventory is requested and accepted.
use std::sync::Arc;
use std::sync::atomic::{AtomicBool, Ordering};

use vstd::prelude::*;

use crate::fs_tree::{hard_ignored, is_hard_ignored, is_tcc_protected, tcc_protected};
use crate::paths::{extension, path_extension};
use crate::text::{ascii_lower_seq, chars_eq, chars_of, lower_ascii};

verus! {

/// Whether a file tab shows its source or its rendered preview.
#[derive(Clone, Copy, PartialEq, Eq, Structural, Debug)]
pub enum FileMode {
    Source,
    Preview,
}

/// The extension of a path, ASCII-lowercased.
pub open spec fn lower_extension(path: Seq<char>) -> Option<Seq<char>> {
    match extension(path) {
        Some(e) => Some(ascii_lower_seq(e)),
        None => None,
    }
}

pub(crate) fn lowered_extension(path: &str) -> (r: Option<Vec<char>>)
    ensures
        match r {
            Some(e) => lower_extension(path@) == Some(e@),
            None => lower_extension(path@) is None,
        },
{
    match path_extension(path) {
        Some(e) => Some(lower_ascii(&e)),
        None => None,
    }
}

fn is_one_of(e: &Vec<char>, a: &str) -> (r: bool)
    ensures
        r == (e@ == a@),
{
    chars_eq(e, &chars_of(a))
}

/// Extensions the image preview accepts. SVG stays out: it is text, and the
/// editor is the more useful surface for it.
pub open spec fn image_extension(e: Seq<char>) -> bool {
    e == "png"@ || e == "jpg"@ || e == "jpeg"@ || e == "gif"@ || e == "webp"@ || e == "bmp"@ || e
        == "ico"@
}

/// Extensions the video preview accepts.
pub open spec fn video_extension(e: Seq<char>) -> bool {
    e == "mp4"@ || e == "mov"@ || e == "m4v"@ || e == "webm"@
}

pub open spec fn html_extension(e: Seq<char>) -> bool {
    e == "html"@ || e == "htm"@
}

/// Whether the image preview opens this path.
pub fn is_image_path(path: &str) -> (r: bool)
    ensures
        r == (lower_extension(path@) matches Some(e) && image_extension(e)),
{
    match lowered_extension(path) {
        Some(e) => is_one_of(&e, "png") || is_one_of(&e, "jpg") || is_one_of(&e, "jpeg")
            || is_one_of(&e, "gif") || is_one_of(&e, "webp") || is_one_of(&e, "bmp") || is_one_of(
            &e,
            "ico",
        ),
        None => false,
    }
}

/// Whether the video player opens this path.
pub fn is_video_path(path: &str) -> (r: bool)
    ensures
        r == (lower_extension(path@) matches Some(e) && video_extension(e)),
{
    match lowered_extension(path) {
        Some(e) => is_one_of(&e, "mp4") || is_one_of(&e, "mov") || is_one_of(&e, "m4v")
            || is_one_of(&e, "webm"),
        None => false,
    }
}

/// Whether this path is an HTML page, which can be previewed.
pub fn is_html_path(path: &str) -> (r: bool)
    ensures
        r == (lower_extension(path@) matches Some(e) && html_extension(e)),
{
    match lowered_extension(path) {
        Some(e) => is_one_of(&e, "html") || is_one_of(&e, "htm"),
        None => false,
    }
}

/// Whether a file opens with its Markdown preview (by its exact extension).
pub open spec fn markdown_extension(path: Seq<char>) -> bool {
    extension(path) == Some("md"@) || extension(path) == Some("markdown"@)
}

/// The mode a newly opened text file starts in: Markdown opens rendered.
pub fn initial_mode(path: &str) -> (r: FileMode)
    ensures
        r == (if markdown_extension(path@) {
            FileMode::Preview
        } else {
            FileMode::Source
        }),
{
    match path_extension(path) {
        Some(e) => {
            if is_one_of(&e, "md") || is_one_of(&e, "markdown") {
                FileMode::Preview
            } else {
                FileMode::Source
            }
        },
        None => FileMode::Source,
    }
}

/// Switches between source and preview, for a file that has a preview (or
/// is an HTML page, whose preview is made on first show).
pub fn toggled_mode(mode: FileMode, has_preview: bool, path: &str) -> (r: FileMode)
    ensures
        r == (if has_preview || (lower_extension(path@) matches Some(e) && html_extension(e)) {
            match mode {
                FileMode::Source => FileMode::Preview,
                FileMode::Preview => FileMode::Source,
            }
        } else {
            mode
        }),
{
    if has_preview || is_html_path(path) {
        match mode {
            FileMode::Source => FileMode::Preview,
            FileMode::Preview => FileMode::Source,
        }
    } else {
        mode
    }
}

/// Keeps one background walk per workspace at a time.
///
/// A watcher burst can ask for a rescan while the previous one is still
/// walking. Running both would double the cost for one result, so a request
/// that arrives mid-walk is folded into the next one instead.
#[derive(Default)]
pub struct ScanState {
    pub running: bool,
    pub queued_index: bool,
    pub queued_git: bool,
}

/// The walk state after asking for a walk of the index (`want_index`), a
/// Git snapshot (`want_git`), or both, with the walk to start now: nothing
/// when nothing is asked for, or when a walk is running, in which case the
/// request is queued behind it.
pub open spec fn after_request(s: ScanState, want_index: bool, want_git: bool) -> (
    ScanState,
    Option<(bool, bool)>,
) {
    if !want_index && !want_git {
        (s, None)
    } else if s.running {
        (
            ScanState {
                running: true,
                queued_index: s.queued_index || want_index,
                queued_git: s.queued_git || want_git,
            },
            None,
        )
    } else {
        (
            ScanState { running: true, queued_index: s.queued_index, queued_git: s.queued_git },
            Some((want_index, want_git)),
        )
    }
}

/// The walk state after the running walk lands, with the queued walk that
/// starts at once.
pub open spec fn after_finish(s: ScanState) -> (ScanState, Option<(bool, bool)>) {
    after_request(
        ScanState { running: false, queued_index: false, queued_git: false },
        s.queued_index,
        s.queued_git,
    )
}

/// A walk asked for while another runs does not start; it starts as soon as
/// the running walk lands, asking for everything requested in between.
pub proof fn lemma_requests_fold_into_next_walk(s: ScanState, want_index: bool, want_git: bool)
    requires
        s.running,
    ensures
        after_request(s, want_index, want_git).1 is None,
        after_request(s, want_index, want_git).0.running,
        (s.queued_index || s.queued_git || want_index || want_git) ==> after_finish(
            after_request(s, want_index, want_git).0,
        ).1 == Some((s.queued_index || want_index, s.queued_git || want_git)),
        after_finish(after_request(s, want_index, want_git).0).0.running == (s.queued_index
            || s.queued_git || want_index || want_git),
        !after_finish(after_request(s, want_index, want_git).0).0.queued_index,
        !after_finish(after_request(s, want_index, want_git).0).0.queued_git,
{
}

impl ScanState {
    /// Asks for a walk of the file index, a Git snapshot, or both. Returns
    /// what to start now: nothing when nothing is asked for, or when a walk
    /// is running, in which case the request is queued behind it.
    pub fn request(&mut self, want_index: bool, want_git: bool) -> (r: Option<(bool, bool)>)
        ensures
            (*final(self), r) == after_request(*old(self), want_index, want_git),
    {
        if !want_index && !want_git {
            return None;
        }
        if self.running {
            self.queued_index = self.queued_index || want_index;
            self.queued_git = self.queued_git || want_git;
            return None;
        }
        self.running = true;
        Some((want_index, want_git))
    }

    /// The running walk landed. Returns the walk queued behind it, if any,
    /// which starts at once.
    pub fn finish(&mut self) -> (r: Option<(bool, bool)>)
        ensures
            (*final(self), r) == after_finish(*old(self)),
    {
        self.running = false;
        let queued = (self.queued_index, self.queued_git);
        self.queued_index = false;
        self.queued_git = false;
        self.request(queued.0, queued.1)
    }
}

/// One path of the Explorer's full inventory.
#[derive(Clone, Debug)]
pub struct ExplorerInventoryEntry {
    pub path: String,
    pub is_dir: bool,
}

/// A request for the full inventory of a root, cancelled when the workspace
/// asks again or goes away.
pub struct ExplorerInventoryRequest {
    pub root: String,
    pub generation: u64,
    cancel: Arc<AtomicBool>,
}

impl ExplorerInventoryRequest {
    /// The root the request walks.
    pub closed spec fn walks(&self) -> Seq<char> {
        self.root@
    }

    /// The generation the request carries.
    pub closed spec fn carries(&self) -> u64 {
        self.generation
    }

    /// The root the request walks.
    pub fn root(&self) -> (r: &str)
        ensures
            r@ == self.walks(),
    {
        self.root.as_str()
    }

    /// The generation the request carries.
    pub fn generation(&self) -> (r: u64)
        ensures
            r == self.carries(),
    {
        self.generation
    }

    /// Whether the request was cancelled; another thread may set the flag at
    /// any moment.
    pub fn is_cancelled(&self) -> bool {
        self.cancel.load(Ordering::Relaxed)
    }
}

/// Whether the inventory walk enters an entry with this name at this depth:
/// never a hard-ignored name, and no privacy-guarded folder directly under
/// the home folder when the workspace is the home folder itself.
pub open spec fn inventory_admits(name: Seq<char>, depth: usize, root_is_home: bool) -> bool {
    !hard_ignored(name) && !(root_is_home && depth == 1 && tcc_protected(name))
}

/// Whether the inventory walk enters an entry with this name at this
/// depth.
pub fn inventory_admits_entry(name: &str, depth: usize, root_is_home: bool) -> (r: bool)
    ensures
        r == inventory_admits(name@, depth, root_is_home),
{
    if is_hard_ignored(name) {
        return false;
    }
    !(root_is_home && depth == 1 && is_tcc_protected(name))
}

/// The Explorer's inventory of one workspace: which request is current,
/// and whether a new one is owed.
pub struct InventoryState {
    generation: u64,
    dirty: bool,
    running: bool,
    cancel: Arc<AtomicBool>,
}

/// The inventory bookkeeping as contracts see it.
pub struct InventoryView {
    pub generation: u64,
    pub dirty: bool,
    pub running: bool,
}

impl View for InventoryState {
    type V = InventoryView;

    closed spec fn view(&self) -> InventoryView {
        InventoryView { generation: self.generation, dirty: self.dirty, running: self.running }
    }
}

/// The next generation, wrapping at the top.
pub open spec fn next_generation(g: u64) -> u64 {
    if g == u64::MAX {
        0
    } else {
        (g + 1) as u64
    }
}

/// The bookkeeping after a request is taken: one is owed and none runs,
/// so a new generation starts running; otherwise nothing changes.
pub open spec fn taken(v: InventoryView) -> InventoryView {
    if v.dirty && !v.running {
        InventoryView { generation: next_generation(v.generation), dirty: false, running: true }
    } else {
        v
    }
}

/// The bookkeeping after an index change supersedes the current request.
pub open spec fn invalidated(v: InventoryView) -> InventoryView {
    InventoryView { generation: next_generation(v.generation), dirty: true, running: false }
}

/// Whether the inventory of request `generation` is accepted, and the
/// bookkeeping after.
pub open spec fn accepted(v: InventoryView, generation: u64) -> (InventoryView, bool) {
    if generation == v.generation {
        (InventoryView { generation: v.generation, dirty: v.dirty, running: false }, true)
    } else {
        (v, false)
    }
}

/// The inventory of the request just taken is accepted; once the index
/// changes after it was taken, that inventory is refused and a new request
/// is owed.
pub proof fn lemma_stale_inventory_refused(v: InventoryView)
    requires
        v.dirty,
        !v.running,
    ensures
        accepted(taken(v), taken(v).generation).1,
        !accepted(invalidated(taken(v)), taken(v).generation).1,
        taken(invalidated(taken(v))).running,
        taken(invalidated(taken(v))).generation != taken(v).generation,
{
}

/// One call on the inventory bookkeeping: `take_request`, `accept` of a
/// generation, or `invalidate`.
pub enum InventoryStep {
    Take,
    Accept(u64),
    Invalidate,
}

/// The bookkeeping after one call.
pub open spec fn inventory_step(v: InventoryView, s: InventoryStep) -> InventoryView {
    match s {
        InventoryStep::Take => taken(v),
        InventoryStep::Accept(g) => accepted(v, g).0,
        InventoryStep::Invalidate => invalidated(v),
    }
}

/// The bookkeeping after a run of calls, in order.
pub open spec fn inventory_steps(v: InventoryView, ss: Seq<InventoryStep>) -> InventoryView
    decreases ss.len(),
{
    if ss.len() == 0 {
        v
    } else {
        inventory_step(inventory_steps(v, ss.drop_last()), ss.last())
    }
}

/// At most one inventory walk is in flight: once a request is taken, no
/// further request is handed out, whatever takes and refused accepts come
/// after, until its own generation is accepted or the index changes.
pub proof fn lemma_one_walk_in_flight(v: InventoryView, ss: Seq<InventoryStep>)
    requires
        v.dirty,
        !v.running,
        forall|i: int|
            0 <= i < ss.len() ==> match #[trigger] ss[i] {
                InventoryStep::Take => true,
                InventoryStep::Accept(g) => g != taken(v).generation,
                InventoryStep::Invalidate => false,
            },
    ensures
        inventory_steps(taken(v), ss) == taken(v),
        !(inventory_steps(taken(v), ss).dirty && !inventory_steps(taken(v), ss).running),
    decreases ss.len(),
{
    if ss.len() > 0 {
        assert forall|i: int| 0 <= i < ss.drop_last().len() implies match #[trigger] ss.drop_last()[i] {
            InventoryStep::Take => true,
            InventoryStep::Accept(g) => g != taken(v).generation,
            InventoryStep::Invalidate => false,
        } by {
            assert(ss.drop_last()[i] == ss[i]);
        }
        lemma_one_walk_in_flight(v, ss.drop_last());
        assert(ss.last() == ss[ss.len() - 1]);
    }
}

impl InventoryState {
    /// The generation of the latest request.
    pub fn generation(&self) -> (r: u64)
        ensures
            r == self@.generation,
    {
        self.generation
    }

    /// A workspace whose inventory is owed.
    pub fn new() -> (r: InventoryState)
        ensures
            r@.generation == 0,
            r@.dirty,
            !r@.running,
    {
        InventoryState { generation: 0, dirty: true, running: false, cancel: Arc::new(AtomicBool::new(false)) }
    }

    /// A request for the inventory, when one is owed and none is running. It
    /// carries a new generation (wrapping) and a fresh cancel flag.
    pub fn take_request(&mut self, root: &str) -> (r: Option<ExplorerInventoryRequest>)
        ensures
            final(self)@ == taken(old(self)@),
            r is Some <==> (old(self)@.dirty && !old(self)@.running),
            r matches Some(q) ==> q.walks() == root@ && q.carries() == final(self)@.generation,
    {
        if !self.dirty || self.running {
            return None;
        }
        self.generation = self.generation.wrapping_add(1);
        self.dirty = false;
        self.running = true;
        self.cancel = Arc::new(AtomicBool::new(false));
        Some(
            ExplorerInventoryRequest {
                root: root.to_string(),
                generation: self.generation,
                cancel: self.cancel.clone(),
            },
        )
    }

    /// Accepts the inventory of request `generation`; a stale one (from a
    /// request superseded since) is refused.
    pub fn accept(&mut self, generation: u64) -> (r: bool)
        ensures
            (final(self)@, r) == accepted(old(self)@, generation),
    {
        if generation != self.generation {
            return false;
        }
        self.running = false;
        true
    }

    /// The index changed: the running request is cancelled and superseded,
    /// and a new one is owed.
    pub fn invalidate(&mut self)
        ensures
            final(self)@ == invalidated(old(self)@),
    {
        self.cancel.store(true, Ordering::Relaxed);
        self.generation = self.generation.wrapping_add(1);
        self.dirty = true;
        self.running = false;
    }
}


/// The keys of a path and each of its ancestors, the path first.
pub open spec fn ancestor_keys(k: (bool, Seq<Seq<char>>)) -> Seq<(bool, Seq<Seq<char>>)> {
    Seq::new((k.1.len() + 1) as nat, |j: int| (k.0, k.1.take(k.1.len() - j)))
}

/// The keys of every indexed file and each of its ancestor folders.
pub open spec fn index_keys(files: Seq<crate::file_index::IndexedFile>) -> Seq<
    (bool, Seq<Seq<char>>),
>
    decreases files.len(),
{
    if files.len() == 0 {
        Seq::empty()
    } else {
        index_keys(files.drop_last()) + ancestor_keys(
            crate::fs_tree::key_of(files.last().absolute@),
        )
    }
}

/// Which paths the Explorer shows at full strength: every indexed file and
/// its ancestor folders. Any other path is Git-ignored and shown quieter;
/// before the first index lands, nothing is.
pub struct Visibility {
    indexed: bool,
    keys: Vec<crate::fs_tree::PathKey>,
}

pub open spec fn keys_view(v: Seq<crate::fs_tree::PathKey>) -> Seq<(bool, Seq<Seq<char>>)> {
    v.map_values(|k: crate::fs_tree::PathKey| k.key())
}

impl Visibility {
    /// Whether an index has landed.
    pub closed spec fn indexed(&self) -> bool {
        self.indexed
    }

    /// The keys shown at full strength.
    pub closed spec fn keys(&self) -> Seq<(bool, Seq<Seq<char>>)> {
        keys_view(self.keys@)
    }

    /// No index yet.
    pub fn new() -> (r: Visibility)
        ensures
            !r.indexed(),
    {
        Visibility { indexed: false, keys: Vec::new() }
    }

    /// Takes a new index: its files and their ancestors are shown.
    pub fn set_index(&mut self, files: &Vec<crate::file_index::IndexedFile>)
        ensures
            final(self).indexed(),
            final(self).keys() == index_keys(files@),
    {
        let ghost fs = files@;
        let mut keys: Vec<crate::fs_tree::PathKey> = Vec::new();
        let mut i: usize = 0;
        while i < files.len()
            invariant
                i <= fs.len(),
                fs == files@,
                keys_view(keys@) == index_keys(fs.subrange(0, i as int)),
            decreases fs.len() - i,
        {
            assert(fs.subrange(0, i + 1).drop_last() =~= fs.subrange(0, i as int));
            let k = crate::fs_tree::path_key(files[i].absolute.as_str());
            let ghost kk = k.key();
            let ghost start = keys_view(keys@);
            let n = k.comps.len();
            let first = crate::fs_tree::key_prefix(&k, n);
            keys.push(first);
            assert(kk.1.take(n as int) =~= kk.1);
            assert(keys_view(keys@) =~= start + ancestor_keys(kk).take(1));
            let mut j: usize = 0;
            while j < n
                invariant
                    j <= n,
                    n == k.comps@.len(),
                    kk == k.key(),
                    kk.1.len() == n,
                    keys_view(keys@) == start + ancestor_keys(kk).take(j + 1),
                decreases n - j,
            {
                j += 1;
                let a = crate::fs_tree::key_prefix(&k, n - j);
                let ghost before = keys_view(keys@);
                keys.push(a);
                assert(keys_view(keys@) =~= before.push(a.key()));
                assert(ancestor_keys(kk).take(j + 1) =~= ancestor_keys(kk).take(j as int).push(
                    ancestor_keys(kk)[j as int],
                ));
            }
            assert(ancestor_keys(kk).take((n + 1) as int) =~= ancestor_keys(kk));
            i += 1;
        }
        assert(fs.subrange(0, fs.len() as int) =~= fs);
        self.keys = keys;
        self.indexed = true;
    }

    /// Whether a path is Git-ignored: an index has landed and it shows
    /// neither the path nor anything below it.
    pub fn is_ignored(&self, path: &str) -> (r: bool)
        ensures
            r == (self.indexed() && !self.keys().contains(crate::fs_tree::key_of(path@))),
    {
        if !self.indexed {
            return false;
        }
        let k = crate::fs_tree::path_key(path);
        let ghost kv = self.keys();
        let mut i: usize = 0;
        while i < self.keys.len()
            invariant
                i <= self.keys@.len(),
                kv == keys_view(self.keys@),
                k.key() == crate::fs_tree::key_of(path@),
                forall|j: int| 0 <= j < i ==> kv[j] != k.key(),
            decreases self.keys@.len() - i,
        {
            if crate::fs_tree::keys_equal(&self.keys[i], &k) {
                assert(kv[i as int] == k.key());
                return false;
            }
            i += 1;
        }
        true
    }
}

} // verus!
