//! The blocking overlays: Quick Open, the Command Palette and Search All
//! Files. What a query change starts, which streamed results are still
//! current, how the selection moves, and what Return does.
//!
//! Running the searches and drawing the panel are the caller's part; each
//! search carries the generation it was started with, and results of an
//! older generation are dropped.
use vstd::prelude::*;

use crate::commands::{Command, title_of};
use crate::explorer::{contains_chars, contains_text};
use crate::repository_search::{RepositoryResult, copy_result};
use crate::search::{Batch, Cancel, Hit};
use crate::text::{
    append_chars, byte_len, byte_length, chars_of, decimal_chars, decimal_string, lowercase,
    string_of, to_lowercase,
};
use crate::workspace::next_generation;

verus! {

/// Which overlay is up.
#[derive(Clone, Copy, PartialEq, Eq, Structural, Debug)]
pub enum Overlay {
    QuickOpen,
    Palette,
    Search,
}

/// The palette commands whose title holds the (lowercased) query, in
/// palette order; all of them for an empty query.
pub open spec fn palette_matches(commands: Seq<Command>, lowered: Seq<char>) -> Seq<Command>
    decreases commands.len(),
{
    if commands.len() == 0 {
        Seq::empty()
    } else {
        let rest = palette_matches(commands.drop_last(), lowered);
        let c = commands.last();
        if lowered.len() == 0 || contains_text(lowercase(title_of(c)), lowered) {
            rest.push(c)
        } else {
            rest
        }
    }
}

pub open spec fn all_commands() -> Seq<Command> {
    seq![
        Command::NewTerminal,
        Command::ToggleSidebar,
        Command::ToggleInspector,
        Command::ToggleSidebarTab,
        Command::TogglePreview,
        Command::ToggleWrap,
        Command::ToggleAppearance,
        Command::Save,
        Command::AddWorkspace,
        Command::RefreshGit,
        Command::Reindex,
    ]
}

/// The overlay state as contracts see it.
pub struct OverlayView {
    pub kind: Option<Overlay>,
    pub selected: int,
    pub quick: Seq<RepositoryResult>,
    pub commands: Seq<Command>,
    /// How many hits each streamed batch holds, in arrival order.
    pub sizes: Seq<int>,
    pub total: int,
    pub searching: bool,
    /// Bumped per search; results carry the generation they belong to.
    pub generation: u64,
}

/// The overlay state.
pub struct OverlayState {
    kind: Option<Overlay>,
    selected: usize,
    quick: Vec<RepositoryResult>,
    commands: Vec<Command>,
    batches: Vec<Batch>,
    total: usize,
    searching: bool,
    generation: u64,
    cancel: Option<Cancel>,
}

pub open spec fn batch_sizes(batches: Seq<Batch>) -> Seq<int> {
    batches.map_values(|b: Batch| b.hits@.len() as int)
}

/// The sum of the first `n` sizes.
pub open spec fn sum_of(sizes: Seq<int>, n: int) -> int
    decreases n,
{
    if n <= 0 {
        0
    } else {
        sum_of(sizes, n - 1) + sizes[n - 1]
    }
}

/// How many results the overlay lists.
pub open spec fn result_count(v: OverlayView) -> int {
    match v.kind {
        Some(Overlay::QuickOpen) => v.quick.len() as int,
        Some(Overlay::Palette) => v.commands.len() as int,
        Some(Overlay::Search) => sum_of(v.sizes, v.sizes.len() as int),
        None => 0,
    }
}

impl View for OverlayState {
    type V = OverlayView;

    closed spec fn view(&self) -> OverlayView {
        OverlayView {
            kind: self.kind,
            selected: self.selected as int,
            quick: self.quick@,
            commands: self.commands@,
            sizes: batch_sizes(self.batches@),
            total: self.total as int,
            searching: self.searching,
            generation: self.generation,
        }
    }
}

/// No overlay, at generation `generation`.
pub open spec fn closed_at(generation: u64) -> OverlayView {
    OverlayView {
        kind: None,
        selected: 0,
        quick: Seq::empty(),
        commands: Seq::empty(),
        sizes: Seq::empty(),
        total: 0,
        searching: false,
        generation,
    }
}

/// A freshly opened overlay: every command listed, nothing searched yet,
/// and a new generation.
pub open spec fn opened_as(v: OverlayView, kind: Overlay) -> OverlayView {
    OverlayView {
        kind: Some(kind),
        selected: 0,
        quick: Seq::empty(),
        commands: all_commands(),
        sizes: Seq::empty(),
        total: 0,
        searching: false,
        generation: next_generation(v.generation),
    }
}

/// Search results dropped: nothing listed, nothing running, and a new
/// generation so that whatever the old search still delivers is refused.
pub open spec fn search_invalidated(v: OverlayView) -> OverlayView {
    OverlayView {
        kind: v.kind,
        selected: 0,
        quick: v.quick,
        commands: v.commands,
        sizes: Seq::empty(),
        total: 0,
        searching: false,
        generation: next_generation(v.generation),
    }
}

/// What a query change starts.
pub enum Refresh {
    /// Run Quick Open for the query; its results belong to `generation`.
    Quick { generation: u64, cancel: Cancel },
    /// Run Search All Files for the query; its batches belong to
    /// `generation`.
    Search { generation: u64, cancel: Cancel },
    /// Nothing to run.
    Done,
}

/// The state after a query change, and the generation of the search it
/// starts, if any. Quick Open starts a search for any query; the palette
/// filters its commands; Search All Files drops its results and searches
/// again for a query of two bytes or more.
pub open spec fn refreshed(v: OverlayView, query: Seq<char>) -> (OverlayView, Option<u64>) {
    match v.kind {
        Some(Overlay::QuickOpen) => (
            OverlayView {
                kind: v.kind,
                selected: 0,
                quick: Seq::empty(),
                commands: v.commands,
                sizes: v.sizes,
                total: 0,
                searching: true,
                generation: (v.generation + 1) as u64,
            },
            Some((v.generation + 1) as u64),
        ),
        Some(Overlay::Palette) => (
            OverlayView {
                kind: v.kind,
                selected: 0,
                quick: v.quick,
                commands: palette_matches(all_commands(), lowercase(query)),
                sizes: v.sizes,
                total: v.total,
                searching: v.searching,
                generation: v.generation,
            },
            None,
        ),
        Some(Overlay::Search) => {
            let w = search_invalidated(v);
            if byte_len(query) < 2 {
                (w, None)
            } else {
                (
                    OverlayView {
                        kind: w.kind,
                        selected: w.selected,
                        quick: w.quick,
                        commands: w.commands,
                        sizes: w.sizes,
                        total: w.total,
                        searching: true,
                        generation: (w.generation + 1) as u64,
                    },
                    Some((w.generation + 1) as u64),
                )
            }
        },
        None => (v, None),
    }
}

/// Whether a query change can be applied without the generation counter
/// running over.
pub open spec fn refresh_fits(v: OverlayView, query: Seq<char>) -> bool {
    match v.kind {
        Some(Overlay::QuickOpen) => v.generation < u64::MAX,
        Some(Overlay::Search) => byte_len(query) < 2 || next_generation(v.generation) < u64::MAX,
        _ => true,
    }
}

/// Quick Open results arriving for `generation`: kept only while Quick Open
/// is up and that search is the current one.
pub open spec fn quick_received(v: OverlayView, generation: u64, results: Seq<RepositoryResult>) -> (
    OverlayView,
    bool,
) {
    if v.kind != Some(Overlay::QuickOpen) || v.generation != generation {
        (v, false)
    } else {
        (
            OverlayView {
                kind: v.kind,
                selected: 0,
                quick: results,
                commands: v.commands,
                sizes: v.sizes,
                total: results.len() as int,
                searching: false,
                generation: v.generation,
            },
            true,
        )
    }
}

/// A batch of `size` hits arriving for `generation`: appended while that
/// search is the current one.
pub open spec fn batch_received(v: OverlayView, generation: u64, size: int) -> (OverlayView, bool) {
    if v.generation != generation {
        (v, false)
    } else {
        (
            OverlayView {
                kind: v.kind,
                selected: v.selected,
                quick: v.quick,
                commands: v.commands,
                sizes: v.sizes.push(size),
                total: v.total + size,
                searching: v.searching,
                generation: v.generation,
            },
            true,
        )
    }
}

/// The selection after a step of `step` rows, wrapping around the list;
/// the first row when the list is empty.
pub open spec fn stepped(v: OverlayView, step: int) -> OverlayView {
    let count = result_count(v);
    OverlayView {
        kind: v.kind,
        selected: if count == 0 {
            0
        } else {
            (v.selected + step) % count
        },
        quick: v.quick,
        commands: v.commands,
        sizes: v.sizes,
        total: v.total,
        searching: v.searching,
        generation: v.generation,
    }
}

/// How many batch headers come before hit `rest` of the list, its own
/// batch's included (every header, past the end).
pub open spec fn headers_before(sizes: Seq<int>, rest: int) -> int
    decreases sizes.len(),
{
    if sizes.len() == 0 {
        0
    } else if rest < sizes[0] {
        1
    } else {
        1 + headers_before(sizes.drop_first(), rest - sizes[0])
    }
}

/// The row of hit `selected` in the search list, where every batch starts
/// with a header row (saturating at the top).
pub open spec fn scroll_row(sizes: Seq<int>, selected: int) -> int {
    let row = selected + headers_before(sizes, selected);
    if row > usize::MAX {
        usize::MAX as int
    } else {
        row
    }
}

/// Hit `n` across the batches, in order.
pub open spec fn nth_hit(batches: Seq<Batch>, n: int) -> Option<Hit>
    decreases batches.len(),
{
    if batches.len() == 0 || n < 0 {
        None
    } else if n < batches[0].hits@.len() {
        Some(batches[0].hits@[n])
    } else {
        nth_hit(batches.drop_first(), n - batches[0].hits@.len())
    }
}


/// What Return does on the selected row.
pub enum Activation {
    /// Open a file in its source view, revealing row `reveal` (0-based)
    /// when there is one.
    OpenSource { absolute: String, reveal: Option<usize> },
    /// Show the Git panel with this status text.
    ShowCommit { status: String },
    /// Close the overlay, then run the command.
    Run(Command),
    /// Open a file and reveal row `reveal` (0-based).
    OpenHit { absolute: String, reveal: usize },
}

/// What Return does, as contracts see it.
pub enum ActivationView {
    OpenSource { absolute: Seq<char>, reveal: Option<usize> },
    ShowCommit { status: Seq<char> },
    Run(Command),
    OpenHit { absolute: Seq<char>, reveal: usize },
}

pub open spec fn activation_view(a: Activation) -> ActivationView {
    match a {
        Activation::OpenSource { absolute, reveal } => ActivationView::OpenSource {
            absolute: absolute@,
            reveal,
        },
        Activation::ShowCommit { status } => ActivationView::ShowCommit { status: status@ },
        Activation::Run(c) => ActivationView::Run(c),
        Activation::OpenHit { absolute, reveal } => ActivationView::OpenHit {
            absolute: absolute@,
            reveal,
        },
    }
}

/// A 1-based line as a 0-based row.
pub open spec fn row_of(line: int) -> int {
    if line <= 0 {
        0
    } else {
        line - 1
    }
}

/// What Return does for the selection, if anything is selected: a file or
/// symbol opens in its source, a commit shows the Git panel, a command
/// runs, a search hit opens at its line.
pub open spec fn activation_of(v: OverlayView, batches: Seq<Batch>) -> Option<ActivationView> {
    match v.kind {
        Some(Overlay::QuickOpen) => if 0 <= v.selected < v.quick.len() {
            match v.quick[v.selected] {
                RepositoryResult::File { absolute, .. } => Some(
                    ActivationView::OpenSource { absolute: absolute@, reveal: None },
                ),
                RepositoryResult::Symbol { absolute, line, .. } => Some(
                    ActivationView::OpenSource {
                        absolute: absolute@,
                        reveal: Some(row_of(line as int) as usize),
                    },
                ),
                RepositoryResult::Commit { short_hash, subject, .. } => Some(
                    ActivationView::ShowCommit {
                        status: "commit "@ + short_hash@ + " - "@ + subject@,
                    },
                ),
            }
        } else {
            None
        },
        Some(Overlay::Palette) => if 0 <= v.selected < v.commands.len() {
            Some(ActivationView::Run(v.commands[v.selected]))
        } else {
            None
        },
        Some(Overlay::Search) => match nth_hit(batches, v.selected) {
            Some(h) => Some(
                ActivationView::OpenHit {
                    absolute: h.absolute@,
                    reveal: row_of(h.line as int) as usize,
                },
            ),
            None => None,
        },
        None => None,
    }
}

/// The footer under the results.
pub open spec fn footer_of(v: OverlayView) -> Seq<char> {
    match v.kind {
        Some(Overlay::Search) => decimal_chars(v.total as nat) + " matches"@ + if v.searching {
            " - searching"@
        } else {
            ""@
        },
        Some(Overlay::QuickOpen) if v.searching => "Searching files, symbols, and commits..."@,
        _ => "Up / Down / Return / click outside to close"@,
    }
}

fn palette_filter(query: &str) -> (r: Vec<Command>)
    ensures
        r@ == palette_matches(all_commands(), lowercase(query@)),
{
    let lowered = to_lowercase(&chars_of(query));
    let all = Command::all();
    let ghost al = all@;
    let mut out: Vec<Command> = Vec::new();
    let mut i: usize = 0;
    while i < all.len()
        invariant
            i <= all@.len(),
            al == all@,
            al == all_commands(),
            lowered@ == lowercase(query@),
            out@ == palette_matches(al.subrange(0, i as int), lowered@),
        decreases all@.len() - i,
    {
        let c = all[i];
        assert(al.subrange(0, i + 1).drop_last() =~= al.subrange(0, i as int));
        let title = to_lowercase(&chars_of(c.title()));
        if lowered.len() == 0 || contains_chars(&title, &lowered) {
            out.push(c);
        }
        i += 1;
    }
    assert(al.subrange(0, al.len() as int) =~= al);
    out
}

impl OverlayState {
    /// No overlay up.
    pub fn new() -> (r: OverlayState)
        ensures
            r@ == closed_at(0),
    {
        let r = OverlayState {
            kind: None,
            selected: 0,
            quick: Vec::new(),
            commands: Vec::new(),
            batches: Vec::new(),
            total: 0,
            searching: false,
            generation: 0,
            cancel: None,
        };
        assert(batch_sizes(r.batches@) =~= Seq::empty());
        r
    }

    /// Which overlay is up.
    pub fn kind(&self) -> (r: Option<Overlay>)
        ensures
            r == self@.kind,
    {
        self.kind
    }

    /// The selected row.
    pub fn selected(&self) -> (r: usize)
        ensures
            r == self@.selected,
    {
        self.selected
    }

    /// The generation of the current search.
    pub fn generation(&self) -> (r: u64)
        ensures
            r == self@.generation,
    {
        self.generation
    }

    /// How many hits Search All Files has listed.
    pub fn total(&self) -> (r: usize)
        ensures
            r == self@.total,
    {
        self.total
    }

    /// Whether a search is running.
    pub fn searching(&self) -> (r: bool)
        ensures
            r == self@.searching,
    {
        self.searching
    }

    /// The Quick Open results.
    pub fn quick(&self) -> (r: &Vec<RepositoryResult>)
        ensures
            r@ == self@.quick,
    {
        &self.quick
    }

    /// The palette commands listed.
    pub fn commands(&self) -> (r: &Vec<Command>)
        ensures
            r@ == self@.commands,
    {
        &self.commands
    }

    /// The streamed search batches, in arrival order.
    pub closed spec fn batch_list(&self) -> Seq<Batch> {
        self.batches@
    }

    /// The streamed search batches.
    pub fn batches(&self) -> (r: &Vec<Batch>)
        ensures
            r@ == self.batch_list(),
            batch_sizes(r@) == self@.sizes,
    {
        &self.batches
    }

    /// Whether the token of a running search is held, to cancel it by.
    pub closed spec fn holds_token(&self) -> bool {
        self.cancel is Some
    }

    fn cancel_running(&mut self)
        ensures
            final(self)@ == old(self)@,
            final(self).batch_list() == old(self).batch_list(),
            !final(self).holds_token(),
    {
        match self.cancel.take() {
            Some(c) => c.cancel(),
            None => {},
        }
    }

    /// Opens an overlay; a search still running is cancelled. The caller
    /// then applies the empty query with `refresh`.
    pub fn open(&mut self, kind: Overlay)
        ensures
            final(self)@ == opened_as(old(self)@, kind),
            final(self).batch_list().len() == 0,
    {
        self.cancel_running();
        self.kind = Some(kind);
        self.selected = 0;
        self.quick = Vec::new();
        self.commands = Command::all();
        self.batches = Vec::new();
        self.total = 0;
        self.searching = false;
        self.generation = self.generation.wrapping_add(1);
        assert(batch_sizes(self.batches@) =~= Seq::empty());
    }

    /// Closes the overlay; a search still running is cancelled, and the
    /// generation moves on so that nothing it delivers is kept.
    pub fn close(&mut self)
        ensures
            final(self)@ == closed_at(next_generation(old(self)@.generation)),
            final(self).batch_list().len() == 0,
    {
        self.cancel_running();
        self.kind = None;
        self.selected = 0;
        self.quick = Vec::new();
        self.commands = Vec::new();
        self.batches = Vec::new();
        self.total = 0;
        self.searching = false;
        self.generation = self.generation.wrapping_add(1);
        assert(batch_sizes(self.batches@) =~= Seq::empty());
    }

    /// Drops the search results and moves to a new generation; returns it.
    pub fn invalidate_search_results(&mut self) -> (r: u64)
        ensures
            final(self)@ == search_invalidated(old(self)@),
            r == final(self)@.generation,
            final(self).batch_list().len() == 0,
    {
        self.cancel_running();
        self.batches = Vec::new();
        self.total = 0;
        self.selected = 0;
        self.searching = false;
        self.generation = self.generation.wrapping_add(1);
        assert(batch_sizes(self.batches@) =~= Seq::empty());
        self.generation
    }

    /// Applies a query change, and says which search to run for it.
    pub fn refresh(&mut self, query: &str) -> (r: Refresh)
        requires
            refresh_fits(old(self)@, query@),
        ensures
            final(self)@ == refreshed(old(self)@, query@).0,
            match r {
                Refresh::Quick { generation, .. } => old(self)@.kind == Some(Overlay::QuickOpen)
                    && refreshed(old(self)@, query@).1 == Some(generation),
                Refresh::Search { generation, .. } => old(self)@.kind == Some(Overlay::Search)
                    && refreshed(old(self)@, query@).1 == Some(generation),
                Refresh::Done => refreshed(old(self)@, query@).1 is None,
            },
            old(self)@.kind == Some(Overlay::Search) ==> final(self).batch_list().len() == 0,
            old(self)@.kind != Some(Overlay::Search) ==> final(self).batch_list() == old(
                self,
            ).batch_list(),
    {
        match self.kind {
            Some(Overlay::QuickOpen) => {
                self.cancel_running();
                let cancel = Cancel::new();
                self.cancel = Some(cancel.clone());
                self.quick = Vec::new();
                self.total = 0;
                self.selected = 0;
                self.searching = true;
                self.generation = self.generation + 1;
                Refresh::Quick { generation: self.generation, cancel }
            },
            Some(Overlay::Palette) => {
                self.commands = palette_filter(query);
                self.selected = 0;
                Refresh::Done
            },
            Some(Overlay::Search) => {
                self.invalidate_search_results();
                if byte_length(&chars_of(query)) < 2 {
                    return Refresh::Done;
                }
                let cancel = Cancel::new();
                self.cancel = Some(cancel.clone());
                self.searching = true;
                self.generation = self.generation + 1;
                Refresh::Search { generation: self.generation, cancel }
            },
            None => Refresh::Done,
        }
    }

    /// Quick Open results for `generation`; false when they are stale.
    pub fn receive_quick(&mut self, generation: u64, results: Vec<RepositoryResult>) -> (r: bool)
        ensures
            (final(self)@, r) == quick_received(old(self)@, generation, results@),
            final(self).batch_list() == old(self).batch_list(),
    {
        if self.kind != Some(Overlay::QuickOpen) || self.generation != generation {
            return false;
        }
        self.total = results.len();
        self.quick = results;
        self.selected = 0;
        self.searching = false;
        true
    }

    /// A streamed batch for `generation`; false when it is stale.
    pub fn receive_batch(&mut self, generation: u64, batch: Batch) -> (r: bool)
        requires
            old(self)@.generation == generation ==> old(self)@.total + batch.hits@.len()
                <= usize::MAX,
        ensures
            (final(self)@, r) == batch_received(old(self)@, generation, batch.hits@.len() as int),
            r ==> final(self).batch_list() == old(self).batch_list().push(batch),
            !r ==> final(self).batch_list() == old(self).batch_list(),
    {
        if self.generation != generation {
            return false;
        }
        self.total = self.total + batch.hits.len();
        let ghost b = batch;
        self.batches.push(batch);
        assert(batch_sizes(self.batches@) =~= batch_sizes(old(self).batches@).push(
            b.hits@.len() as int,
        ));
        true
    }

    /// The search of `generation` has delivered everything.
    pub fn finish_search(&mut self, generation: u64)
        ensures
            final(self)@ == (if old(self)@.generation == generation {
                OverlayView {
                    kind: old(self)@.kind,
                    selected: old(self)@.selected,
                    quick: old(self)@.quick,
                    commands: old(self)@.commands,
                    sizes: old(self)@.sizes,
                    total: old(self)@.total,
                    searching: false,
                    generation: old(self)@.generation,
                }
            } else {
                old(self)@
            }),
            final(self).batch_list() == old(self).batch_list(),
    {
        if self.generation == generation {
            self.searching = false;
        }
    }

    /// The footer under the results.
    pub fn footer(&self) -> (r: String)
        ensures
            r@ == footer_of(self@),
    {
        match self.kind {
            Some(Overlay::Search) => {
                let mut c = decimal_string(self.total as u64);
                append_chars(&mut c, &chars_of(" matches"));
                if self.searching {
                    append_chars(&mut c, &chars_of(" - searching"));
                } else {
                    append_chars(&mut c, &chars_of(""));
                }
                string_of(&c)
            },
            Some(Overlay::QuickOpen) => {
                if self.searching {
                    "Searching files, symbols, and commits...".to_string()
                } else {
                    "Up / Down / Return / click outside to close".to_string()
                }
            },
            _ => "Up / Down / Return / click outside to close".to_string(),
        }
    }
}


proof fn lemma_negative_mod(y: int, c: int)
    requires
        y > 0,
        c > 0,
    ensures
        (-y) % c == (if y % c == 0 {
            0
        } else {
            c - y % c
        }),
{
    vstd::arithmetic::div_mod::lemma_fundamental_div_mod(y, c);
    vstd::arithmetic::div_mod::lemma_mod_bound(y, c);
    let q = y / c;
    let m = y % c;
    if m == 0 {
        assert(-y == (-q) * c + 0) by (nonlinear_arith)
            requires
                y == c * q + m,
                m == 0,
        ;
        vstd::arithmetic::div_mod::lemma_fundamental_div_mod_converse(-y, c, -q, 0);
    } else {
        assert(-y == (-q - 1) * c + (c - m)) by (nonlinear_arith)
            requires
                y == c * q + m,
        ;
        vstd::arithmetic::div_mod::lemma_fundamental_div_mod_converse(-y, c, -q - 1, c - m);
    }
}

fn sum_sizes(batches: &Vec<Batch>) -> (r: usize)
    requires
        sum_of(batch_sizes(batches@), batches@.len() as int) <= isize::MAX,
    ensures
        r == sum_of(batch_sizes(batches@), batches@.len() as int),
{
    let ghost sz = batch_sizes(batches@);
    let mut n: usize = 0;
    let mut i: usize = 0;
    while i < batches.len()
        invariant
            i <= batches@.len(),
            sz == batch_sizes(batches@),
            sum_of(sz, batches@.len() as int) <= isize::MAX,
            n == sum_of(sz, i as int),
        decreases batches@.len() - i,
    {
        proof {
            lemma_sum_prefix(sz, i + 1, batches@.len() as int);
        }
        n = n + batches[i].hits.len();
        i += 1;
    }
    n
}

proof fn lemma_sum_prefix(sizes: Seq<int>, m: int, n: int)
    requires
        0 <= m <= n <= sizes.len(),
        forall|k: int| 0 <= k < sizes.len() ==> sizes[k] >= 0,
    ensures
        sum_of(sizes, m) <= sum_of(sizes, n),
    decreases n - m,
{
    if n > m {
        lemma_sum_prefix(sizes, m, n - 1);
    }
}

/// The row to scroll to for hit `selected` of the search list, where every
/// batch starts with a header row.
pub fn search_scroll_item(batches: &Vec<Batch>, selected: usize) -> (r: usize)
    ensures
        r == scroll_row(batch_sizes(batches@), selected as int),
{
    let ghost sz = batch_sizes(batches@);
    let mut remaining = selected;
    let mut headers: usize = 0;
    let mut i: usize = 0;
    assert(sz.subrange(0, sz.len() as int) =~= sz);
    while i < batches.len()
        invariant
            i <= batches@.len(),
            sz == batch_sizes(batches@),
            headers == i,
            headers + headers_before(sz.subrange(i as int, sz.len() as int), remaining as int)
                == headers_before(sz, selected as int),
        decreases batches@.len() - i,
    {
        let ghost rest = sz.subrange(i as int, sz.len() as int);
        assert(rest[0] == batches@[i as int].hits@.len());
        assert(rest.drop_first() =~= sz.subrange(i + 1, sz.len() as int));
        headers += 1;
        if remaining < batches[i].hits.len() {
            return selected.saturating_add(headers);
        }
        remaining = remaining - batches[i].hits.len();
        i += 1;
    }
    assert(sz.subrange(i as int, sz.len() as int) =~= Seq::<int>::empty());
    selected.saturating_add(headers)
}

fn nth_of(batches: &Vec<Batch>, n: usize) -> (r: Option<&Hit>)
    ensures
        match r {
            Some(h) => nth_hit(batches@, n as int) == Some(*h),
            None => nth_hit(batches@, n as int) is None,
        },
{
    let mut remaining = n;
    let mut i: usize = 0;
    assert(batches@.subrange(0, batches@.len() as int) =~= batches@);
    while i < batches.len()
        invariant
            i <= batches@.len(),
            nth_hit(batches@.subrange(i as int, batches@.len() as int), remaining as int)
                == nth_hit(batches@, n as int),
        decreases batches@.len() - i,
    {
        let ghost rest = batches@.subrange(i as int, batches@.len() as int);
        assert(rest[0] == batches@[i as int]);
        assert(rest.drop_first() =~= batches@.subrange(i + 1, batches@.len() as int));
        if remaining < batches[i].hits.len() {
            return Some(&batches[i].hits[remaining]);
        }
        remaining = remaining - batches[i].hits.len();
        i += 1;
    }
    assert(batches@.subrange(i as int, batches@.len() as int) =~= Seq::<Batch>::empty());
    None
}

fn commit_status_of(short_hash: &str, subject: &str) -> (r: String)
    ensures
        r@ == "commit "@ + short_hash@ + " - "@ + subject@,
{
    let mut c = chars_of("commit ");
    append_chars(&mut c, &chars_of(short_hash));
    append_chars(&mut c, &chars_of(" - "));
    append_chars(&mut c, &chars_of(subject));
    string_of(&c)
}

impl OverlayState {
    /// How many results the overlay lists.
    pub fn result_count(&self) -> (r: usize)
        requires
            result_count(self@) <= isize::MAX,
        ensures
            r == result_count(self@),
    {
        match self.kind {
            Some(Overlay::QuickOpen) => self.quick.len(),
            Some(Overlay::Palette) => self.commands.len(),
            Some(Overlay::Search) => sum_sizes(&self.batches),
            None => 0,
        }
    }

    /// Moves the selection by `step` rows, wrapping around the list, and
    /// says which row to scroll to; `None` when the list is empty.
    pub fn move_selection(&mut self, step: isize) -> (r: Option<usize>)
        requires
            result_count(old(self)@) <= isize::MAX,
        ensures
            final(self)@ == stepped(old(self)@, step as int),
            final(self).batch_list() == old(self).batch_list(),
            result_count(old(self)@) > 0 ==> 0 <= final(self)@.selected < result_count(
                old(self)@,
            ),
            match r {
                Some(row) => result_count(old(self)@) > 0 && row == (if old(self)@.kind == Some(
                    Overlay::Search,
                ) {
                    scroll_row(old(self)@.sizes, final(self)@.selected)
                } else {
                    final(self)@.selected
                }),
                None => result_count(old(self)@) == 0,
            },
    {
        let count = self.result_count();
        if count == 0 {
            self.selected = 0;
            return None;
        }
        let x: i128 = self.selected as i128 + step as i128;
        let c: u128 = count as u128;
        let next: u128 = if x >= 0 {
            (x as u128) % c
        } else {
            let m = ((-x) as u128) % c;
            proof {
                lemma_negative_mod(-x, c as int);
            }
            if m == 0 {
                0
            } else {
                c - m
            }
        };
        proof {
            vstd::arithmetic::div_mod::lemma_mod_bound(x as int, c as int);
        }
        assert(next == (old(self)@.selected + step) % (count as int));
        self.selected = next as usize;
        match self.kind {
            Some(Overlay::Search) => Some(search_scroll_item(&self.batches, self.selected)),
            _ => Some(self.selected),
        }
    }

    /// What Return does for the selection, if anything is selected.
    pub fn activation(&self) -> (r: Option<Activation>)
        ensures
            match r {
                Some(a) => activation_of(self@, self.batch_list()) == Some(activation_view(a)),
                None => activation_of(self@, self.batch_list()) is None,
            },
    {
        match self.kind {
            Some(Overlay::QuickOpen) => {
                if self.selected >= self.quick.len() {
                    return None;
                }
                match &self.quick[self.selected] {
                    RepositoryResult::File { absolute, .. } => Some(
                        Activation::OpenSource { absolute: absolute.clone(), reveal: None },
                    ),
                    RepositoryResult::Symbol { absolute, line, .. } => Some(
                        Activation::OpenSource {
                            absolute: absolute.clone(),
                            reveal: Some(line.saturating_sub(1)),
                        },
                    ),
                    RepositoryResult::Commit { short_hash, subject, .. } => Some(
                        Activation::ShowCommit {
                            status: commit_status_of(short_hash.as_str(), subject.as_str()),
                        },
                    ),
                }
            },
            Some(Overlay::Palette) => {
                if self.selected >= self.commands.len() {
                    return None;
                }
                Some(Activation::Run(self.commands[self.selected]))
            },
            Some(Overlay::Search) => match nth_of(&self.batches, self.selected) {
                Some(h) => Some(
                    Activation::OpenHit {
                        absolute: h.absolute.clone(),
                        reveal: h.line.saturating_sub(1) as usize,
                    },
                ),
                None => None,
            },
            None => None,
        }
    }
}

/// Results of a search that was superseded are dropped: once the query
/// changes again, or the overlay closes, a batch of the earlier search is
/// refused.
pub proof fn lemma_superseded_batches_refused(
    v: OverlayView,
    first: Seq<char>,
    second: Seq<char>,
    size: int,
)
    requires
        v.kind == Some(Overlay::Search),
        byte_len(first) >= 2,
        refresh_fits(v, first),
        refresh_fits(refreshed(v, first).0, second),
    ensures
        ({
            let (w, g) = refreshed(v, first);
            &&& g is Some
            &&& batch_received(w, g.unwrap(), size).1
            &&& !batch_received(refreshed(w, second).0, g.unwrap(), size).1
            &&& !batch_received(closed_at(next_generation(w.generation)), g.unwrap(), size).1
        }),
{
}

/// Stepping down and back up returns to the same row.
pub proof fn lemma_step_down_then_up(v: OverlayView)
    requires
        result_count(v) > 0,
        0 <= v.selected < result_count(v),
    ensures
        stepped(stepped(v, 1), -1).selected == v.selected,
{
    let c = result_count(v);
    let s = v.selected;
    assert(result_count(stepped(v, 1)) == c);
    if s + 1 < c {
        vstd::arithmetic::div_mod::lemma_small_mod((s + 1) as nat, c as nat);
        vstd::arithmetic::div_mod::lemma_small_mod(s as nat, c as nat);
    } else {
        vstd::arithmetic::div_mod::lemma_fundamental_div_mod_converse(s + 1, c, 1, 0);
        vstd::arithmetic::div_mod::lemma_fundamental_div_mod_converse(-1, c, -1, c - 1);
    }
}

} // verus!
