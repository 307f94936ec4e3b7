//! The state behind the screen: what is selected, shown and remembered.

use crate::config::{names_of, Config, ConfigV};
use crate::diffview::{DiffDoc, DocV};
use crate::git::{
    commits, files_view, is_auto, smart_base, CommitInfo, CommitV, DiffSource, FileChange,
    FileStatus, FileV, SourceV, Worktree, WorktreeV,
};
use crate::names::Names;
use crate::paths::{components, file_name, name_of, same_path};
use crate::text::{opt_str, same, strs};
use crate::tree::{
    flat_rows, flat_view, law_flat_rows_name_files, law_tree_rows_name_files, rows_view, tree_rows,
    tree_view, Row, RowV,
};
use std::rc::Rc;
use vstd::prelude::*;
use vstd::string::*;

verus! {

// ---- Types -----------------------------------------------------------------------

/// A part of the screen that can have the focus.
#[derive(Clone, Copy, Debug, PartialEq, Eq, Structural)]
pub enum Area {
    Worktree,
    History,
    Tree,
    Diff,
}

/// What is remembered of a worktree, also while another one is selected.
#[derive(Debug)]
pub struct WtUi {
    /// 0: all changes, 1: what is not committed, 2 and up: commits, newest first
    pub hist_sel: usize,
    /// Paths of the directories that are collapsed
    pub collapsed: Names,
    pub cursor: usize,
    pub scroll: usize,
}

/// What is remembered of a worktree, as a mathematical value.
#[verifier::ext_equal]
pub struct WtUiV {
    pub hist_sel: usize,
    pub collapsed: Set<Seq<char>>,
    pub cursor: usize,
    pub scroll: usize,
}

impl View for WtUi {
    type V = WtUiV;

    open spec fn view(&self) -> WtUiV {
        WtUiV {
            hist_sel: self.hist_sel,
            collapsed: self.collapsed@,
            cursor: self.cursor,
            scroll: self.scroll,
        }
    }
}

/// What is remembered of a worktree that was never selected.
pub open spec fn fresh_ui() -> WtUiV {
    WtUiV { hist_sel: 0, collapsed: Set::empty(), cursor: 0, scroll: 0 }
}

impl Default for WtUi {
    fn default() -> (r: Self)
        ensures
            r@ == fresh_ui(),
    {
        WtUi { hist_sel: 0, collapsed: Names::new(), cursor: 0, scroll: 0 }
    }
}

/// A worktree with what has changed in it.
#[derive(Debug)]
pub struct WtData {
    pub info: Worktree,
    pub merge_base: Option<String>,
    pub commits: Vec<CommitInfo>,
    pub files: Vec<FileChange>,
    /// Totals of all changes
    pub all_totals: (u64, u64),
}

/// A worktree with what has changed in it, as a mathematical value.
#[verifier::ext_equal]
pub struct WtDataV {
    pub info: WorktreeV,
    pub merge_base: Option<Seq<char>>,
    pub commits: Seq<CommitV>,
    pub files: Seq<FileV>,
    pub all_totals: (u64, u64),
}

impl View for WtData {
    type V = WtDataV;

    open spec fn view(&self) -> WtDataV {
        WtDataV {
            info: self.info@,
            merge_base: opt_str(self.merge_base),
            commits: commits(self.commits@),
            files: files_view(self.files@),
            all_totals: self.all_totals,
        }
    }
}

/// The values of worktrees.
pub open spec fn wts_view(v: Seq<WtData>) -> Seq<WtDataV> {
    v.map_values(|w: WtData| w@)
}

/// What is remembered of each worktree, by the components of its path.
#[derive(Debug)]
pub struct UiStates {
    entries: Vec<(String, WtUi)>,
}

/// The map that entries stand for; of several with one path the first counts.
spec fn ui_map(v: Seq<(String, WtUi)>) -> Map<Seq<Seq<char>>, WtUiV>
    decreases v.len(),
{
    if v.len() == 0 {
        Map::empty()
    } else {
        ui_map(v.skip(1)).insert(components(v[0].0@), v[0].1@)
    }
}

impl View for UiStates {
    type V = Map<Seq<Seq<char>>, WtUiV>;

    closed spec fn view(&self) -> Map<Seq<Seq<char>>, WtUiV> {
        ui_map(self.entries@)
    }
}

/// The first entry for a path, if any.
proof fn lemma_ui_map(v: Seq<(String, WtUi)>, i: int, path: Seq<Seq<char>>)
    requires
        0 <= i <= v.len(),
        forall|k: int| 0 <= k < i ==> components((#[trigger] v[k]).0@) != path,
        i < v.len() ==> components(v[i].0@) == path,
    ensures
        i < v.len() ==> ui_map(v).dom().contains(path) && ui_map(v)[path] == v[i].1@,
        i == v.len() ==> !ui_map(v).dom().contains(path),
    decreases v.len(),
{
    if v.len() > 0 && i > 0 {
        let t = v.skip(1);
        assert forall|k: int| 0 <= k < i - 1 implies components((#[trigger] t[k]).0@) != path by {
            assert(t[k] == v[k + 1]);
        }
        if i < v.len() {
            assert(t[i - 1] == v[i]);
        }
        lemma_ui_map(t, i - 1, path);
        assert(components(v[0].0@) != path);
    }
}

/// Changing the first entry for a path changes the map there.
proof fn lemma_ui_map_update(v: Seq<(String, WtUi)>, i: int, path: Seq<Seq<char>>, x: (String, WtUi))
    requires
        0 <= i < v.len(),
        forall|k: int| 0 <= k < i ==> components((#[trigger] v[k]).0@) != path,
        components(v[i].0@) == path,
        components(x.0@) == path,
    ensures
        ui_map(v.update(i, x)) == ui_map(v).insert(path, x.1@),
    decreases v.len(),
{
    let w = v.update(i, x);
    if i == 0 {
        assert(w.skip(1) =~= v.skip(1));
    } else {
        let t = v.skip(1);
        assert forall|k: int| 0 <= k < i - 1 implies components((#[trigger] t[k]).0@) != path by {
            assert(t[k] == v[k + 1]);
        }
        assert(t[i - 1] == v[i]);
        lemma_ui_map_update(t, i - 1, path, x);
        assert(w.skip(1) =~= t.update(i - 1, x));
        assert(w[0] == v[0]);
        assert(components(v[0].0@) != path);
    }
    assert(ui_map(w) =~= ui_map(v).insert(path, x.1@));
}

impl UiStates {
    /// Nothing is remembered.
    pub fn new() -> (r: UiStates)
        ensures
            r@ == Map::<Seq<Seq<char>>, WtUiV>::empty(),
    {
        UiStates { entries: Vec::new() }
    }

    fn find(&self, path: &str) -> (r: usize)
        ensures
            r <= self.entries@.len(),
            forall|k: int| 0 <= k < r ==> components((#[trigger] self.entries@[k]).0@) != components(path@),
            r < self.entries@.len() ==> components(self.entries@[r as int].0@) == components(path@),
            r < self.entries@.len() ==> self@.dom().contains(components(path@)) && self@[components(path@)]
                == self.entries@[r as int].1@,
            r == self.entries@.len() ==> !self@.dom().contains(components(path@)),
    {
        let mut i: usize = 0;
        while i < self.entries.len() && !same_path(self.entries[i].0.as_str(), path)
            invariant
                i <= self.entries@.len(),
                forall|k: int| 0 <= k < i ==> components((#[trigger] self.entries@[k]).0@) != components(path@),
            decreases self.entries@.len() - i,
        {
            i += 1;
        }
        proof {
            lemma_ui_map(self.entries@, i as int, components(path@));
        }
        i
    }

    /// What is remembered of a worktree.
    pub fn get(&self, path: &str) -> (r: Option<&WtUi>)
        ensures
            match r {
                Some(u) => self@.dom().contains(components(path@)) && self@[components(path@)] == u@,
                None => !self@.dom().contains(components(path@)),
            },
    {
        let i = self.find(path);
        if i < self.entries.len() {
            Some(&self.entries[i].1)
        } else {
            None
        }
    }

    /// Remember `ui` of a worktree.
    pub fn set(&mut self, path: &str, ui: WtUi)
        ensures
            final(self)@ == old(self)@.insert(components(path@), ui@),
    {
        let i = self.find(path);
        let ghost v = self.entries@;
        let x = (path.to_string(), ui);
        if i < self.entries.len() {
            self.entries.remove(i);
            self.entries.insert(i, x);
            proof {
                assert(self.entries@ =~= v.update(i as int, x));
                lemma_ui_map_update(v, i as int, components(path@), x);
            }
        } else {
            self.entries.insert(0, x);
            proof {
                assert(self.entries@.skip(1) =~= v);
            }
        }
    }

    /// Take out what is remembered of a worktree, to change it and put it back.
    fn take(&mut self, path: &str) -> (r: Option<WtUi>)
        ensures
            match r {
                Some(u) => old(self)@.dom().contains(components(path@)) && old(self)@[components(path@)] == u@
                    && forall|w: WtUi|
                    #![trigger w@]
                    final(self)@.insert(components(path@), w@) == old(self)@.insert(components(path@), w@),
                None => !old(self)@.dom().contains(components(path@)) && final(self)@ == old(self)@,
            },
    {
        let i = self.find(path);
        if i < self.entries.len() {
            let ghost v = self.entries@;
            let (_, ui) = self.entries.remove(i);
            proof {
                lemma_ui_map_remove(v, i as int, components(path@));
                assert forall|w: WtUi|
                    #![trigger w@]
                    self@.insert(components(path@), w@) == old(self)@.insert(components(path@), w@) by {
                    assert(self@.insert(components(path@), w@) =~= self@.remove(components(path@)).insert(components(path@), w@));
                    assert(old(self)@.insert(components(path@), w@) =~= old(self)@.remove(components(path@)).insert(
                        components(path@),
                        w@,
                    ));
                }
            }
            Some(ui)
        } else {
            None
        }
    }

    /// Move the cursor of a worktree, if it is remembered.
    pub fn set_cursor(&mut self, path: &str, cursor: usize)
        ensures
            final(self)@ == (if old(self)@.dom().contains(components(path@)) {
                old(self)@.insert(components(path@), WtUiV { cursor, ..old(self)@[components(path@)] })
            } else {
                old(self)@
            }),
    {
        if let Some(ui) = self.take(path) {
            let mut ui = ui;
            ui.cursor = cursor;
            self.set(path, ui);
        }
    }

    /// Scroll the tree of a worktree, if it is remembered.
    pub fn set_scroll(&mut self, path: &str, scroll: usize)
        ensures
            final(self)@ == (if old(self)@.dom().contains(components(path@)) {
                old(self)@.insert(components(path@), WtUiV { scroll, ..old(self)@[components(path@)] })
            } else {
                old(self)@
            }),
    {
        if let Some(ui) = self.take(path) {
            let mut ui = ui;
            ui.scroll = scroll;
            self.set(path, ui);
        }
    }

    /// Select in the history of a worktree, if it is remembered.
    pub fn set_hist(&mut self, path: &str, hist_sel: usize)
        ensures
            final(self)@ == (if old(self)@.dom().contains(components(path@)) {
                old(self)@.insert(components(path@), WtUiV { hist_sel, ..old(self)@[components(path@)] })
            } else {
                old(self)@
            }),
    {
        if let Some(ui) = self.take(path) {
            let mut ui = ui;
            ui.hist_sel = hist_sel;
            self.set(path, ui);
        }
    }

    /// Collapse or expand a directory of a worktree, if it is remembered.
    pub fn fold(&mut self, path: &str, dir: &str, collapse: bool)
        ensures
            final(self)@ == (if old(self)@.dom().contains(components(path@)) {
                let u = old(self)@[components(path@)];
                old(self)@.insert(
                    components(path@),
                    WtUiV {
                        collapsed: if collapse {
                            u.collapsed.insert(dir@)
                        } else {
                            u.collapsed.remove(dir@)
                        },
                        ..u
                    },
                )
            } else {
                old(self)@
            }),
    {
        if let Some(ui) = self.take(path) {
            let mut ui = ui;
            if collapse {
                ui.collapsed.insert(dir.to_string());
            } else {
                ui.collapsed.remove(dir);
            }
            self.set(path, ui);
        }
    }
}

/// Without an entry for a path, a map is the same elsewhere.
proof fn lemma_ui_map_remove(v: Seq<(String, WtUi)>, i: int, path: Seq<Seq<char>>)
    requires
        0 <= i < v.len(),
        components(v[i].0@) == path,
    ensures
        ui_map(v.remove(i)).remove(path) == ui_map(v).remove(path),
    decreases v.len(),
{
    let r = v.remove(i);
    let t = v.skip(1);
    if i == 0 {
        assert(r =~= t);
    } else {
        assert(t[i - 1] == v[i]);
        lemma_ui_map_remove(t, i - 1, path);
        assert(r.skip(1) =~= t.remove(i - 1));
        assert(r[0] == v[0]);
        let k = components(v[0].0@);
        let x = v[0].1@;
        let a = ui_map(t.remove(i - 1));
        let b = ui_map(t);
        if k == path {
            assert(a.insert(k, x).remove(path) =~= a.remove(path));
            assert(b.insert(k, x).remove(path) =~= b.remove(path));
        } else {
            assert(a.insert(k, x).remove(path) =~= a.remove(path).insert(k, x));
            assert(b.insert(k, x).remove(path) =~= b.remove(path).insert(k, x));
        }
    }
    assert(ui_map(r).remove(path) =~= ui_map(v).remove(path));
}

/// What tells one version of a file's diff from another: when the file was modified, in
/// nanoseconds, and what the listings say of it.
#[derive(Debug)]
pub struct Fingerprint {
    pub mtime: u128,
    pub added: u64,
    pub deleted: u64,
    pub status: FileStatus,
    pub old_path: Option<String>,
}

/// What tells one version of a file's diff from another, as a mathematical value.
#[verifier::ext_equal]
pub struct FingerprintV {
    pub mtime: u128,
    pub added: u64,
    pub deleted: u64,
    pub status: FileStatus,
    pub old_path: Option<Seq<char>>,
}

impl View for Fingerprint {
    type V = FingerprintV;

    open spec fn view(&self) -> FingerprintV {
        FingerprintV {
            mtime: self.mtime,
            added: self.added,
            deleted: self.deleted,
            status: self.status,
            old_path: opt_str(self.old_path),
        }
    }
}

/// What a document is kept under: worktree, source, file, anchor, and version.
#[derive(Debug)]
pub struct DocKey {
    pub wt: String,
    pub source: DiffSource,
    pub path: String,
    pub mb: String,
    pub mark: Fingerprint,
}

/// What a document is kept under, as a mathematical value.
#[verifier::ext_equal]
pub struct DocKeyV {
    /// By its components
    pub wt: Seq<Seq<char>>,
    pub source: SourceV,
    pub path: Seq<char>,
    pub mb: Seq<char>,
    pub mark: FingerprintV,
}

impl View for DocKey {
    type V = DocKeyV;

    open spec fn view(&self) -> DocKeyV {
        DocKeyV {
            wt: components(self.wt@),
            source: self.source@,
            path: self.path@,
            mb: self.mb@,
            mark: self.mark@,
        }
    }
}

/// The value of an optional key.
pub open spec fn opt_key(k: Option<DocKey>) -> Option<DocKeyV> {
    match k {
        Some(k) => Some(k@),
        None => None,
    }
}

/// A document that is kept.
#[derive(Debug)]
pub struct DocEntry {
    pub key: DocKey,
    pub doc: Rc<DiffDoc>,
    /// Whether it is colored, or never will be
    pub hl_done: bool,
    /// The generation of its contents
    pub gen: u64,
}

/// A document that is kept, as a mathematical value.
#[verifier::ext_equal]
pub struct DocEntryV {
    pub key: DocKeyV,
    pub doc: DocV,
    pub hl_done: bool,
    pub gen: u64,
}

impl View for DocEntry {
    type V = DocEntryV;

    open spec fn view(&self) -> DocEntryV {
        DocEntryV { key: self.key@, doc: self.doc@, hl_done: self.hl_done, gen: self.gen }
    }
}

/// The values of documents that are kept.
pub open spec fn docs_view(v: Seq<DocEntry>) -> Seq<DocEntryV> {
    v.map_values(|e: DocEntry| e@)
}

/// What a table from rows to screen lines was made for: generation of the document, width,
/// whether lines are wrapped, and whether two sides are shown.
pub type LayoutKey = (u64, u16, bool, bool);

/// All state.
#[derive(Debug)]
pub struct App {
    pub cfg: Config,
    pub repo: String,
    pub repo_name: String,
    pub base: String,
    /// Whether the base branch was found out; a worktree on it is compared with its upstream
    pub smart_base: bool,
    pub wts: Vec<WtData>,
    pub ui_state: UiStates,
    pub sel_wt: usize,
    pub focus: Area,
    pub flat: bool,
    pub filter: String,
    pub filter_input: bool,
    pub follow: bool,
    /// The file that was followed last, and when it was modified
    pub last_followed: Option<(String, i128)>,
    pub sxs: bool,
    /// Whether long lines are wrapped
    pub wrap: bool,
    pub split_pct: u16,
    /// The first screen line of the diff that is shown
    pub diff_scroll: usize,
    /// A message and since when it is shown, in milliseconds
    pub status: Option<(String, u64)>,
    pub quit: bool,
    pub picker: Option<usize>,
    /// Whether the diff takes all of a narrow screen
    pub narrow_diff: bool,
    /// Whether all is to be drawn anew
    pub want_clear: bool,
    pub tree_height: usize,
    pub diff_height: usize,
    /// The furthest that the diff can be scrolled
    pub diff_max_scroll: usize,
    /// The screen line on which each row begins, and at the end their number
    pub row_offsets: Vec<usize>,
    pub layout_key: Option<LayoutKey>,
    /// The generation of the document that was shown last
    pub cur_doc_gen: u64,
    /// Whether two sides are shown
    pub effective_sxs: bool,
    pub narrow: bool,
    /// The documents that are kept, the one used last first
    pub docs: Vec<DocEntry>,
    pub cur_doc_key: Option<DocKey>,
    pub next_doc_gen: u64,
    pub initial_picked: bool,
}

/// All state, as a mathematical value.
pub struct AppV {
    pub cfg: ConfigV,
    pub repo: Seq<char>,
    pub repo_name: Seq<char>,
    pub base: Seq<char>,
    pub smart_base: bool,
    pub wts: Seq<WtDataV>,
    pub ui_state: Map<Seq<Seq<char>>, WtUiV>,
    pub sel_wt: usize,
    pub focus: Area,
    pub flat: bool,
    pub filter: Seq<char>,
    pub filter_input: bool,
    pub follow: bool,
    pub last_followed: Option<(Seq<char>, i128)>,
    pub sxs: bool,
    pub wrap: bool,
    pub split_pct: u16,
    pub diff_scroll: usize,
    pub status: Option<(Seq<char>, u64)>,
    pub quit: bool,
    pub picker: Option<usize>,
    pub narrow_diff: bool,
    pub want_clear: bool,
    pub tree_height: usize,
    pub diff_height: usize,
    pub diff_max_scroll: usize,
    pub row_offsets: Seq<usize>,
    pub layout_key: Option<LayoutKey>,
    pub cur_doc_gen: u64,
    pub effective_sxs: bool,
    pub narrow: bool,
    pub docs: Seq<DocEntryV>,
    pub cur_doc_key: Option<DocKeyV>,
    pub next_doc_gen: u64,
    pub initial_picked: bool,
}

/// A text with a number.
pub open spec fn tagged<T>(o: Option<(String, T)>) -> Option<(Seq<char>, T)> {
    match o {
        Some((s, t)) => Some((s@, t)),
        None => None,
    }
}

impl App {
    /// The state as a mathematical value.
    #[verifier::opaque]
    pub open spec fn view(&self) -> AppV {
        AppV {
            cfg: self.cfg@,
            repo: self.repo@,
            repo_name: self.repo_name@,
            base: self.base@,
            smart_base: self.smart_base,
            wts: wts_view(self.wts@),
            ui_state: self.ui_state@,
            sel_wt: self.sel_wt,
            focus: self.focus,
            flat: self.flat,
            filter: self.filter@,
            filter_input: self.filter_input,
            follow: self.follow,
            last_followed: tagged(self.last_followed),
            sxs: self.sxs,
            wrap: self.wrap,
            split_pct: self.split_pct,
            diff_scroll: self.diff_scroll,
            status: tagged(self.status),
            quit: self.quit,
            picker: self.picker,
            narrow_diff: self.narrow_diff,
            want_clear: self.want_clear,
            tree_height: self.tree_height,
            diff_height: self.diff_height,
            diff_max_scroll: self.diff_max_scroll,
            row_offsets: self.row_offsets@,
            layout_key: self.layout_key,
            cur_doc_gen: self.cur_doc_gen,
            effective_sxs: self.effective_sxs,
            narrow: self.narrow,
            docs: docs_view(self.docs@),
            cur_doc_key: opt_key(self.cur_doc_key),
            next_doc_gen: self.next_doc_gen,
            initial_picked: self.initial_picked,
        }
    }
}

// ---- What the state says ---------------------------------------------------------

/// `n`, moved into the range from `lo` to `hi`.
pub open spec fn clamped(n: u16, lo: u16, hi: u16) -> u16 {
    if n < lo {
        lo
    } else if n > hi {
        hi
    } else {
        n
    }
}

/// The state at the start.
pub open spec fn started(cfg: ConfigV, repo: Seq<char>, base: Seq<char>) -> AppV {
    AppV {
        cfg,
        repo,
        repo_name: match name_of(repo) {
            Some(n) => n,
            None => "?"@,
        },
        base,
        smart_base: is_auto(cfg.base),
        wts: seq![],
        ui_state: Map::empty(),
        sel_wt: 0,
        focus: Area::Tree,
        flat: false,
        filter: seq![],
        filter_input: false,
        follow: false,
        last_followed: None,
        sxs: true,
        wrap: cfg.wrap,
        split_pct: clamped(cfg.split_pct, 15, 85),
        diff_scroll: 0,
        status: None,
        quit: false,
        picker: None,
        narrow_diff: false,
        want_clear: false,
        tree_height: 0,
        diff_height: 0,
        diff_max_scroll: 0,
        row_offsets: seq![],
        layout_key: None,
        cur_doc_gen: 0,
        effective_sxs: false,
        narrow: false,
        docs: seq![],
        cur_doc_key: None,
        next_doc_gen: 1,
        initial_picked: false,
    }
}

/// The source of a selection in the history of commits.
pub open spec fn source_at(hist_sel: usize, commits: Seq<CommitV>) -> SourceV {
    if hist_sel == 0 {
        SourceV::All
    } else if hist_sel == 1 {
        SourceV::Current
    } else if hist_sel - 2 < commits.len() {
        SourceV::Commit(commits[hist_sel - 2].sha)
    } else {
        SourceV::All
    }
}

/// The source of a selection in the history of commits.
pub fn source_of(hist_sel: usize, history: &Vec<CommitInfo>) -> (r: DiffSource)
    ensures
        r@ == source_at(hist_sel, commits(history@)),
{
    if hist_sel == 0 {
        DiffSource::All
    } else if hist_sel == 1 {
        DiffSource::Current
    } else if hist_sel - 2 < history.len() {
        assert(commits(history@)[hist_sel - 2] == history@[hist_sel - 2]@);
        DiffSource::Commit(history[hist_sel - 2].sha.clone())
    } else {
        DiffSource::All
    }
}

/// The commit to compare with: the anchor, or the head where there is none.
pub open spec fn base_commit(merge_base: Option<Seq<char>>) -> Seq<char> {
    match merge_base {
        Some(m) => m,
        None => "HEAD"@,
    }
}

impl AppV {
    /// The worktree that is selected.
    pub open spec fn cur_wt(self) -> Option<WtDataV> {
        if self.sel_wt < self.wts.len() {
            Some(self.wts[self.sel_wt as int])
        } else {
            None
        }
    }

    /// The path of the worktree that is selected.
    pub open spec fn wt_path(self) -> Seq<char> {
        self.wts[self.sel_wt as int].info.path
    }

    /// What that path is told apart from others by.
    pub open spec fn wt_key(self) -> Seq<Seq<char>> {
        components(self.wt_path())
    }

    /// Whether something is remembered of the worktree that is selected.
    pub open spec fn has_ui(self) -> bool {
        self.sel_wt < self.wts.len() && self.ui_state.dom().contains(self.wt_key())
    }

    /// What is remembered of the worktree that is selected.
    pub open spec fn ui(self) -> WtUiV {
        self.ui_state[self.wt_key()]
    }

    /// The state with something else remembered of the worktree that is selected.
    #[verifier::opaque]
    pub open spec fn with_ui(self, u: WtUiV) -> AppV {
        AppV { ui_state: self.ui_state.insert(self.wt_key(), u), ..self }
    }

    /// The selection in the history.
    pub open spec fn hist(self) -> usize {
        if self.has_ui() {
            self.ui().hist_sel
        } else {
            0
        }
    }

    /// The history of the worktree that is selected.
    pub open spec fn history(self) -> Seq<CommitV> {
        match self.cur_wt() {
            Some(w) => w.commits,
            None => seq![],
        }
    }

    /// The source that is selected.
    pub open spec fn source(self) -> SourceV {
        source_at(self.hist(), self.history())
    }

    /// The changed files of the worktree that is selected.
    pub open spec fn files(self) -> Seq<FileV> {
        match self.cur_wt() {
            Some(w) => w.files,
            None => seq![],
        }
    }

    /// The rows of the file list.
    #[verifier::opaque]
    pub open spec fn rows(self) -> Seq<RowV> {
        if self.sel_wt >= self.wts.len() {
            seq![]
        } else if self.flat {
            flat_view(self.files(), self.filter)
        } else {
            tree_view(
                self.files(),
                if self.has_ui() {
                    self.ui().collapsed
                } else {
                    Set::empty()
                },
                self.filter,
            )
        }
    }

    /// The index of the file under the cursor.
    pub open spec fn selected(self) -> Option<usize> {
        if self.has_ui() && self.ui().cursor < self.rows().len() {
            self.rows()[self.ui().cursor as int].file_idx
        } else {
            None
        }
    }

    /// The file under the cursor.
    pub open spec fn selected_file(self) -> Option<FileV> {
        match self.selected() {
            Some(k) => Some(self.files()[k as int]),
            None => None,
        }
    }

    /// The number of entries in the history.
    pub open spec fn hist_len(self) -> nat {
        2 + self.history().len()
    }

    /// The state with another worktree selected.
    #[verifier::opaque]
    pub open spec fn with_wt(self, sel_wt: usize) -> AppV {
        AppV { sel_wt, ..self }
    }

    /// The state with or without the wish to end.
    #[verifier::opaque]
    pub open spec fn with_quit(self, quit: bool) -> AppV {
        AppV { quit, ..self }
    }

    /// The state with or without the wish for all to be drawn anew.
    #[verifier::opaque]
    pub open spec fn with_clear(self, want_clear: bool) -> AppV {
        AppV { want_clear, ..self }
    }

    /// The state with another selection among the openers.
    #[verifier::opaque]
    pub open spec fn with_picker(self, picker: Option<usize>) -> AppV {
        AppV { picker, ..self }
    }

    /// The state with a filter being typed or not.
    #[verifier::opaque]
    pub open spec fn with_typing(self, filter_input: bool) -> AppV {
        AppV { filter_input, ..self }
    }

    /// The state with two sides wanted or not.
    #[verifier::opaque]
    pub open spec fn with_sides(self, sxs: bool) -> AppV {
        AppV { sxs, ..self }
    }

    /// The state with long lines wrapped or not.
    #[verifier::opaque]
    pub open spec fn with_wrap(self, wrap: bool) -> AppV {
        AppV { wrap, ..self }
    }

    /// The state with a flat file list or not.
    #[verifier::opaque]
    pub open spec fn with_flat(self, flat: bool) -> AppV {
        AppV { flat, ..self }
    }

    /// The state with changes followed or not.
    #[verifier::opaque]
    pub open spec fn with_follow(self, follow: bool) -> AppV {
        AppV { follow, ..self }
    }

    /// The state with another width of the tree.
    #[verifier::opaque]
    pub open spec fn with_split(self, split_pct: u16) -> AppV {
        AppV { split_pct, ..self }
    }

    /// The state with the diff scrolled.
    #[verifier::opaque]
    pub open spec fn with_scroll(self, diff_scroll: usize) -> AppV {
        AppV { diff_scroll, ..self }
    }

    /// The state with another filter.
    #[verifier::opaque]
    pub open spec fn with_filter(self, filter: Seq<char>) -> AppV {
        AppV { filter, ..self }
    }

    /// The state with another message.
    #[verifier::opaque]
    pub open spec fn with_status(self, status: Option<(Seq<char>, u64)>) -> AppV {
        AppV { status, ..self }
    }

    /// The state with other documents kept.
    #[verifier::opaque]
    pub open spec fn with_docs(self, docs: Seq<DocEntryV>) -> AppV {
        AppV { docs, ..self }
    }

    /// The state with another document selected.
    #[verifier::opaque]
    pub open spec fn with_doc_key(self, cur_doc_key: Option<DocKeyV>) -> AppV {
        AppV { cur_doc_key, ..self }
    }

    /// The state with another generation shown.
    #[verifier::opaque]
    pub open spec fn with_doc_gen(self, cur_doc_gen: u64) -> AppV {
        AppV { cur_doc_gen, ..self }
    }

    /// The state with another next generation.
    #[verifier::opaque]
    pub open spec fn with_next_gen(self, next_doc_gen: u64) -> AppV {
        AppV { next_doc_gen, ..self }
    }

    /// The state with other worktrees.
    #[verifier::opaque]
    pub open spec fn with_wts(self, wts: Seq<WtDataV>) -> AppV {
        AppV { wts, ..self }
    }

    /// The state with the first choice of a worktree made or not.
    #[verifier::opaque]
    pub open spec fn with_picked(self, initial_picked: bool) -> AppV {
        AppV { initial_picked, ..self }
    }

    /// The state with another file followed last.
    #[verifier::opaque]
    pub open spec fn with_followed(self, last_followed: Option<(Seq<char>, i128)>) -> AppV {
        AppV { last_followed, ..self }
    }

    /// The state with something else remembered of a worktree.
    #[verifier::opaque]
    pub open spec fn with_ui_at(self, path: Seq<char>, u: WtUiV) -> AppV {
        AppV { ui_state: self.ui_state.insert(components(path), u), ..self }
    }

    /// The state with a narrow screen or not.
    #[verifier::opaque]
    pub open spec fn with_narrow(self, narrow: bool) -> AppV {
        AppV { narrow, ..self }
    }

    /// The state with the diff on all of a narrow screen or not.
    #[verifier::opaque]
    pub open spec fn with_narrow_diff(self, narrow_diff: bool) -> AppV {
        AppV { narrow_diff, ..self }
    }

    /// The state with another height of the tree.
    #[verifier::opaque]
    pub open spec fn with_tree_height(self, tree_height: usize) -> AppV {
        AppV { tree_height, ..self }
    }

    /// The state with another height of the diff.
    #[verifier::opaque]
    pub open spec fn with_diff_height(self, diff_height: usize) -> AppV {
        AppV { diff_height, ..self }
    }

    /// The state with another limit for scrolling.
    #[verifier::opaque]
    pub open spec fn with_max_scroll(self, diff_max_scroll: usize) -> AppV {
        AppV { diff_max_scroll, ..self }
    }

    /// The state with another table from rows to screen lines.
    #[verifier::opaque]
    pub open spec fn with_offsets(self, row_offsets: Seq<usize>) -> AppV {
        AppV { row_offsets, ..self }
    }

    /// The state with that table made for something else.
    #[verifier::opaque]
    pub open spec fn with_layout_key(self, layout_key: Option<LayoutKey>) -> AppV {
        AppV { layout_key, ..self }
    }

    /// The state with two sides shown or not.
    #[verifier::opaque]
    pub open spec fn with_shown_sides(self, effective_sxs: bool) -> AppV {
        AppV { effective_sxs, ..self }
    }

    /// The state with a message.
    pub open spec fn says(self, msg: Seq<char>, now: u64) -> AppV {
        self.with_status(Some((msg, now)))
    }

    /// The state with the cursor on a row, if there is one.
    #[verifier::opaque]
    pub open spec fn clamp_cursor(self) -> AppV {
        let len = self.rows().len();
        if self.has_ui() && len == 0 {
            self.with_ui(WtUiV { cursor: 0, ..self.ui() })
        } else if self.has_ui() && self.ui().cursor >= len {
            self.with_ui(WtUiV { cursor: (len - 1) as usize, ..self.ui() })
        } else {
            self
        }
    }

    /// The state with another worktree selected.
    #[verifier::opaque]
    pub open spec fn set_wt(self, i: int) -> AppV {
        if 0 <= i < self.wts.len() && i != self.sel_wt {
            self.with_wt(i as usize).with_scroll(0).clamp_cursor()
        } else {
            self
        }
    }

    /// The state with the cursor moved by `delta` rows, as far as there are rows.
    #[verifier::opaque]
    pub open spec fn move_cursor(self, delta: int) -> AppV {
        let len = self.rows().len();
        if self.has_ui() && len > 0 {
            let to = self.ui().cursor + delta;
            let cursor = if to < 0 {
                0
            } else if to > len - 1 {
                len - 1
            } else {
                to
            };
            self.with_ui(WtUiV { cursor: cursor as usize, ..self.ui() })
        } else {
            self
        }
    }

    /// Whether the diff takes all of a narrow screen: when it has the focus there.
    #[verifier::opaque]
    pub open spec fn sync_narrow_diff(self) -> AppV {
        AppV { narrow_diff: self.narrow && self.focus == Area::Diff, ..self }
    }

    /// The state with a directory collapsed or expanded.
    pub open spec fn fold(self, dir: Seq<char>, collapse: bool) -> AppV {
        let u = self.ui();
        self.with_ui(
            WtUiV {
                collapsed: if collapse {
                    u.collapsed.insert(dir)
                } else {
                    u.collapsed.remove(dir)
                },
                ..u
            },
        )
    }

    /// The state with other files in the worktree that is selected.
    #[verifier::opaque]
    pub open spec fn with_files(self, files: Seq<FileV>) -> AppV {
        if self.sel_wt < self.wts.len() {
            AppV {
                wts: self.wts.update(
                    self.sel_wt as int,
                    WtDataV { files, ..self.wts[self.sel_wt as int] },
                ),
                ..self
            }
        } else {
            self
        }
    }

    /// The state with another area in focus.
    #[verifier::opaque]
    pub open spec fn focus_on(self, area: Area) -> AppV {
        AppV { focus: area, ..self }
    }
}

/// The first index from `from` up whose row shows a file.
pub open spec fn next_file(rows: Seq<RowV>, from: int) -> Option<int>
    decreases rows.len() - from,
{
    if from < 0 || from >= rows.len() {
        None
    } else if rows[from].file_idx is Some {
        Some(from)
    } else {
        next_file(rows, from + 1)
    }
}

/// The first index from `from` down whose row shows a file.
pub open spec fn prev_file(rows: Seq<RowV>, from: int) -> Option<int>
    decreases from + 1,
{
    if from < 0 || from >= rows.len() {
        None
    } else if rows[from].file_idx is Some {
        Some(from)
    } else {
        prev_file(rows, from - 1)
    }
}

/// The first row that shows the file with a path.
pub open spec fn row_of_path(rows: Seq<RowV>, files: Seq<FileV>, path: Seq<char>) -> Option<int>
    decreases rows.len(),
{
    if rows.len() == 0 {
        None
    } else {
        match row_of_path(rows.drop_last(), files, path) {
            Some(i) => Some(i),
            None => match rows.last().file_idx {
                Some(k) => if files[k as int].path == path {
                    Some(rows.len() - 1)
                } else {
                    None
                },
                None => None,
            },
        }
    }
}

impl AppV {
    /// The state with the cursor on the next or the previous file, if there is one.
    #[verifier::opaque]
    pub open spec fn step_file(self, forward: bool) -> AppV {
        if self.has_ui() {
            let to = if forward {
                next_file(self.rows(), self.ui().cursor + 1)
            } else {
                prev_file(self.rows(), self.ui().cursor - 1)
            };
            match to {
                Some(i) => self.with_ui(WtUiV { cursor: i as usize, ..self.ui() }).with_scroll(0),
                None => self,
            }
        } else {
            self
        }
    }

    /// The state with the cursor on the file with a path, if a row shows it.
    #[verifier::opaque]
    pub open spec fn select_file_by_path(self, path: Seq<char>) -> AppV {
        match row_of_path(self.rows(), self.files(), path) {
            Some(i) => if self.has_ui() {
                self.with_ui(WtUiV { cursor: i as usize, ..self.ui() })
            } else {
                self
            },
            None => self,
        }
    }
}

// ---- Reading the state -----------------------------------------------------------

impl App {
    /// The state at the start. `base` is the base branch.
    pub fn new(cfg: Config, repo: String, base: String) -> (r: App)
        ensures
            r@ == started(cfg@, repo@, base@),
    {
        reveal(App::view);
        let repo_name = match file_name(repo.as_str()) {
            Some(n) => n,
            None => "?".to_string(),
        };
        let smart = smart_base(cfg.general.base.as_str());
        let pct = cfg.ui.split_pct;
        let split_pct: u16 = if pct < 15 {
            15
        } else if pct > 85 {
            85
        } else {
            pct
        };
        let wrap = cfg.ui.wrap;
        let r = App {
            cfg,
            repo,
            repo_name,
            base,
            smart_base: smart,
            wts: Vec::new(),
            ui_state: UiStates::new(),
            sel_wt: 0,
            focus: Area::Tree,
            flat: false,
            filter: String::new(),
            filter_input: false,
            follow: false,
            last_followed: None,
            sxs: true,
            wrap,
            split_pct,
            diff_scroll: 0,
            status: None,
            quit: false,
            picker: None,
            narrow_diff: false,
            want_clear: false,
            tree_height: 0,
            diff_height: 0,
            diff_max_scroll: 0,
            row_offsets: Vec::new(),
            layout_key: None,
            cur_doc_gen: 0,
            effective_sxs: false,
            narrow: false,
            docs: Vec::new(),
            cur_doc_key: None,
            next_doc_gen: 1,
            initial_picked: false,
        };
        proof {
            assert(r@.wts =~= Seq::<WtDataV>::empty());
            assert(r@.docs =~= Seq::<DocEntryV>::empty());
            assert(r@.filter =~= Seq::<char>::empty());
        }
        r
    }

    /// Show a message.
    pub fn set_status(&mut self, msg: &str, now: u64)
        ensures
            final(self)@ == old(self)@.says(msg@, now),
    {
        reveal(AppV::with_status);
        reveal(App::view);
        self.status = Some((msg.to_string(), now));
    }

    /// The worktree that is selected.
    pub fn cur_wt(&self) -> (r: Option<&WtData>)
        ensures
            match r {
                Some(w) => self@.cur_wt() == Some(w@) && *w == self.wts@[self.sel_wt as int],
                None => self@.cur_wt() is None,
            },
    {
        reveal(App::view);
        if self.sel_wt < self.wts.len() {
            assert(wts_view(self.wts@)[self.sel_wt as int] == self.wts@[self.sel_wt as int]@);
            Some(&self.wts[self.sel_wt])
        } else {
            None
        }
    }

    /// What is remembered of the worktree that is selected.
    pub fn cur_ui(&self) -> (r: Option<&WtUi>)
        ensures
            match r {
                Some(u) => self@.has_ui() && self@.ui() == u@,
                None => !self@.has_ui(),
            },
    {
        reveal(App::view);
        match self.cur_wt() {
            Some(w) => self.ui_state.get(w.info.path.as_str()),
            None => None,
        }
    }

    /// The selection in the history.
    pub fn hist_sel(&self) -> (r: usize)
        ensures
            r == self@.hist(),
    {
        reveal(App::view);
        match self.cur_ui() {
            Some(u) => u.hist_sel,
            None => 0,
        }
    }

    /// The number of entries in the history.
    pub fn hist_len(&self) -> (r: usize)
        ensures
            r as nat == crate::text::capped(self@.hist_len()),
    {
        reveal(App::view);
        match self.cur_wt() {
            Some(w) => {
                let n = w.commits.len();
                n.saturating_add(2)
            },
            None => 2,
        }
    }

    /// The source that is selected.
    pub fn source(&self) -> (r: DiffSource)
        ensures
            r@ == self@.source(),
    {
        reveal(App::view);
        let hist = self.hist_sel();
        match self.cur_wt() {
            Some(w) => source_of(hist, &w.commits),
            None => {
                let none: Vec<CommitInfo> = Vec::new();
                assert(commits(none@) =~= Seq::<CommitV>::empty());
                source_of(hist, &none)
            },
        }
    }

    /// The rows of the file list.
    pub fn rows(&self) -> (r: Vec<Row>)
        ensures
            rows_view(r@) == self@.rows(),
    {
        reveal(App::view);
        reveal(AppV::rows);
        match self.cur_wt() {
            None => {
                let none: Vec<Row> = Vec::new();
                assert(rows_view(none@) =~= Seq::<RowV>::empty());
                none
            },
            Some(w) => {
                if self.flat {
                    flat_rows(&w.files, self.filter.as_str())
                } else {
                    match self.cur_ui() {
                        Some(u) => tree_rows(&w.files, &u.collapsed, self.filter.as_str()),
                        None => {
                            let none = Names::new();
                            tree_rows(&w.files, &none, self.filter.as_str())
                        },
                    }
                }
            },
        }
    }

    /// The file under the cursor.
    pub fn selected_file(&self) -> (r: Option<&FileChange>)
        ensures
            match r {
                Some(f) => self@.selected_file() == Some(f@),
                None => self@.selected_file() is None,
            },
    {
        reveal(App::view);
        let rows = self.rows();
        let ui = match self.cur_ui() {
            Some(u) => u,
            None => {
                return None;
            },
        };
        if ui.cursor >= rows.len() {
            return None;
        }
        assert(rows_view(rows@)[ui.cursor as int] == rows@[ui.cursor as int]@);
        match rows[ui.cursor].file_idx {
            Some(k) => match self.cur_wt() {
                Some(w) => {
                    let n = w.files.len();
                    proof {
                        lemma_rows_in_range(self@);
                        assert(files_view(w.files@)[k as int] == w.files@[k as int]@);
                    }
                    Some(&w.files[k])
                },
                None => None,
            },
            None => None,
        }
    }

    /// The names of the openers.
    pub fn opener_names(&self) -> (r: Vec<String>)
        ensures
            strs(r@) == names_of(self@.cfg.openers),
    {
        reveal(App::view);
        self.cfg.open.openers.names()
    }
}

/// What rows say of files is right: an index is one of a file.
pub proof fn lemma_rows_in_range(a: AppV)
    requires
        a.files().len() <= usize::MAX,
    ensures
        forall|i: int|
            0 <= i < a.rows().len() ==> ((#[trigger] a.rows()[i]).file_idx matches Some(k) ==> k
                < a.files().len()),
{
    let collapsed = if a.has_ui() {
        a.ui().collapsed
    } else {
        Set::empty()
    };
    reveal(AppV::rows);
    law_flat_rows_name_files(a.files(), a.filter);
    law_tree_rows_name_files(a.files(), collapsed, a.filter);
}

impl App {
    /// The number of worktrees.
    pub fn wt_count(&self) -> (r: usize)
        ensures
            r == self@.wts.len(),
    {
        reveal(App::view);
        self.wts.len()
    }

    /// The index of the worktree that is selected.
    pub fn selected_wt(&self) -> (r: usize)
        ensures
            r == self@.sel_wt,
    {
        reveal(App::view);
        self.sel_wt
    }

    /// The area that has the focus.
    pub fn focused(&self) -> (r: Area)
        ensures
            r == self@.focus,
    {
        reveal(App::view);
        self.focus
    }

    /// Whether the file list is flat.
    pub fn is_flat(&self) -> (r: bool)
        ensures
            r == self@.flat,
    {
        reveal(App::view);
        self.flat
    }

    /// Whether a filter is typed.
    pub fn is_typing(&self) -> (r: bool)
        ensures
            r == self@.filter_input,
    {
        reveal(App::view);
        self.filter_input
    }

    /// Whether changes are followed.
    pub fn is_following(&self) -> (r: bool)
        ensures
            r == self@.follow,
    {
        reveal(App::view);
        self.follow
    }

    /// Whether two sides are wanted.
    pub fn wants_sides(&self) -> (r: bool)
        ensures
            r == self@.sxs,
    {
        reveal(App::view);
        self.sxs
    }

    /// Whether long lines are wrapped.
    pub fn wraps(&self) -> (r: bool)
        ensures
            r == self@.wrap,
    {
        reveal(App::view);
        self.wrap
    }

    /// The selection among the openers.
    pub fn picked(&self) -> (r: Option<usize>)
        ensures
            r == self@.picker,
    {
        reveal(App::view);
        self.picker
    }

    /// The width of the tree, in percent.
    pub fn split(&self) -> (r: u16)
        ensures
            r == self@.split_pct,
    {
        reveal(App::view);
        self.split_pct
    }

    /// The first screen line of the diff that is shown.
    pub fn scrolled(&self) -> (r: usize)
        ensures
            r == self@.diff_scroll,
    {
        reveal(App::view);
        self.diff_scroll
    }

    /// The furthest that the diff can be scrolled.
    pub fn max_scroll(&self) -> (r: usize)
        ensures
            r == self@.diff_max_scroll,
    {
        reveal(App::view);
        self.diff_max_scroll
    }

    /// The screen lines of the diff.
    pub fn page(&self) -> (r: usize)
        ensures
            r == self@.diff_height,
    {
        reveal(App::view);
        self.diff_height
    }

    /// The documents that are kept.
    pub fn kept_docs(&self) -> (r: &Vec<DocEntry>)
        ensures
            docs_view(r@) == self@.docs,
    {
        reveal(App::view);
        &self.docs
    }

    /// Which document is selected.
    pub fn doc_key_now(&self) -> (r: &Option<DocKey>)
        ensures
            opt_key(*r) == self@.cur_doc_key,
    {
        reveal(App::view);
        &self.cur_doc_key
    }

    /// The next generation.
    pub fn next_gen(&self) -> (r: u64)
        ensures
            r == self@.next_doc_gen,
    {
        reveal(App::view);
        self.next_doc_gen
    }

    /// The screen line on which each row begins.
    pub fn offsets(&self) -> (r: &Vec<usize>)
        ensures
            r@ == self@.row_offsets,
    {
        reveal(App::view);
        &self.row_offsets
    }

    /// Whether two sides are shown.
    pub fn shows_sides(&self) -> (r: bool)
        ensures
            r == self@.effective_sxs,
    {
        reveal(App::view);
        self.effective_sxs
    }

    /// The worktrees.
    pub fn worktrees(&self) -> (r: &Vec<WtData>)
        ensures
            wts_view(r@) == self@.wts,
    {
        reveal(App::view);
        &self.wts
    }

    /// Whether the first choice of a worktree was made.
    pub fn has_picked(&self) -> (r: bool)
        ensures
            r == self@.initial_picked,
    {
        reveal(App::view);
        self.initial_picked
    }

    /// The file that was followed last, and when it was modified.
    pub fn followed(&self) -> (r: &Option<(String, i128)>)
        ensures
            tagged(*r) == self@.last_followed,
    {
        reveal(App::view);
        &self.last_followed
    }

    /// What is remembered of a worktree.
    pub fn ui_at(&self, path: &str) -> (r: Option<&WtUi>)
        ensures
            match r {
                Some(u) => self@.ui_state.dom().contains(components(path@))
                    && self@.ui_state[components(path@)] == u@,
                None => !self@.ui_state.dom().contains(components(path@)),
            },
    {
        reveal(App::view);
        self.ui_state.get(path)
    }

    /// The configuration.
    pub fn config(&self) -> (r: &Config)
        ensures
            r@ == self@.cfg,
    {
        reveal(App::view);
        &self.cfg
    }

    /// The top of the repository.
    pub fn repo_path(&self) -> (r: &String)
        ensures
            r@ == self@.repo,
    {
        reveal(App::view);
        &self.repo
    }

    /// The base branch.
    pub fn base_branch(&self) -> (r: &String)
        ensures
            r@ == self@.base,
    {
        reveal(App::view);
        &self.base
    }

    /// The name of the repository.
    pub fn name(&self) -> (r: &String)
        ensures
            r@ == self@.repo_name,
    {
        reveal(App::view);
        &self.repo_name
    }

    /// The message, and since when it is shown.
    pub fn message(&self) -> (r: &Option<(String, u64)>)
        ensures
            tagged(*r) == self@.status,
    {
        reveal(App::view);
        &self.status
    }

    /// Whether the screen is narrow.
    pub fn is_narrow(&self) -> (r: bool)
        ensures
            r == self@.narrow,
    {
        reveal(App::view);
        self.narrow
    }

    /// Whether the diff takes all of a narrow screen.
    pub fn diff_fills(&self) -> (r: bool)
        ensures
            r == self@.narrow_diff,
    {
        reveal(App::view);
        self.narrow_diff
    }

    /// What the table from rows to screen lines was made for.
    pub fn layout_made_for(&self) -> (r: Option<LayoutKey>)
        ensures
            r == self@.layout_key,
    {
        reveal(App::view);
        self.layout_key
    }

    /// The generation of the document that was shown last.
    pub fn doc_gen(&self) -> (r: u64)
        ensures
            r == self@.cur_doc_gen,
    {
        reveal(App::view);
        self.cur_doc_gen
    }

    /// The filter.
    pub fn filter_text(&self) -> (r: &String)
        ensures
            r@ == self@.filter,
    {
        reveal(App::view);
        &self.filter
    }
}

// ---- Changing the selection ------------------------------------------------------

impl App {
    /// Set the index of the worktree that is selected.
    pub fn put_wt(&mut self, sel_wt: usize)
        ensures
            final(self)@ == old(self)@.with_wt(sel_wt),
    {
        reveal(AppV::with_wt);
        reveal(App::view);
        self.sel_wt = sel_wt;
    }

    /// Set the documents that are kept.
    pub fn put_docs(&mut self, docs: Vec<DocEntry>)
        ensures
            final(self)@ == old(self)@.with_docs(docs_view(docs@)),
    {
        reveal(AppV::with_docs);
        reveal(App::view);
        self.docs = docs;
    }

    /// Take the documents that are kept, to put them back changed.
    pub fn take_docs(&mut self) -> (r: Vec<DocEntry>)
        ensures
            docs_view(r@) == old(self)@.docs,
            forall|v: Seq<DocEntryV>|
                #![trigger final(self)@.with_docs(v)]
                final(self)@.with_docs(v) == old(self)@.with_docs(v),
    {
        reveal(AppV::with_docs);
        reveal(App::view);
        let mut docs: Vec<DocEntry> = Vec::new();
        std::mem::swap(&mut docs, &mut self.docs);
        docs
    }

    /// Set which document is selected.
    pub fn put_doc_key(&mut self, key: Option<DocKey>)
        ensures
            final(self)@ == old(self)@.with_doc_key(opt_key(key)),
    {
        reveal(AppV::with_doc_key);
        reveal(App::view);
        self.cur_doc_key = key;
    }

    /// Set the generation that is shown.
    pub fn put_doc_gen(&mut self, cur_doc_gen: u64)
        ensures
            final(self)@ == old(self)@.with_doc_gen(cur_doc_gen),
    {
        reveal(AppV::with_doc_gen);
        reveal(App::view);
        self.cur_doc_gen = cur_doc_gen;
    }

    /// Set the next generation.
    pub fn put_next_gen(&mut self, next_doc_gen: u64)
        ensures
            final(self)@ == old(self)@.with_next_gen(next_doc_gen),
    {
        reveal(AppV::with_next_gen);
        reveal(App::view);
        self.next_doc_gen = next_doc_gen;
    }

    /// Set the worktrees.
    pub fn put_wts(&mut self, wts: Vec<WtData>)
        ensures
            final(self)@ == old(self)@.with_wts(wts_view(wts@)),
    {
        reveal(AppV::with_wts);
        reveal(App::view);
        self.wts = wts;
    }

    /// Note that the first choice of a worktree was made.
    pub fn put_picked(&mut self)
        ensures
            final(self)@ == old(self)@.with_picked(true),
    {
        reveal(AppV::with_picked);
        reveal(App::view);
        self.initial_picked = true;
    }

    /// Set the file that was followed last.
    pub fn put_followed(&mut self, path: String, mtime: i128)
        ensures
            final(self)@ == old(self)@.with_followed(Some((path@, mtime))),
    {
        reveal(AppV::with_followed);
        reveal(App::view);
        self.last_followed = Some((path, mtime));
    }

    /// Remember something of a worktree.
    pub fn put_ui_at(&mut self, path: &str, ui: WtUi)
        ensures
            final(self)@ == old(self)@.with_ui_at(path@, ui@),
    {
        reveal(AppV::with_ui_at);
        reveal(App::view);
        self.ui_state.set(path, ui);
    }

    /// Select in the history of a worktree that is remembered.
    pub fn put_hist_at(&mut self, path: &str, hist_sel: usize)
        requires
            old(self)@.ui_state.dom().contains(components(path@)),
        ensures
            final(self)@ == old(self)@.with_ui_at(
                path@,
                WtUiV { hist_sel, ..old(self)@.ui_state[components(path@)] },
            ),
    {
        reveal(AppV::with_ui_at);
        reveal(App::view);
        self.ui_state.set_hist(path, hist_sel);
    }

    /// Set whether the screen is narrow.
    pub fn put_narrow(&mut self, narrow: bool)
        ensures
            final(self)@ == old(self)@.with_narrow(narrow),
    {
        reveal(AppV::with_narrow);
        reveal(App::view);
        self.narrow = narrow;
    }

    /// Set whether the diff takes all of a narrow screen.
    pub fn put_narrow_diff(&mut self, narrow_diff: bool)
        ensures
            final(self)@ == old(self)@.with_narrow_diff(narrow_diff),
    {
        reveal(AppV::with_narrow_diff);
        reveal(App::view);
        self.narrow_diff = narrow_diff;
    }

    /// Set the height of the tree.
    pub fn put_tree_height(&mut self, tree_height: usize)
        ensures
            final(self)@ == old(self)@.with_tree_height(tree_height),
    {
        reveal(AppV::with_tree_height);
        reveal(App::view);
        self.tree_height = tree_height;
    }

    /// Set the height of the diff.
    pub fn put_diff_height(&mut self, diff_height: usize)
        ensures
            final(self)@ == old(self)@.with_diff_height(diff_height),
    {
        reveal(AppV::with_diff_height);
        reveal(App::view);
        self.diff_height = diff_height;
    }

    /// Set the limit for scrolling.
    pub fn put_max_scroll(&mut self, diff_max_scroll: usize)
        ensures
            final(self)@ == old(self)@.with_max_scroll(diff_max_scroll),
    {
        reveal(AppV::with_max_scroll);
        reveal(App::view);
        self.diff_max_scroll = diff_max_scroll;
    }

    /// Set the table from rows to screen lines.
    pub fn put_offsets(&mut self, row_offsets: Vec<usize>)
        ensures
            final(self)@ == old(self)@.with_offsets(row_offsets@),
    {
        reveal(AppV::with_offsets);
        reveal(App::view);
        self.row_offsets = row_offsets;
    }

    /// Set what that table was made for.
    pub fn put_layout_key(&mut self, layout_key: Option<LayoutKey>)
        ensures
            final(self)@ == old(self)@.with_layout_key(layout_key),
    {
        reveal(AppV::with_layout_key);
        reveal(App::view);
        self.layout_key = layout_key;
    }

    /// Set whether two sides are shown.
    pub fn put_shown_sides(&mut self, effective_sxs: bool)
        ensures
            final(self)@ == old(self)@.with_shown_sides(effective_sxs),
    {
        reveal(AppV::with_shown_sides);
        reveal(App::view);
        self.effective_sxs = effective_sxs;
    }

    /// Put the focus on an area.
    pub fn go_to(&mut self, area: Area)
        ensures
            final(self)@ == old(self)@.focus_on(area),
    {
        reveal(AppV::focus_on);
        reveal(App::view);
        self.focus = area;
    }

    /// Ask to end.
    pub fn ask_quit(&mut self)
        ensures
            final(self)@ == old(self)@.with_quit(true),
    {
        reveal(AppV::with_quit);
        reveal(App::view);
        self.quit = true;
    }

    /// Ask for all to be drawn anew.
    pub fn ask_clear(&mut self)
        ensures
            final(self)@ == old(self)@.with_clear(true),
    {
        reveal(AppV::with_clear);
        reveal(App::view);
        self.want_clear = true;
    }

    /// Set the selection among the openers.
    pub fn pick(&mut self, picker: Option<usize>)
        ensures
            final(self)@ == old(self)@.with_picker(picker),
    {
        reveal(AppV::with_picker);
        reveal(App::view);
        self.picker = picker;
    }

    /// Set whether a filter is typed.
    pub fn type_filter(&mut self, filter_input: bool)
        ensures
            final(self)@ == old(self)@.with_typing(filter_input),
    {
        reveal(AppV::with_typing);
        reveal(App::view);
        self.filter_input = filter_input;
    }

    /// Set whether two sides are wanted.
    pub fn show_sides(&mut self, sxs: bool)
        ensures
            final(self)@ == old(self)@.with_sides(sxs),
    {
        reveal(AppV::with_sides);
        reveal(App::view);
        self.sxs = sxs;
    }

    /// Set whether long lines are wrapped.
    pub fn wrap_lines(&mut self, wrap: bool)
        ensures
            final(self)@ == old(self)@.with_wrap(wrap),
    {
        reveal(AppV::with_wrap);
        reveal(App::view);
        self.wrap = wrap;
    }

    /// Set whether the file list is flat.
    pub fn show_flat(&mut self, flat: bool)
        ensures
            final(self)@ == old(self)@.with_flat(flat),
    {
        reveal(AppV::with_flat);
        reveal(App::view);
        self.flat = flat;
    }

    /// Set whether changes are followed.
    pub fn follow_changes(&mut self, follow: bool)
        ensures
            final(self)@ == old(self)@.with_follow(follow),
    {
        reveal(AppV::with_follow);
        reveal(App::view);
        self.follow = follow;
    }

    /// Set the width of the tree.
    pub fn split_at(&mut self, split_pct: u16)
        ensures
            final(self)@ == old(self)@.with_split(split_pct),
    {
        reveal(AppV::with_split);
        reveal(App::view);
        self.split_pct = split_pct;
    }

    /// Scroll the diff.
    pub fn scroll_diff(&mut self, diff_scroll: usize)
        ensures
            final(self)@ == old(self)@.with_scroll(diff_scroll),
    {
        reveal(AppV::with_scroll);
        reveal(App::view);
        self.diff_scroll = diff_scroll;
    }

    /// Set the filter.
    pub fn put_filter(&mut self, filter: String)
        ensures
            final(self)@ == old(self)@.with_filter(filter@),
    {
        reveal(AppV::with_filter);
        reveal(App::view);
        self.filter = filter;
    }

    /// Take the message away.
    pub fn clear_status(&mut self)
        ensures
            final(self)@ == old(self)@.with_status(None),
    {
        reveal(AppV::with_status);
        reveal(App::view);
        self.status = None;
    }
}

impl App {
    /// Move the cursor of the worktree that is selected.
    pub fn put_cursor(&mut self, cursor: usize)
        ensures
            final(self)@ == (if old(self)@.has_ui() {
                old(self)@.with_ui(WtUiV { cursor, ..old(self)@.ui() })
            } else {
                old(self)@
            }),
    {
        reveal(AppV::with_ui);
        reveal(App::view);
        if self.sel_wt < self.wts.len() {
            let path = self.wts[self.sel_wt].info.path.clone();
            assert(path@ == self@.wt_path());
            self.ui_state.set_cursor(path.as_str(), cursor);
        }
    }

    /// Select in the history of the worktree that is selected.
    pub fn put_hist(&mut self, hist_sel: usize)
        ensures
            final(self)@ == (if old(self)@.has_ui() {
                old(self)@.with_ui(WtUiV { hist_sel, ..old(self)@.ui() })
            } else {
                old(self)@
            }),
    {
        reveal(AppV::with_ui);
        reveal(App::view);
        if self.sel_wt < self.wts.len() {
            let path = self.wts[self.sel_wt].info.path.clone();
            assert(path@ == self@.wt_path());
            self.ui_state.set_hist(path.as_str(), hist_sel);
        }
    }

    /// Scroll the tree of the worktree that is selected.
    pub fn put_scroll(&mut self, scroll: usize)
        ensures
            final(self)@ == (if old(self)@.has_ui() {
                old(self)@.with_ui(WtUiV { scroll, ..old(self)@.ui() })
            } else {
                old(self)@
            }),
    {
        reveal(AppV::with_ui);
        reveal(App::view);
        if self.sel_wt < self.wts.len() {
            let path = self.wts[self.sel_wt].info.path.clone();
            assert(path@ == self@.wt_path());
            self.ui_state.set_scroll(path.as_str(), scroll);
        }
    }

    /// Collapse or expand a directory of the worktree that is selected.
    pub fn put_fold(&mut self, dir: &str, collapse: bool)
        ensures
            final(self)@ == (if old(self)@.has_ui() {
                old(self)@.fold(dir@, collapse)
            } else {
                old(self)@
            }),
    {
        reveal(AppV::with_ui);
        reveal(App::view);
        if self.sel_wt < self.wts.len() {
            let path = self.wts[self.sel_wt].info.path.clone();
            assert(path@ == self@.wt_path());
            self.ui_state.fold(path.as_str(), dir, collapse);
        }
    }

    /// Replace the files of the worktree that is selected.
    pub fn put_files(&mut self, files: Vec<FileChange>)
        ensures
            final(self)@ == old(self)@.with_files(files_view(files@)),
    {
        reveal(AppV::with_files);
        reveal(App::view);
        if self.sel_wt < self.wts.len() {
            let i = self.sel_wt;
            let ghost wts = self.wts@;
            let mut w = self.wts.remove(i);
            w.files = files;
            self.wts.insert(i, w);
            proof {
                assert(wts_view(wts)[i as int] == wts[i as int]@);
                assert(wts_view(self.wts@) =~= wts_view(wts).update(i as int, w@));
            }
        }
    }

    /// Put the cursor on a row, if there is one.
    pub fn clamp_cursor(&mut self)
        ensures
            final(self)@ == old(self)@.clamp_cursor(),
    {
        reveal(AppV::clamp_cursor);
        let rows = self.rows();
        let len = rows.len();
        let cursor = match self.cur_ui() {
            Some(u) => u.cursor,
            None => {
                return;
            },
        };
        if len == 0 {
            self.put_cursor(0);
        } else if cursor >= len {
            self.put_cursor(len - 1);
        }
    }

    /// Select a worktree.
    pub fn set_wt(&mut self, i: usize)
        ensures
            final(self)@ == old(self)@.set_wt(i as int),
    {
        reveal(AppV::set_wt);
        if i < self.wt_count() && i != self.selected_wt() {
            self.put_wt(i);
            self.scroll_diff(0);
            self.clamp_cursor();
        }
    }

    /// Move the cursor one row down or up.
    pub fn move_cursor(&mut self, down: bool)
        ensures
            final(self)@ == old(self)@.move_cursor(
                if down {
                    1
                } else {
                    -1
                },
            ),
    {
        reveal(AppV::move_cursor);
        let rows = self.rows();
        let len = rows.len();
        let cursor = match self.cur_ui() {
            Some(u) => u.cursor,
            None => {
                return;
            },
        };
        if len > 0 {
            let to = if down {
                if cursor >= len - 1 {
                    len - 1
                } else {
                    cursor + 1
                }
            } else if cursor == 0 {
                0
            } else if cursor - 1 > len - 1 {
                len - 1
            } else {
                cursor - 1
            };
            self.put_cursor(to);
        }
    }

    /// Note whether the diff takes all of a narrow screen.
    pub fn sync_narrow_diff(&mut self)
        ensures
            final(self)@ == old(self)@.sync_narrow_diff(),
    {
        reveal(AppV::sync_narrow_diff);
        reveal(App::view);
        self.narrow_diff = self.narrow && self.focus == Area::Diff;
    }

    /// Step to the next or the previous file.
    pub fn step_file(&mut self, forward: bool)
        ensures
            final(self)@ == old(self)@.step_file(forward),
    {
        reveal(AppV::step_file);
        let rows = self.rows();
        let cursor = match self.cur_ui() {
            Some(u) => u.cursor,
            None => {
                return;
            },
        };
        let to = if forward {
            find_next(&rows, cursor)
        } else {
            find_prev(&rows, cursor)
        };
        if let Some(i) = to {
            self.put_cursor(i);
            self.scroll_diff(0);
        }
    }

    /// Put the cursor on the file with a path, if a row shows it.
    pub fn select_file_by_path(&mut self, path: &str)
        ensures
            final(self)@ == old(self)@.select_file_by_path(path@),
    {
        reveal(AppV::select_file_by_path);
        let rows = self.rows();
        let to = match self.cur_wt() {
            Some(w) => {
                let n = w.files.len();
                proof {
                    lemma_rows_in_range(self@);
                }
                find_path(&rows, &w.files, path)
            },
            None => {
                assert(self@.rows() =~= Seq::<RowV>::empty()) by {
                    reveal(AppV::rows);
                }
                return;
            },
        };
        if let Some(i) = to {
            self.put_cursor(i);
        }
    }
}

fn find_next(rows: &Vec<Row>, cursor: usize) -> (r: Option<usize>)
    ensures
        match r {
            Some(i) => next_file(rows_view(rows@), cursor + 1) == Some(i as int),
            None => next_file(rows_view(rows@), cursor + 1) is None,
        },
{
    let ghost rv = rows_view(rows@);
    if cursor >= rows.len() {
        return None;
    }
    let mut i: usize = cursor + 1;
    while i < rows.len()
        invariant
            rv == rows_view(rows@),
            cursor < i <= rows@.len(),
            next_file(rv, cursor + 1) == next_file(rv, i as int),
        decreases rows@.len() - i,
    {
        assert(rv[i as int] == rows@[i as int]@);
        if rows[i].file_idx.is_some() {
            return Some(i);
        }
        i += 1;
    }
    None
}

fn find_prev(rows: &Vec<Row>, cursor: usize) -> (r: Option<usize>)
    ensures
        match r {
            Some(i) => prev_file(rows_view(rows@), cursor - 1) == Some(i as int),
            None => prev_file(rows_view(rows@), cursor - 1) is None,
        },
{
    let ghost rv = rows_view(rows@);
    if cursor > rows.len() {
        return None;
    }
    let mut i: usize = cursor;
    while i > 0
        invariant
            rv == rows_view(rows@),
            i <= cursor <= rows@.len(),
            prev_file(rv, cursor - 1) == prev_file(rv, i - 1),
        decreases i,
    {
        assert(rv[i - 1] == rows@[i - 1]@);
        if rows[i - 1].file_idx.is_some() {
            return Some(i - 1);
        }
        i -= 1;
    }
    None
}

fn find_path(rows: &Vec<Row>, files: &Vec<FileChange>, path: &str) -> (r: Option<usize>)
    requires
        forall|k: int|
            0 <= k < rows@.len() ==> ((#[trigger] rows_view(rows@)[k]).file_idx matches Some(x)
                ==> x < files@.len()),
    ensures
        match r {
            Some(i) => row_of_path(rows_view(rows@), files_view(files@), path@) == Some(i as int),
            None => row_of_path(rows_view(rows@), files_view(files@), path@) is None,
        },
{
    let ghost rv = rows_view(rows@);
    let ghost fs = files_view(files@);
    let mut i: usize = 0;
    assert(rv.take(0) =~= Seq::<RowV>::empty());
    while i < rows.len()
        invariant
            rv == rows_view(rows@),
            fs == files_view(files@),
            forall|k: int|
                0 <= k < rows@.len() ==> ((#[trigger] rv[k]).file_idx matches Some(x) ==> x
                    < files@.len()),
            i <= rows@.len(),
            row_of_path(rv.take(i as int), fs, path@) is None,
        decreases rows@.len() - i,
    {
        proof {
            assert(rv[i as int] == rows@[i as int]@);
            assert(rv.take(i + 1).drop_last() =~= rv.take(i as int));
            assert(rv.take(i + 1).last() == rv[i as int]);
        }
        if let Some(k) = rows[i].file_idx {
            assert(fs[k as int] == files@[k as int]@);
            if same(files[k].path.as_str(), path) {
                proof {
                    assert(row_of_path(rv.take(i + 1), fs, path@) == Some(i as int));
                    lemma_row_of_path(rv, i + 1, fs, path@);
                }
                return Some(i);
            }
        }
        i += 1;
    }
    assert(rv.take(rv.len() as int) =~= rv);
    None
}

proof fn lemma_row_of_path(rows: Seq<RowV>, n: int, files: Seq<FileV>, path: Seq<char>)
    requires
        0 <= n <= rows.len(),
        row_of_path(rows.take(n), files, path) is Some,
    ensures
        row_of_path(rows, files, path) == row_of_path(rows.take(n), files, path),
    decreases rows.len(),
{
    if n == rows.len() {
        assert(rows.take(n) =~= rows);
    } else {
        assert(rows.drop_last().take(n) =~= rows.take(n));
        lemma_row_of_path(rows.drop_last(), n, files, path);
    }
}

} // verus!