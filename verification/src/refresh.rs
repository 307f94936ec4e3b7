//! Taking in what the repository looks like now, following changes, and opening files.

use crate::app::{
    base_commit, fresh_ui, source_at, source_of, tagged, wts_view, App, AppV, WtData, WtDataV, WtUi, WtUiV,
};
use crate::config::{opener_named, Opener};
use crate::git::{
    commits, commits_args, commits_in, commits_question, commits_since, files_view, totals,
    totals_of, CommitInfo, CommitV, DiffSource, FileChange, FileStatus, FileV, SourceV, Worktree,
};
use crate::keys::{no_opener, FilesQuery, QueryV};
use crate::opener::{command, spawn_args, OpenCtx};
use crate::paths::{components, join_path, joined_path, same_path};
use crate::text::{cat, dec, decimal, opt_str, strs};
use vstd::prelude::*;
use vstd::string::*;

verus! {

// ---- Refresh ---------------------------------------------------------------------

/// What was selected before a refresh, by path.
#[derive(Debug)]
pub struct Kept {
    pub wt: Option<String>,
    pub file: Option<String>,
}

/// The index of the first worktree with a path.
pub open spec fn wt_index(wts: Seq<WtDataV>, path: Seq<char>) -> Option<int>
    decreases wts.len(),
{
    if wts.len() == 0 {
        None
    } else if components(wts[0].info.path) == components(path) {
        Some(0)
    } else {
        match wt_index(wts.skip(1), path) {
            Some(i) => Some(i + 1),
            None => None,
        }
    }
}

/// The index of the first worktree, other than the main checkout, with changes.
pub open spec fn first_changed(wts: Seq<WtDataV>) -> Option<int>
    decreases wts.len(),
{
    if wts.len() == 0 {
        None
    } else if !wts[0].info.is_main && wts[0].files.len() > 0 {
        Some(0)
    } else {
        match first_changed(wts.skip(1)) {
            Some(i) => Some(i + 1),
            None => None,
        }
    }
}

impl AppV {
    /// The path of the selected worktree, if any.
    pub open spec fn kept_wt(self) -> Option<Seq<char>> {
        match self.cur_wt() {
            Some(w) => Some(w.info.path),
            None => None,
        }
    }

    /// The path of the selected file, if any.
    pub open spec fn kept_file(self) -> Option<Seq<char>> {
        match self.selected_file() {
            Some(f) => Some(f.path),
            None => None,
        }
    }

    /// What is remembered of a worktree with a history: all changes are selected where what was
    /// selected is gone.
    pub open spec fn ui_for(self, path: Seq<char>, history: Seq<CommitV>) -> WtUiV {
        let u = if self.ui_state.dom().contains(components(path)) {
            self.ui_state[components(path)]
        } else {
            fresh_ui()
        };
        if u.hist_sel >= 2 + history.len() {
            WtUiV { hist_sel: 0, ..u }
        } else {
            u
        }
    }

    /// The state after the source to show of each worktree was looked up: all of them are
    /// remembered.
    pub open spec fn sources_shown(self, wts: Seq<WtDataV>) -> AppV
        decreases wts.len(),
    {
        if wts.len() == 0 {
            self
        } else {
            let b = self.sources_shown(wts.drop_last());
            let w = wts.last();
            b.with_ui_at(w.info.path, b.ui_for(w.info.path, w.commits))
        }
    }

    /// The state with the selected worktree found again by its path.
    pub open spec fn find_wt(self, path: Option<Seq<char>>) -> AppV {
        let a = match path {
            Some(p) => match wt_index(self.wts, p) {
                Some(i) => self.with_wt(i as usize),
                None => self,
            },
            None => self,
        };
        if a.sel_wt >= a.wts.len() {
            a.with_wt(0)
        } else {
            a
        }
    }

    /// The state with the first choice of a worktree made: where the main checkout is clean, the
    /// first other one with changes.
    pub open spec fn pick_first(self) -> AppV {
        if self.initial_picked {
            self
        } else {
            let a = self.with_picked(true);
            let clean = self.wts.len() > 0 && self.wts[0].files.len() == 0;
            match first_changed(self.wts) {
                Some(i) => if self.sel_wt == 0 && clean {
                    a.with_wt(i as usize)
                } else {
                    a
                },
                None => a,
            }
        }
    }

    /// The state with the cursor back on a file, if a row shows it.
    pub open spec fn back_on(self, path: Option<Seq<char>>) -> AppV {
        match path {
            Some(p) => self.select_file_by_path(p),
            None => self,
        }
    }

    /// The state after a refresh.
    #[verifier::opaque]
    pub open spec fn refreshed(
        self,
        wts: Seq<WtDataV>,
        kept_wt: Option<Seq<char>>,
        kept_file: Option<Seq<char>>,
    ) -> AppV {
        self.with_wts(wts).find_wt(kept_wt).pick_first().back_on(kept_file).clamp_cursor()
    }
}

fn find_wt_index(wts: &Vec<WtData>, path: &str) -> (r: Option<usize>)
    ensures
        match r {
            Some(i) => i < wts@.len() && wt_index(wts_view(wts@), path@) == Some(i as int),
            None => wt_index(wts_view(wts@), path@) is None,
        },
{
    let ghost wv = wts_view(wts@);
    let mut i: usize = 0;
    assert(wv.skip(0) =~= wv);
    while i < wts.len()
        invariant
            wv == wts_view(wts@),
            i <= wts@.len(),
            wt_index(wv, path@) == (match wt_index(wv.skip(i as int), path@) {
                Some(k) => Some(i + k),
                None => None,
            }),
        decreases wts@.len() - i,
    {
        assert(wv.skip(i as int)[0] == wts@[i as int]@);
        if same_path(wts[i].info.path.as_str(), path) {
            return Some(i);
        }
        assert(wv.skip(i as int).skip(1) =~= wv.skip(i + 1));
        i += 1;
    }
    None
}

fn find_changed(wts: &Vec<WtData>) -> (r: Option<usize>)
    ensures
        match r {
            Some(i) => i < wts@.len() && first_changed(wts_view(wts@)) == Some(i as int),
            None => first_changed(wts_view(wts@)) is None,
        },
{
    let ghost wv = wts_view(wts@);
    let mut i: usize = 0;
    assert(wv.skip(0) =~= wv);
    while i < wts.len()
        invariant
            wv == wts_view(wts@),
            i <= wts@.len(),
            first_changed(wv) == (match first_changed(wv.skip(i as int)) {
                Some(k) => Some(i + k),
                None => None,
            }),
        decreases wts@.len() - i,
    {
        assert(wv.skip(i as int)[0] == wts@[i as int]@);
        if !wts[i].info.is_main && wts[i].files.len() > 0 {
            return Some(i);
        }
        assert(wv.skip(i as int).skip(1) =~= wv.skip(i + 1));
        i += 1;
    }
    None
}

impl App {
    /// Say that the worktrees could not be listed.
    pub fn refresh_failed(&mut self, now: u64)
        ensures
            final(self)@ == old(self)@.says("git worktree list failed"@, now),
    {
        self.set_status("git worktree list failed", now);
    }

    /// What is selected, to be found again after a refresh.
    pub fn kept(&self) -> (r: Kept)
        ensures
            opt_str(r.wt) == self@.kept_wt(),
            opt_str(r.file) == self@.kept_file(),
    {
        let wt = match self.cur_wt() {
            Some(w) => Some(w.info.path.clone()),
            None => None,
        };
        let file = match self.selected_file() {
            Some(f) => Some(f.path.clone()),
            None => None,
        };
        Kept { wt, file }
    }

    /// The source to show of a worktree with a history. From now on the worktree is remembered.
    pub fn refresh_source(&mut self, path: &str, history: &Vec<CommitInfo>) -> (r: DiffSource)
        ensures
            final(self)@ == old(self)@.with_ui_at(
                path@,
                old(self)@.ui_for(path@, commits(history@)),
            ),
            r@ == source_at(
                old(self)@.ui_for(path@, commits(history@)).hist_sel,
                commits(history@),
            ),
    {
        let sel = match self.ui_at(path) {
            None => None,
            Some(u) => Some(u.hist_sel),
        };
        match sel {
            None => {
                self.put_ui_at(path, WtUi::default());
                source_of(0, history)
            },
            Some(s) => {
                let to: usize = if s >= 2 && s - 2 >= history.len() {
                    0
                } else {
                    s
                };
                self.put_hist_at(path, to);
                source_of(to, history)
            },
        }
    }

    fn find_wt(&mut self, path: &Option<String>)
        ensures
            final(self)@ == old(self)@.find_wt(opt_str(*path)),
    {
        reveal(AppV::with_wt);
        if let Some(p) = path {
            if let Some(i) = find_wt_index(self.worktrees(), p.as_str()) {
                self.put_wt(i);
            }
        }
        if self.selected_wt() >= self.wt_count() {
            self.put_wt(0);
        }
    }

    fn pick_first(&mut self)
        ensures
            final(self)@ == old(self)@.pick_first(),
    {
        if self.has_picked() {
            return;
        }
        let found = find_changed(self.worktrees());
        let at_main = self.selected_wt() == 0;
        let clean = self.main_is_clean();
        self.put_picked();
        if let Some(i) = found {
            if at_main && clean {
                self.put_wt(i);
            }
        }
    }

    fn main_is_clean(&self) -> (r: bool)
        ensures
            r == (self@.wts.len() > 0 && self@.wts[0].files.len() == 0),
    {
        let wts = self.worktrees();
        if wts.len() > 0 {
            assert(wts_view(wts@)[0] == wts@[0]@);
            wts[0].files.len() == 0
        } else {
            false
        }
    }

    /// Take in the worktrees as they are now, with what was selected before.
    pub fn refresh(&mut self, wts: Vec<WtData>, kept: &Kept)
        ensures
            final(self)@ == old(self)@.refreshed(
                wts_view(wts@),
                opt_str(kept.wt),
                opt_str(kept.file),
            ),
    {
        reveal(AppV::refreshed);
        self.put_wts(wts);
        self.find_wt(&kept.wt);
        self.pick_first();
        if let Some(p) = &kept.file {
            self.select_file_by_path(p.as_str());
        }
        self.clamp_cursor();
    }
}

// ---- Worktrees -------------------------------------------------------------------

/// The values of optional files.
pub open spec fn opt_files(v: Option<Vec<FileChange>>) -> Option<Seq<FileV>> {
    match v {
        Some(f) => Some(files_view(f@)),
        None => None,
    }
}

/// The arguments that ask for the history of a worktree; without an anchor nothing is asked.
pub fn history_args(merge_base: &Option<String>) -> (r: Option<Vec<String>>)
    ensures
        opt_strs(r) == (match opt_str(*merge_base) {
            Some(m) => Some(commits_question(m)),
            None => None,
        }),
{
    match merge_base {
        Some(m) => Some(commits_args(m.as_str())),
        None => None,
    }
}

/// The history of a worktree: without an anchor it has none.
pub fn history_of(merge_base: &Option<String>, reply: &Option<String>) -> (r: Vec<CommitInfo>)
    ensures
        commits(r@) == (match merge_base {
            Some(_) => commits_in(opt_str(*reply)),
            None => seq![],
        }),
{
    match merge_base {
        Some(_) => commits_since(reply),
        None => {
            let none: Vec<CommitInfo> = Vec::new();
            assert(commits(none@) =~= Seq::<CommitV>::empty());
            none
        },
    }
}

/// The commit that a worktree is compared with: the anchor, or the head where there is none.
pub fn compared_with(merge_base: &Option<String>) -> (r: String)
    ensures
        r@ == base_commit(opt_str(*merge_base)),
{
    match merge_base {
        Some(m) => m.clone(),
        None => "HEAD".to_string(),
    }
}

/// Whether all changes have to be asked for, beside those of the source that is shown.
pub fn wants_all(source: &DiffSource) -> (r: bool)
    ensures
        r == !(source@ is All),
{
    match source {
        DiffSource::All => false,
        _ => true,
    }
}

/// All changes: those that are shown where all are, else those that were asked for beside them.
pub open spec fn all_changes(
    source: SourceV,
    files: Seq<FileV>,
    all: Option<Seq<FileV>>,
) -> Seq<FileV> {
    if source is All {
        files
    } else {
        all->0
    }
}

/// A worktree with what has changed in it: its totals are those of all changes, whatever source
/// its files are of.
pub fn worktree_data(
    info: Worktree,
    merge_base: Option<String>,
    history: Vec<CommitInfo>,
    files: Vec<FileChange>,
    source: &DiffSource,
    all: Option<Vec<FileChange>>,
) -> (r: WtData)
    requires
        source@ is All || all is Some,
    ensures
        r@ == (WtDataV {
            info: info@,
            merge_base: opt_str(merge_base),
            commits: commits(history@),
            files: files_view(files@),
            all_totals: totals_of(all_changes(source@, files_view(files@), opt_files(all))),
        }),
{
    let all_totals = match source {
        DiffSource::All => totals(&files),
        _ => match &all {
            Some(v) => totals(v),
            None => (0, 0),
        },
    };
    WtData { info, merge_base, commits: history, files, all_totals }
}

// ---- Following -------------------------------------------------------------------

/// When file `i` was modified, if known.
pub open spec fn mtime_at(mtimes: Seq<Option<i128>>, i: int) -> Option<i128> {
    if 0 <= i < mtimes.len() {
        mtimes[i]
    } else {
        None
    }
}

/// The file that was modified last, of those that still exist; of several the first.
pub open spec fn latest(files: Seq<FileV>, mtimes: Seq<Option<i128>>) -> Option<(Seq<char>, i128)>
    decreases files.len(),
{
    if files.len() == 0 {
        None
    } else {
        let sofar = latest(files.drop_last(), mtimes);
        let f = files.last();
        match mtime_at(mtimes, files.len() - 1) {
            Some(t) => if f.status == FileStatus::Deleted {
                sofar
            } else {
                match sofar {
                    Some((p, u)) => if t > u {
                        Some((f.path, t))
                    } else {
                        sofar
                    },
                    None => Some((f.path, t)),
                }
            },
            None => sofar,
        }
    }
}

impl AppV {
    /// The question for what is not committed, with which following begins.
    pub open spec fn follow_query(self) -> Option<QueryV> {
        if self.sel_wt < self.wts.len() {
            Some(self.query(1))
        } else {
            None
        }
    }

    /// The state with what is not committed selected, or all changes where all is committed.
    pub open spec fn follow_hist(self, uncommitted: bool) -> (AppV, Option<QueryV>) {
        let want: usize = if uncommitted {
            1
        } else {
            0
        };
        if self.sel_wt < self.wts.len() && self.hist() != want {
            self.set_hist(want as int)
        } else {
            (self, None)
        }
    }

    /// Whether the file at a path is news: another one than before, or modified since.
    pub open spec fn is_news(self, path: Seq<char>, mtime: i128) -> bool {
        match self.last_followed {
            Some((p, t)) => components(p) != components(path) || mtime > t,
            None => true,
        }
    }

    /// The state with the cursor on the file that was modified last, and whether it is to be
    /// opened.
    #[verifier::opaque]
    pub open spec fn follow_pick(self, mtimes: Seq<Option<i128>>) -> (AppV, bool) {
        match latest(self.files(), mtimes) {
            Some((p, t)) => {
                let abs = joined_path(self.wt_path(), p);
                let a = self.select_file_by_path(p).clamp_cursor();
                if self.is_news(abs, t) {
                    (a.with_followed(Some((abs, t))), true)
                } else {
                    (a, false)
                }
            },
            None => (self, false),
        }
    }
}

fn find_latest(files: &Vec<FileChange>, mtimes: &Vec<Option<i128>>) -> (r: Option<(String, i128)>)
    ensures
        tagged(r) == latest(files_view(files@), mtimes@),
{
    let ghost fs = files_view(files@);
    let mut best: Option<(String, i128)> = None;
    let mut i: usize = 0;
    assert(fs.take(0) =~= Seq::<FileV>::empty());
    while i < files.len()
        invariant
            fs == files_view(files@),
            i <= files@.len(),
            tagged(best) == latest(fs.take(i as int), mtimes@),
        decreases files@.len() - i,
    {
        proof {
            assert(fs[i as int] == files@[i as int]@);
            assert(fs.take(i + 1).drop_last() =~= fs.take(i as int));
            assert(fs.take(i + 1).last() == files@[i as int]@);
        }
        if files[i].status != FileStatus::Deleted && i < mtimes.len() {
            if let Some(t) = mtimes[i] {
                let newer = match &best {
                    Some((_, u)) => t > *u,
                    None => true,
                };
                if newer {
                    best = Some((files[i].path.clone(), t));
                }
            }
        }
        i += 1;
    }
    assert(fs.take(fs.len() as int) =~= fs);
    best
}

impl App {
    /// The question for what is not committed, with which following begins.
    pub fn follow_query(&self) -> (r: Option<FilesQuery>)
        ensures
            match r {
                Some(q) => self@.follow_query() == Some(q@),
                None => self@.follow_query() is None,
            },
    {
        match self.cur_wt() {
            Some(w) => {
                let mb = match &w.merge_base {
                    Some(m) => m.clone(),
                    None => "HEAD".to_string(),
                };
                Some(FilesQuery { wt: w.info.path.clone(), source: DiffSource::Current, mb })
            },
            None => None,
        }
    }

    /// Select what is not committed, or all changes where all is committed. What comes back asks
    /// for the files that are to be installed.
    pub fn follow_hist(&mut self, uncommitted: bool) -> (r: Option<FilesQuery>)
        ensures
            final(self)@ == old(self)@.follow_hist(uncommitted).0,
            match r {
                Some(q) => old(self)@.follow_hist(uncommitted).1 == Some(q@),
                None => old(self)@.follow_hist(uncommitted).1 is None,
            },
    {
        let want: usize = if uncommitted {
            1
        } else {
            0
        };
        if self.selected_wt() < self.wt_count() && self.hist_sel() != want {
            self.set_hist(want)
        } else {
            None
        }
    }

    /// Put the cursor on the file that was modified last, for when each file was modified. Gives
    /// whether it is to be opened.
    pub fn follow_latest(&mut self, mtimes: &Vec<Option<i128>>) -> (r: bool)
        ensures
            (final(self)@, r) == old(self)@.follow_pick(mtimes@),
    {
        reveal(AppV::follow_pick);
        let (wt, found) = match self.cur_wt() {
            Some(w) => (w.info.path.clone(), find_latest(&w.files, mtimes)),
            None => {
                return false;
            },
        };
        let (path, mtime) = match found {
            Some(x) => x,
            None => {
                return false;
            },
        };
        let abs = join_path(wt.as_str(), path.as_str());
        let news = match self.followed() {
            Some((p, t)) => !same_path(p.as_str(), abs.as_str()) || mtime > *t,
            None => true,
        };
        self.select_file_by_path(path.as_str());
        self.clamp_cursor();
        if news {
            self.put_followed(abs, mtime);
        }
        news
    }
}

// ---- Opening ---------------------------------------------------------------------

impl AppV {
    /// Whether the selected file can be opened, and a message where it cannot.
    pub open spec fn open_check(self, now: u64) -> (AppV, bool) {
        if self.sel_wt >= self.wts.len() {
            (self, false)
        } else {
            match self.selected_file() {
                None => (self.says("no file selected"@, now), false),
                Some(f) => if f.status == FileStatus::Deleted {
                    (self.says("cannot open a deleted file"@, now), false)
                } else {
                    (self, true)
                },
            }
        }
    }

    /// The command template of an opener: the named one, or the default one.
    pub open spec fn opener(self, name: Option<Seq<char>>) -> Option<Seq<Seq<char>>> {
        match name {
            Some(n) => opener_named(self.cfg.openers, n),
            None => opener_named(self.cfg.openers, self.cfg.default),
        }
    }

    /// The command line that opens the selected file at a line, or a message where there is none.
    pub open spec fn open_command(
        self,
        name: Option<Seq<char>>,
        line: Option<u32>,
        home: Option<Seq<char>>,
        now: u64,
    ) -> (AppV, Option<Seq<Seq<char>>>) {
        match self.selected_file() {
            None => (self, None),
            Some(f) => match self.opener(name) {
                None => (self.says(no_opener(), now), None),
                Some(cmd) => if cmd.len() == 0 {
                    (self.says("opener cmd is empty"@, now), None)
                } else {
                    (
                        self,
                        Some(
                            command(
                                cmd,
                                home,
                                joined_path(self.wt_path(), f.path),
                                line,
                                self.wt_path(),
                                self.repo,
                            ),
                        ),
                    )
                },
            },
        }
    }

    /// The state after a file was opened, or could not be.
    pub open spec fn opened(
        self,
        message: Seq<char>,
        error: Option<Seq<char>>,
        report_ok: bool,
        now: u64,
    ) -> AppV {
        match error {
            Some(e) => self.says(e, now),
            None => if report_ok {
                self.says(message, now)
            } else {
                self
            },
        }
    }
}

/// The value of a command line.
pub open spec fn opt_strs(o: Option<Vec<String>>) -> Option<Seq<Seq<char>>> {
    match o {
        Some(v) => Some(strs(v@)),
        None => None,
    }
}

/// The message for a command that could not be started.
pub open spec fn spawn_error(cmd: Seq<char>, error: Seq<char>) -> Seq<char> {
    "failed to spawn "@ + cmd + ": "@ + error
}

/// The message for a command that could not be started.
pub fn spawn_failed(cmd: &str, error: &str) -> (r: String)
    ensures
        r@ == spawn_error(cmd@, error@),
{
    let mut s = cat("failed to spawn ", cmd);
    s.append(": ");
    s.append(error);
    s
}

impl App {
    /// Whether the selected file can be opened; a message says where it cannot.
    pub fn open_check(&mut self, now: u64) -> (r: bool)
        ensures
            (final(self)@, r) == old(self)@.open_check(now),
    {
        if self.cur_wt().is_none() {
            return false;
        }
        let status = match self.selected_file() {
            Some(f) => Some(f.status),
            None => None,
        };
        match status {
            None => {
                self.set_status("no file selected", now);
                false
            },
            Some(st) => {
                if st == FileStatus::Deleted {
                    self.set_status("cannot open a deleted file", now);
                    false
                } else {
                    true
                }
            },
        }
    }

    fn find_opener(&self, name: &Option<String>) -> (r: Option<&Opener>)
        ensures
            match r {
                Some(o) => self@.opener(opt_str(*name)) == Some(o@),
                None => self@.opener(opt_str(*name)) is None,
            },
    {
        let cfg = self.config();
        match name {
            Some(n) => cfg.open.openers.get(n.as_str()),
            None => cfg.default_opener(),
        }
    }

    /// The command line that opens the selected file at a line; a message says where there is
    /// none.
    pub fn open_selected(
        &mut self,
        name: &Option<String>,
        line: Option<u32>,
        home: &Option<String>,
        now: u64,
    ) -> (r: Option<Vec<String>>)
        ensures
            (final(self)@, opt_strs(r)) == old(self)@.open_command(
                opt_str(*name),
                line,
                opt_str(*home),
                now,
            ),
    {
        let file = match self.selected_file() {
            Some(f) => f.path.clone(),
            None => {
                return None;
            },
        };
        let wt = match self.cur_wt() {
            Some(w) => w.info.path.clone(),
            None => {
                return None;
            },
        };
        let made = match self.find_opener(name) {
            Some(op) => {
                let abs = join_path(wt.as_str(), file.as_str());
                let ctx = OpenCtx {
                    file: abs.as_str(),
                    line,
                    worktree: wt.as_str(),
                    repo: self.repo_path().as_str(),
                };
                Some(spawn_args(op, &ctx, home))
            },
            None => None,
        };
        match made {
            None => {
                self.set_status(
                    "no opener configured (set [open] in ~/.config/wtd/config.toml)",
                    now,
                );
                None
            },
            Some(Ok(args)) => Some(args),
            Some(Err(e)) => {
                self.set_status(e.as_str(), now);
                None
            },
        }
    }

    /// Say that a file was opened, if that is wanted, or why it could not be.
    pub fn open_done(&mut self, path: &str, error: &Option<String>, report_ok: bool, now: u64)
        ensures
            final(self)@ == old(self)@.opened(
                "opened: "@ + path@,
                opt_str(*error),
                report_ok,
                now,
            ),
    {
        match error {
            Some(e) => self.set_status(e.as_str(), now),
            None => {
                if report_ok {
                    self.set_status(cat("opened: ", path).as_str(), now);
                }
            },
        }
    }

    /// Say that a file was opened with the system's application, or why it could not be.
    pub fn open_system(&mut self, path: &str, error: &Option<String>, now: u64)
        ensures
            final(self)@ == old(self)@.opened(
                "opened with system app: "@ + path@,
                opt_str(*error),
                true,
                now,
            ),
    {
        match error {
            Some(e) => self.set_status(e.as_str(), now),
            None => self.set_status(cat("opened with system app: ", path).as_str(), now),
        }
    }
}

// ---- Ages ------------------------------------------------------------------------

/// The seconds from `then` to `now`; none where `then` is later. Differences wrap around.
pub open spec fn elapsed(now: i64, then: i64) -> int {
    let d = now - then;
    let w = if d > i64::MAX {
        d - 0x1_0000_0000_0000_0000
    } else if d < i64::MIN {
        d + 0x1_0000_0000_0000_0000
    } else {
        d
    };
    if w < 0 {
        0
    } else {
        w
    }
}

/// An age in words such as `2m ago`.
pub open spec fn age(d: int) -> Seq<char> {
    if d < 60 {
        decimal(d as nat) + "s ago"@
    } else if d < 3600 {
        decimal((d / 60) as nat) + "m ago"@
    } else if d < 86400 {
        decimal((d / 3600) as nat) + "h ago"@
    } else {
        decimal((d / 86400) as nat) + "d ago"@
    }
}

/// The age of a moment in words such as `2m ago`; both in seconds since the epoch.
pub fn fmt_age(now: i64, unix: i64) -> (r: String)
    ensures
        r@ == age(elapsed(now, unix)),
{
    let w: i64 = now.wrapping_sub(unix);
    let d: u64 = if w < 0 {
        0
    } else {
        w as u64
    };
    if d < 60 {
        cat(dec(d).as_str(), "s ago")
    } else if d < 3600 {
        cat(dec(d / 60).as_str(), "m ago")
    } else if d < 86400 {
        cat(dec(d / 3600).as_str(), "h ago")
    } else {
        cat(dec(d / 86400).as_str(), "d ago")
    }
}

} // verus!
