//! What keys do.

use crate::app::{base_commit, source_at, source_of, App, AppV, Area, WtUiV};
use crate::config::names_of;
use crate::git::{files_view, DiffSource, FileChange, FileV, SourceV};
use crate::text::{capped, chars_of, opt_str, string_of, strs};
use crate::tree::{rows_view, Row, RowV};
use vstd::prelude::*;
use vstd::string::*;

verus! {

/// A key.
#[derive(Clone, Copy, Debug, PartialEq, Eq, Structural)]
pub enum KeyCode {
    Char(char),
    Enter,
    Esc,
    Backspace,
    Up,
    Down,
    Left,
    Right,
    PageUp,
    PageDown,
    Other,
}

/// A key that was pressed, and whether with control.
#[derive(Clone, Copy, Debug, PartialEq, Eq, Structural)]
pub struct KeyEvent {
    pub code: KeyCode,
    pub ctrl: bool,
}

/// A question for the changed files of a worktree.
#[derive(Debug)]
pub struct FilesQuery {
    pub wt: String,
    pub source: DiffSource,
    pub mb: String,
}

/// A question for the changed files of a worktree, as a mathematical value.
pub struct QueryV {
    pub wt: Seq<char>,
    pub source: SourceV,
    pub mb: Seq<char>,
}

impl View for FilesQuery {
    type V = QueryV;

    open spec fn view(&self) -> QueryV {
        QueryV { wt: self.wt@, source: self.source@, mb: self.mb@ }
    }
}

/// What is to be done outside after a key.
#[derive(Debug)]
pub enum Action {
    Nothing,
    /// Find the changed files and install them
    Load(FilesQuery),
    /// Open the selected file with an opener, the default one for `None`, and say so or not
    Open(Option<String>, bool),
    /// Open the selected file with the system's application
    OpenSystem,
    /// Follow the latest change
    Follow,
    /// Jump to the next hunk, or to the previous one
    Jump(bool),
}

/// What is to be done outside after a key, as a mathematical value.
pub enum ActionV {
    Nothing,
    Load(QueryV),
    Open(Option<Seq<char>>, bool),
    OpenSystem,
    Follow,
    Jump(bool),
}

impl View for Action {
    type V = ActionV;

    open spec fn view(&self) -> ActionV {
        match self {
            Action::Nothing => ActionV::Nothing,
            Action::Load(q) => ActionV::Load(q@),
            Action::Open(n, b) => ActionV::Open(opt_str(*n), *b),
            Action::OpenSystem => ActionV::OpenSystem,
            Action::Follow => ActionV::Follow,
            Action::Jump(b) => ActionV::Jump(*b),
        }
    }
}

// ---- History ---------------------------------------------------------------------

/// The lesser of two numbers.
pub open spec fn least(a: int, b: int) -> int {
    if a < b {
        a
    } else {
        b
    }
}

/// The greater of two numbers.
pub open spec fn most(a: int, b: int) -> int {
    if a > b {
        a
    } else {
        b
    }
}

impl AppV {
    /// The question for the changed files of a selection in the history.
    pub open spec fn query(self, hist: usize) -> QueryV {
        QueryV {
            wt: self.wt_path(),
            source: source_at(hist, self.history()),
            mb: base_commit(self.wts[self.sel_wt as int].merge_base),
        }
    }

    /// The state with something else selected in the history, and the question for its files;
    /// none where it was selected already.
    #[verifier::opaque]
    pub open spec fn set_hist(self, idx: int) -> (AppV, Option<QueryV>) {
        let to = least(idx, capped(self.hist_len()) - 1) as usize;
        if self.sel_wt >= self.wts.len() {
            (self, None)
        } else if self.has_ui() && self.ui().hist_sel == to {
            (self, None)
        } else if self.has_ui() {
            (self.with_ui(WtUiV { hist_sel: to, ..self.ui() }), Some(self.query(to)))
        } else {
            (self, Some(self.query(to)))
        }
    }
}

/// The step of a change in the history.
pub open spec fn loading(r: (AppV, Option<QueryV>)) -> (AppV, ActionV) {
    match r.1 {
        Some(q) => (r.0, ActionV::Load(q)),
        None => (r.0, ActionV::Nothing),
    }
}

impl App {
    /// Select in the history. What comes back asks for the files that are to be installed.
    pub fn set_hist(&mut self, idx: usize) -> (r: Option<FilesQuery>)
        ensures
            final(self)@ == old(self)@.set_hist(idx as int).0,
            match r {
                Some(q) => old(self)@.set_hist(idx as int).1 == Some(q@),
                None => old(self)@.set_hist(idx as int).1 is None,
            },
    {
        reveal(AppV::set_hist);
        let last = self.hist_len() - 1;
        let to: usize = if idx > last {
            last
        } else {
            idx
        };
        let (path, mb, source) = match self.cur_wt() {
            None => {
                return None;
            },
            Some(w) => {
                let mb = match &w.merge_base {
                    Some(m) => m.clone(),
                    None => "HEAD".to_string(),
                };
                (w.info.path.clone(), mb, source_of(to, &w.commits))
            },
        };
        if let Some(ui) = self.cur_ui() {
            if ui.hist_sel == to {
                return None;
            }
        }
        self.put_hist(to);
        Some(FilesQuery { wt: path, source, mb })
    }

    fn load_hist(&mut self, idx: usize) -> (r: Action)
        ensures
            (final(self)@, r@) == loading(old(self)@.set_hist(idx as int)),
    {
        match self.set_hist(idx) {
            Some(q) => Action::Load(q),
            None => Action::Nothing,
        }
    }

    /// Install the files that were asked for.
    pub fn install_files(&mut self, files: Vec<FileChange>)
        ensures
            final(self)@ == old(self)@.install_files(files_view(files@)),
    {
        reveal(AppV::install_files);
        self.put_files(files);
        self.scroll_diff(0);
        self.clamp_cursor();
    }
}

impl AppV {
    /// The state with other files in the worktree that is selected.
    #[verifier::opaque]
    pub open spec fn install_files(self, files: Seq<FileV>) -> AppV {
        self.with_files(files).with_scroll(0).clamp_cursor()
    }
}

// ---- Keys ------------------------------------------------------------------------

/// The row above row `from` that is less deep, the nearest one.
pub open spec fn parent_row(rows: Seq<RowV>, from: int, depth: usize) -> Option<int>
    decreases from,
{
    if from <= 0 {
        None
    } else if rows[from - 1].depth < depth {
        Some(from - 1)
    } else {
        parent_row(rows, from - 1, depth)
    }
}

/// A key for going left.
pub open spec fn is_left(k: KeyCode) -> bool {
    k == KeyCode::Char('h') || k == KeyCode::Left
}

/// A key for going right.
pub open spec fn is_right(k: KeyCode) -> bool {
    k == KeyCode::Char('l') || k == KeyCode::Right
}

/// A key for going down.
pub open spec fn is_down(k: KeyCode) -> bool {
    k == KeyCode::Char('j') || k == KeyCode::Down
}

/// A key for going up.
pub open spec fn is_up(k: KeyCode) -> bool {
    k == KeyCode::Char('k') || k == KeyCode::Up
}

/// The message where no opener is configured.
pub open spec fn no_opener() -> Seq<char> {
    "no opener configured (set [open] in ~/.config/wtd/config.toml)"@
}

impl AppV {
    /// A key while a filter is typed.
    #[verifier::opaque]
    pub open spec fn key_filter(self, k: KeyCode) -> AppV {
        match k {
            KeyCode::Enter => self.with_typing(false),
            KeyCode::Esc => self.with_filter(seq![]).with_typing(false).clamp_cursor(),
            KeyCode::Backspace => if self.filter.len() > 0 {
                self.with_filter(self.filter.drop_last()).clamp_cursor()
            } else {
                self.clamp_cursor()
            },
            KeyCode::Char(c) => self.with_filter(self.filter.push(c)).clamp_cursor(),
            _ => self,
        }
    }

    /// A key while an opener is picked.
    #[verifier::opaque]
    pub open spec fn key_picker(self, k: KeyCode, idx: usize) -> (AppV, ActionV) {
        let names = names_of(self.cfg.openers);
        if is_down(k) {
            let last = most(names.len() - 1, 0);
            (self.with_picker(Some(least(idx + 1, last) as usize)), ActionV::Nothing)
        } else if is_up(k) {
            (self.with_picker(Some(most(idx - 1, 0) as usize)), ActionV::Nothing)
        } else if k == KeyCode::Enter {
            (
                self.with_picker(None),
                if idx < names.len() {
                    ActionV::Open(Some(names[idx as int]), true)
                } else {
                    ActionV::Nothing
                },
            )
        } else if k == KeyCode::Esc || k == KeyCode::Char('E') || k == KeyCode::Char('q') {
            (self.with_picker(None), ActionV::Nothing)
        } else {
            (self, ActionV::Nothing)
        }
    }

    /// The area below.
    pub open spec fn area_below(self) -> Area {
        match self.focus {
            Area::Worktree => Area::History,
            Area::History => Area::Tree,
            _ => Area::Diff,
        }
    }

    /// The area above.
    pub open spec fn area_above(self) -> Area {
        match self.focus {
            Area::Worktree => Area::Worktree,
            Area::History => Area::Worktree,
            Area::Tree => Area::History,
            Area::Diff => Area::Tree,
        }
    }

    /// The worktree after the selected one, or the last.
    pub open spec fn wt_after(self) -> int {
        least(self.sel_wt + 1, most(self.wts.len() - 1, 0))
    }

    /// The worktree before the selected one, or the first.
    pub open spec fn wt_before(self) -> int {
        most(self.sel_wt - 1, 0)
    }

    /// A key with control that works everywhere.
    #[verifier::opaque]
    pub open spec fn key_control(self, key: KeyEvent) -> Option<AppV> {
        if key == (KeyEvent { code: KeyCode::Char('c'), ctrl: true }) || key == (KeyEvent {
            code: KeyCode::Char('q'),
            ctrl: false,
        }) {
            Some(self.with_quit(true))
        } else if !key.ctrl {
            None
        } else if key.code == KeyCode::Char('j') {
            Some(self.focus_on(self.area_below()).sync_narrow_diff())
        } else if key.code == KeyCode::Char('k') {
            Some(self.focus_on(self.area_above()).sync_narrow_diff())
        } else if key.code == KeyCode::Char('l') {
            Some(self.with_clear(true))
        } else {
            None
        }
    }

    /// A key that works everywhere.
    #[verifier::opaque]
    pub open spec fn key_anywhere(self, k: KeyCode, now: u64) -> Option<(AppV, ActionV)> {
        match k {
            KeyCode::Char(c) => if '1' <= c <= '9' {
                Some((self.set_wt(c as int - '1' as int), ActionV::Nothing))
            } else if c == '{' {
                Some((self.set_wt(self.wt_before()), ActionV::Nothing))
            } else if c == '}' {
                Some((self.set_wt(self.wt_after()), ActionV::Nothing))
            } else if c == '[' {
                Some(loading(self.set_hist(most(self.hist() - 1, 0))))
            } else if c == ']' {
                Some(loading(self.set_hist(self.hist() + 1)))
            } else if c == 's' {
                Some((self.with_sides(!self.sxs), ActionV::Nothing))
            } else if c == 'w' {
                Some(
                    (
                        self.with_wrap(!self.wrap).says(
                            if self.wrap {
                                "wrap: OFF"@
                            } else {
                                "wrap: ON"@
                            },
                            now,
                        ),
                        ActionV::Nothing,
                    ),
                )
            } else if c == 't' {
                Some((self.with_flat(!self.flat).clamp_cursor(), ActionV::Nothing))
            } else if c == '/' {
                Some((self.with_typing(true), ActionV::Nothing))
            } else if c == 'o' || c == 'e' {
                Some((self, ActionV::Open(None, true)))
            } else if c == 'O' {
                Some((self, ActionV::OpenSystem))
            } else if c == 'E' {
                Some(
                    (
                        if self.cfg.openers.len() == 0 {
                            self.says(no_opener(), now)
                        } else {
                            self.with_picker(Some(0))
                        },
                        ActionV::Nothing,
                    ),
                )
            } else if c == 'f' {
                Some(
                    if self.follow {
                        (
                            self.with_follow(false).says("follow: OFF"@, now),
                            ActionV::Nothing,
                        )
                    } else {
                        (self.with_follow(true).says("follow: ON"@, now), ActionV::Follow)
                    },
                )
            } else if c == '<' {
                Some(
                    (
                        self.with_split(most(self.split_pct - 4, 15) as u16),
                        ActionV::Nothing,
                    ),
                )
            } else if c == '>' {
                Some(
                    (
                        self.with_split(least(self.split_pct + 4, 85) as u16),
                        ActionV::Nothing,
                    ),
                )
            } else {
                None
            },
            _ => None,
        }
    }

    /// A key in the worktree bar.
    #[verifier::opaque]
    pub open spec fn key_worktree(self, k: KeyCode) -> AppV {
        if is_left(k) {
            self.set_wt(self.wt_before())
        } else if is_right(k) {
            self.set_wt(self.wt_after())
        } else if k == KeyCode::Enter {
            self.focus_on(Area::History)
        } else {
            self
        }
    }

    /// A key in the history bar.
    #[verifier::opaque]
    pub open spec fn key_history(self, k: KeyCode) -> (AppV, ActionV) {
        if is_left(k) {
            loading(self.set_hist(most(self.hist() - 1, 0)))
        } else if is_right(k) {
            loading(self.set_hist(self.hist() + 1))
        } else if k == KeyCode::Enter {
            (self.focus_on(Area::Tree), ActionV::Nothing)
        } else if k == KeyCode::Esc {
            (self.focus_on(Area::Worktree), ActionV::Nothing)
        } else {
            (self, ActionV::Nothing)
        }
    }

    /// Leaving the row under the cursor to the left: collapse it, else go to its parent.
    #[verifier::opaque]
    pub open spec fn tree_left(self, row: RowV) -> AppV {
        match row.dir_path {
            Some(dir) if row.expanded => self.fold(dir, true).clamp_cursor(),
            _ => match parent_row(self.rows(), self.ui().cursor as int, row.depth) {
                Some(i) => self.with_ui(WtUiV { cursor: i as usize, ..self.ui() }),
                None => self,
            },
        }
    }

    /// Leaving the row under the cursor to the right: expand it, or show its diff.
    #[verifier::opaque]
    pub open spec fn tree_right(self, row: RowV) -> AppV {
        match row.dir_path {
            Some(dir) => if row.expanded {
                self
            } else {
                self.fold(dir, false)
            },
            None => if row.file_idx is Some {
                self.focus_on(Area::Diff).sync_narrow_diff()
            } else {
                self
            },
        }
    }

    /// Entering the row under the cursor: collapse or expand it, or show its diff.
    #[verifier::opaque]
    pub open spec fn tree_enter(self, row: RowV) -> AppV {
        match row.dir_path {
            Some(dir) => self.fold(dir, row.expanded).clamp_cursor(),
            None => if row.file_idx is Some {
                self.focus_on(Area::Diff).sync_narrow_diff()
            } else {
                self
            },
        }
    }

    /// A key in the file list.
    #[verifier::opaque]
    pub open spec fn key_tree(self, k: KeyCode) -> AppV {
        let on_row = self.has_ui() && self.ui().cursor < self.rows().len();
        let row = self.rows()[self.ui().cursor as int];
        if is_down(k) {
            self.move_cursor(1).with_scroll(0)
        } else if is_up(k) {
            self.move_cursor(-1).with_scroll(0)
        } else if is_left(k) {
            if on_row {
                self.tree_left(row)
            } else {
                self
            }
        } else if is_right(k) {
            if on_row {
                self.tree_right(row)
            } else {
                self
            }
        } else if k == KeyCode::Enter {
            if on_row {
                self.tree_enter(row)
            } else {
                self
            }
        } else if k == KeyCode::Esc {
            self.focus_on(Area::History)
        } else {
            self
        }
    }

    /// The furthest that forward keys scroll: never back.
    pub open spec fn scroll_limit(self) -> int {
        most(self.diff_max_scroll as int, self.diff_scroll as int)
    }

    /// The state with the diff scrolled.
    pub open spec fn scroll_to(self, line: int) -> AppV {
        self.with_scroll(line as usize)
    }

    /// A key in the diff.
    #[verifier::opaque]
    pub open spec fn key_diff(self, k: KeyCode) -> (AppV, ActionV) {
        let at = self.diff_scroll as int;
        let page = self.diff_height / 2;
        if is_down(k) {
            (self.scroll_to(least(at + 1, self.scroll_limit())), ActionV::Nothing)
        } else if is_up(k) {
            (self.scroll_to(most(at - 1, 0)), ActionV::Nothing)
        } else if k == KeyCode::PageDown || k == KeyCode::Char('d') {
            (self.scroll_to(least(at + page, self.scroll_limit())), ActionV::Nothing)
        } else if k == KeyCode::PageUp || k == KeyCode::Char('u') {
            (self.scroll_to(most(at - page, 0)), ActionV::Nothing)
        } else if k == KeyCode::Char('n') {
            (self, ActionV::Jump(true))
        } else if k == KeyCode::Char('p') {
            (self, ActionV::Jump(false))
        } else if k == KeyCode::Char('J') {
            (self.step_file(true), ActionV::Nothing)
        } else if k == KeyCode::Char('K') {
            (self.step_file(false), ActionV::Nothing)
        } else if is_left(k) || k == KeyCode::Esc {
            (self.focus_on(Area::Tree).sync_narrow_diff(), ActionV::Nothing)
        } else {
            (self, ActionV::Nothing)
        }
    }

    /// A key in the area that has the focus.
    #[verifier::opaque]
    pub open spec fn key_focused(self, k: KeyCode) -> (AppV, ActionV) {
        match self.focus {
            Area::Worktree => (self.key_worktree(k), ActionV::Nothing),
            Area::History => self.key_history(k),
            Area::Tree => (self.key_tree(k), ActionV::Nothing),
            Area::Diff => self.key_diff(k),
        }
    }

    /// The state after a key, and what is to be done outside.
    #[verifier::opaque]
    pub open spec fn on_key(self, key: KeyEvent, now: u64) -> (AppV, ActionV) {
        let a = self.with_status(None);
        if a.filter_input {
            (a.key_filter(key.code), ActionV::Nothing)
        } else if a.picker is Some {
            a.key_picker(key.code, a.picker->0)
        } else if a.key_control(key) is Some {
            (a.key_control(key)->0, ActionV::Nothing)
        } else if a.key_anywhere(key.code, now) is Some {
            a.key_anywhere(key.code, now)->0
        } else {
            a.key_focused(key.code)
        }
    }
}

fn left_key(k: KeyCode) -> (r: bool)
    ensures
        r == is_left(k),
{
    k == KeyCode::Char('h') || k == KeyCode::Left
}

fn right_key(k: KeyCode) -> (r: bool)
    ensures
        r == is_right(k),
{
    k == KeyCode::Char('l') || k == KeyCode::Right
}

fn down_key(k: KeyCode) -> (r: bool)
    ensures
        r == is_down(k),
{
    k == KeyCode::Char('j') || k == KeyCode::Down
}

fn up_key(k: KeyCode) -> (r: bool)
    ensures
        r == is_up(k),
{
    k == KeyCode::Char('k') || k == KeyCode::Up
}

impl App {
    fn key_filter(&mut self, k: KeyCode)
        ensures
            final(self)@ == old(self)@.key_filter(k),
    {
        reveal(AppV::key_filter);
        match k {
            KeyCode::Enter => {
                self.type_filter(false);
            },
            KeyCode::Esc => {
                self.put_filter(String::new());
                self.type_filter(false);
                self.clamp_cursor();
            },
            KeyCode::Backspace => {
                let v = chars_of(self.filter_text().as_str());
                if v.len() > 0 {
                    let shorter = string_of(&v, 0, v.len() - 1);
                    assert(shorter@ =~= self@.filter.drop_last());
                    self.put_filter(shorter);
                }
                self.clamp_cursor();
            },
            KeyCode::Char(c) => {
                let mut longer = self.filter_text().clone();
                longer.push(c);
                self.put_filter(longer);
                self.clamp_cursor();
            },
            _ => {},
        }
    }

    fn key_picker(&mut self, k: KeyCode, idx: usize) -> (r: Action)
        ensures
            (final(self)@, r@) == old(self)@.key_picker(k, idx),
    {
        reveal(AppV::key_picker);
        let names = self.opener_names();
        let ghost nv = names_of(self@.cfg.openers);
        let n = names.len();
        if down_key(k) {
            let last = if n == 0 {
                0
            } else {
                n - 1
            };
            let to = if idx < last {
                idx + 1
            } else {
                last
            };
            self.pick(Some(to));
        } else if up_key(k) {
            self.pick(Some(idx.saturating_sub(1)));
        } else if k == KeyCode::Enter {
            self.pick(None);
            if idx < n {
                assert(nv[idx as int] == names@[idx as int]@);
                return Action::Open(Some(names[idx].clone()), true);
            }
        } else if k == KeyCode::Esc || k == KeyCode::Char('E') || k == KeyCode::Char('q') {
            self.pick(None);
        }
        Action::Nothing
    }

    fn key_control(&mut self, key: KeyEvent) -> (r: bool)
        ensures
            match old(self)@.key_control(key) {
                Some(a) => r && final(self)@ == a,
                None => !r && final(self)@ == old(self)@,
            },
    {
        reveal(AppV::key_control);
        if (key.code == KeyCode::Char('c') && key.ctrl) || (key.code == KeyCode::Char('q')
            && !key.ctrl) {
            self.ask_quit();
            return true;
        }
        if !key.ctrl {
            return false;
        }
        if key.code == KeyCode::Char('j') {
            let area = match self.focused() {
                Area::Worktree => Area::History,
                Area::History => Area::Tree,
                Area::Tree => Area::Diff,
                Area::Diff => Area::Diff,
            };
            self.go_to(area);
            self.sync_narrow_diff();
            return true;
        }
        if key.code == KeyCode::Char('k') {
            let area = match self.focused() {
                Area::Worktree => Area::Worktree,
                Area::History => Area::Worktree,
                Area::Tree => Area::History,
                Area::Diff => Area::Tree,
            };
            self.go_to(area);
            self.sync_narrow_diff();
            return true;
        }
        if key.code == KeyCode::Char('l') {
            self.ask_clear();
            return true;
        }
        false
    }

    fn next_wt(&mut self)
        ensures
            final(self)@ == old(self)@.set_wt(old(self)@.wt_after()),
    {
        let n = self.wt_count();
        let last = if n == 0 {
            0
        } else {
            n - 1
        };
        let to = if self.selected_wt() < last {
            self.selected_wt() + 1
        } else {
            last
        };
        self.set_wt(to);
    }

    fn prev_wt(&mut self)
        ensures
            final(self)@ == old(self)@.set_wt(old(self)@.wt_before()),
    {
        let to = self.selected_wt().saturating_sub(1);
        self.set_wt(to);
    }

    fn next_hist(&mut self) -> (r: Action)
        ensures
            (final(self)@, r@) == loading(old(self)@.set_hist(old(self)@.hist() + 1)),
    {
        reveal(AppV::set_hist);
        let cur = self.hist_sel();
        self.load_hist(cur.saturating_add(1))
    }

    fn prev_hist(&mut self) -> (r: Action)
        ensures
            (final(self)@, r@) == loading(old(self)@.set_hist(most(old(self)@.hist() - 1, 0))),
    {
        let cur = self.hist_sel();
        self.load_hist(cur.saturating_sub(1))
    }

    /// Keys that flip a setting; whether `c` is one.
    fn key_toggle(&mut self, c: char, now: u64) -> (r: bool)
        ensures
            r == (c == 's' || c == 'w' || c == 't' || c == '/' || c == 'E' || c == '<' || c == '>'),
            r ==> old(self)@.key_anywhere(KeyCode::Char(c), now) == Some(
                (final(self)@, ActionV::Nothing),
            ),
            !r ==> final(self)@ == old(self)@,
    {
        reveal(AppV::key_anywhere);
        if c == 's' {
            let on = self.wants_sides();
            self.show_sides(!on);
        } else if c == 'w' {
            let on = self.wraps();
            self.wrap_lines(!on);
            if on {
                self.set_status("wrap: OFF", now);
            } else {
                self.set_status("wrap: ON", now);
            }
        } else if c == 't' {
            let on = self.is_flat();
            self.show_flat(!on);
            self.clamp_cursor();
        } else if c == '/' {
            self.type_filter(true);
        } else if c == 'E' {
            let names = self.opener_names();
            assert(strs(names@).len() == names@.len());
            if names.len() == 0 {
                self.set_status(
                    "no opener configured (set [open] in ~/.config/wtd/config.toml)",
                    now,
                );
            } else {
                self.pick(Some(0));
            }
        } else if c == '<' {
            let p = self.split().saturating_sub(4);
            self.split_at(
                if p < 15 {
                    15
                } else {
                    p
                },
            );
        } else if c == '>' {
            let p = self.split().saturating_add(4);
            self.split_at(
                if p > 85 {
                    85
                } else {
                    p
                },
            );
        } else {
            return false;
        }
        true
    }

    fn key_anywhere(&mut self, k: KeyCode, now: u64) -> (r: Option<Action>)
        ensures
            match r {
                Some(act) => old(self)@.key_anywhere(k, now) == Some((final(self)@, act@)),
                None => old(self)@.key_anywhere(k, now) is None && final(self)@ == old(self)@,
            },
    {
        reveal(AppV::key_anywhere);
        let c = match k {
            KeyCode::Char(c) => c,
            _ => {
                return None;
            },
        };
        if '1' <= c && c <= '9' {
            let i: usize = (c as u32 - '1' as u32) as usize;
            self.set_wt(i);
            return Some(Action::Nothing);
        }
        if c == '{' {
            self.prev_wt();
            return Some(Action::Nothing);
        }
        if c == '}' {
            self.next_wt();
            return Some(Action::Nothing);
        }
        if c == '[' {
            return Some(self.prev_hist());
        }
        if c == ']' {
            return Some(self.next_hist());
        }
        if self.key_toggle(c, now) {
            return Some(Action::Nothing);
        }
        if c == 'o' || c == 'e' {
            return Some(Action::Open(None, true));
        }
        if c == 'O' {
            return Some(Action::OpenSystem);
        }
        if c == 'f' {
            let on = self.is_following();
            self.follow_changes(!on);
            if on {
                self.set_status("follow: OFF", now);
                return Some(Action::Nothing);
            }
            self.set_status("follow: ON", now);
            return Some(Action::Follow);
        }
        None
    }

    fn key_worktree(&mut self, k: KeyCode)
        ensures
            final(self)@ == old(self)@.key_worktree(k),
    {
        reveal(AppV::key_worktree);
        if left_key(k) {
            self.prev_wt();
        } else if right_key(k) {
            self.next_wt();
        } else if k == KeyCode::Enter {
            self.go_to(Area::History);
        }
    }

    fn key_history(&mut self, k: KeyCode) -> (r: Action)
        ensures
            (final(self)@, r@) == old(self)@.key_history(k),
    {
        reveal(AppV::key_history);
        if left_key(k) {
            return self.prev_hist();
        }
        if right_key(k) {
            return self.next_hist();
        }
        if k == KeyCode::Enter {
            self.go_to(Area::Tree);
        } else if k == KeyCode::Esc {
            self.go_to(Area::Worktree);
        }
        Action::Nothing
    }
}

fn find_parent(rows: &Vec<Row>, cursor: usize, depth: usize) -> (r: Option<usize>)
    requires
        cursor <= rows@.len(),
    ensures
        match r {
            Some(i) => parent_row(rows_view(rows@), cursor as int, depth) == Some(i as int),
            None => parent_row(rows_view(rows@), cursor as int, depth) is None,
        },
{
    let ghost rv = rows_view(rows@);
    let mut i: usize = cursor;
    while i > 0
        invariant
            rv == rows_view(rows@),
            i <= cursor <= rows@.len(),
            parent_row(rv, cursor as int, depth) == parent_row(rv, i as int, depth),
        decreases i,
    {
        assert(rv[i - 1] == rows@[i - 1]@);
        if rows[i - 1].depth < depth {
            return Some(i - 1);
        }
        i -= 1;
    }
    None
}

impl App {
    fn show_diff(&mut self)
        ensures
            final(self)@ == old(self)@.focus_on(Area::Diff).sync_narrow_diff(),
    {
        self.go_to(Area::Diff);
        self.sync_narrow_diff();
    }

    fn tree_left(&mut self, rows: &Vec<Row>, cursor: usize)
        requires
            old(self)@.has_ui(),
            cursor == old(self)@.ui().cursor,
            rows_view(rows@) == old(self)@.rows(),
            cursor < rows@.len(),
        ensures
            final(self)@ == old(self)@.tree_left(old(self)@.rows()[cursor as int]),
    {
        reveal(AppV::tree_left);
        let row = &rows[cursor];
        assert(rows_view(rows@)[cursor as int] == row@);
        if let Some(dir) = &row.dir_path {
            if row.expanded {
                self.put_fold(dir.as_str(), true);
                self.clamp_cursor();
                return;
            }
        }
        if let Some(i) = find_parent(rows, cursor, row.depth) {
            self.put_cursor(i);
        }
    }

    fn tree_right(&mut self, row: &Row)
        requires
            old(self)@.has_ui(),
        ensures
            final(self)@ == old(self)@.tree_right(row@),
    {
        reveal(AppV::tree_right);
        match &row.dir_path {
            Some(dir) => {
                if !row.expanded {
                    self.put_fold(dir.as_str(), false);
                }
            },
            None => {
                if row.file_idx.is_some() {
                    self.show_diff();
                }
            },
        }
    }

    fn tree_enter(&mut self, row: &Row)
        requires
            old(self)@.has_ui(),
        ensures
            final(self)@ == old(self)@.tree_enter(row@),
    {
        reveal(AppV::tree_enter);
        match &row.dir_path {
            Some(dir) => {
                self.put_fold(dir.as_str(), row.expanded);
                self.clamp_cursor();
            },
            None => {
                if row.file_idx.is_some() {
                    self.show_diff();
                }
            },
        }
    }

    fn key_tree(&mut self, k: KeyCode)
        ensures
            final(self)@ == old(self)@.key_tree(k),
    {
        reveal(AppV::key_tree);
        if down_key(k) {
            self.move_cursor(true);
            self.scroll_diff(0);
        } else if up_key(k) {
            self.move_cursor(false);
            self.scroll_diff(0);
        } else if left_key(k) || right_key(k) || k == KeyCode::Enter {
            let rows = self.rows();
            let cursor = match self.cur_ui() {
                Some(u) => u.cursor,
                None => {
                    return;
                },
            };
            if cursor >= rows.len() {
                return;
            }
            assert(rows_view(rows@)[cursor as int] == rows@[cursor as int]@);
            if left_key(k) {
                self.tree_left(&rows, cursor);
            } else if right_key(k) {
                self.tree_right(&rows[cursor]);
            } else {
                self.tree_enter(&rows[cursor]);
            }
        } else if k == KeyCode::Esc {
            self.go_to(Area::History);
        }
    }

    fn key_diff(&mut self, k: KeyCode) -> (r: Action)
        ensures
            (final(self)@, r@) == old(self)@.key_diff(k),
    {
        reveal(AppV::key_diff);
        let at = self.scrolled();
        let max = self.max_scroll();
        let limit = if max > at {
            max
        } else {
            at
        };
        let half = self.page() / 2;
        if down_key(k) {
            self.scroll_diff(
                if at < limit {
                    at + 1
                } else {
                    limit
                },
            );
        } else if up_key(k) {
            self.scroll_diff(at.saturating_sub(1));
        } else if k == KeyCode::PageDown || k == KeyCode::Char('d') {
            self.scroll_diff(
                if half < limit - at {
                    at + half
                } else {
                    limit
                },
            );
        } else if k == KeyCode::PageUp || k == KeyCode::Char('u') {
            self.scroll_diff(at.saturating_sub(half));
        } else if k == KeyCode::Char('n') {
            return Action::Jump(true);
        } else if k == KeyCode::Char('p') {
            return Action::Jump(false);
        } else if k == KeyCode::Char('J') {
            self.step_file(true);
        } else if k == KeyCode::Char('K') {
            self.step_file(false);
        } else if left_key(k) || k == KeyCode::Esc {
            self.go_to(Area::Tree);
            self.sync_narrow_diff();
        }
        Action::Nothing
    }

    fn key_focused(&mut self, k: KeyCode) -> (r: Action)
        ensures
            (final(self)@, r@) == old(self)@.key_focused(k),
    {
        reveal(AppV::key_focused);
        match self.focused() {
            Area::Worktree => {
                self.key_worktree(k);
                Action::Nothing
            },
            Area::History => self.key_history(k),
            Area::Tree => {
                self.key_tree(k);
                Action::Nothing
            },
            Area::Diff => self.key_diff(k),
        }
    }

    /// Handle a key, at `now` milliseconds. What comes back is to be done outside.
    pub fn on_key(&mut self, key: KeyEvent, now: u64) -> (r: Action)
        ensures
            (final(self)@, r@) == old(self)@.on_key(key, now),
    {
        reveal(AppV::on_key);
        self.clear_status();
        if self.is_typing() {
            self.key_filter(key.code);
            return Action::Nothing;
        }
        if let Some(idx) = self.picked() {
            return self.key_picker(key.code, idx);
        }
        if self.key_control(key) {
            return Action::Nothing;
        }
        if let Some(action) = self.key_anywhere(key.code, now) {
            return action;
        }
        self.key_focused(key.code)
    }
}

} // verus!
