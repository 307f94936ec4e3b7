//! The lines above and below the panes: title, tabs, help; and the list of openers.

use crate::app::{App, AppV, Area, WtDataV};
use crate::config::names_of;
use crate::git::{totals, totals_of};
use crate::pace::since;
use crate::refresh::{age, elapsed, fmt_age};
use crate::screen::{
    add_draw, add_line, add_seg, bold, draws_view, framed, ink, inked_seg, inked_text, inside_frame,
    line, minus16, one_seg_line, raw_seg, raw_text, text_line, text_view, Draw, DrawV, LineV, Rect,
    TextLine, ACCENT, ACCENT_FG, FG_DIM, FG_MAIN, GREEN, INACTIVE_SEL, MAGENTA, RED,
};
use crate::status_out::plus_minus;
use crate::style::{hex, rgb, segs_view, Seg, SegV, Style};
use crate::text::{cat, dec, decimal, first_chars, strs, take_chars};
use crate::width::{str_columns, str_width};
use crate::wrap::{spread, spread_upto};
use vstd::prelude::*;
use vstd::string::*;

verus! {

// ---- Title -----------------------------------------------------------------------

impl AppV {
    /// The text at the right of the title.
    pub open spec fn title_right(self) -> Seq<char> {
        if self.follow {
            "● follow  "@ + ("base: "@ + self.base)
        } else {
            "base: "@ + self.base
        }
    }

    /// The title.
    pub open spec fn title_line(self) -> LineV {
        line(
            seq![
                SegV { style: bold(ACCENT), text: " wtd "@ },
                inked_seg(FG_MAIN, "— "@ + self.repo_name),
            ],
        )
    }

    /// The line at the right of the title.
    pub open spec fn title_right_line(self) -> LineV {
        line(
            seq![
                inked_seg(
                    if self.follow {
                        MAGENTA
                    } else {
                        FG_DIM
                    },
                    self.title_right(),
                ),
            ],
        )
    }
}

impl App {
    /// The text at the right of the title.
    pub fn title_right(&self) -> (r: String)
        ensures
            r@ == self@.title_right(),
    {
        let right = cat("base: ", self.base_branch().as_str());
        if self.is_following() {
            cat("● follow  ", right.as_str())
        } else {
            right
        }
    }

    /// The title.
    pub fn title_line(&self) -> (r: TextLine)
        ensures
            r@ == self@.title_line(),
    {
        let mut spans: Vec<Seg> = Vec::new();
        spans.push(Seg::new(Style::bold_ink(rgb(ACCENT)), " wtd "));
        spans.push(inked_text(FG_MAIN, cat("— ", self.name().as_str()).as_str()));
        assert(segs_view(spans@) =~= self@.title_line().spans);
        text_line(spans)
    }

    /// The line at the right of the title.
    pub fn title_right_line(&self) -> (r: TextLine)
        ensures
            r@ == self@.title_right_line(),
    {
        let text = self.title_right();
        if self.is_following() {
            one_seg_line(inked_text(MAGENTA, text.as_str()))
        } else {
            one_seg_line(inked_text(FG_DIM, text.as_str()))
        }
    }
}

// ---- Tabs ------------------------------------------------------------------------

/// What is left of a number of columns in 16 bits.
pub open spec fn low16(n: usize) -> u16 {
    (n % 65536) as u16
}

/// What is left of a number of columns in 16 bits.
pub fn cols16(n: usize) -> (r: u16)
    ensures
        r == low16(n),
{
    (n % 65536) as u16
}

/// The values of tabs.
pub open spec fn tabs_view(v: Seq<Vec<Seg>>) -> Seq<Seq<SegV>> {
    v.map_values(|t: Vec<Seg>| segs_view(t@))
}

/// The columns of the tabs from `start` up to and with `sel`, with one column behind each.
pub open spec fn tabs_width(tabs: Seq<Seq<SegV>>, start: int, sel: int) -> nat
    decreases sel + 1 - start,
{
    if start > sel || start < 0 || sel >= tabs.len() {
        0
    } else {
        spread(tabs[start]) + 1 + tabs_width(tabs, start + 1, sel)
    }
}

/// The tab up to which tabs have to fit: the selected one, or the last one where none is.
pub open spec fn last_needed(tabs: Seq<Seq<SegV>>, sel: int) -> int {
    if sel < tabs.len() {
        sel
    } else {
        tabs.len() - 1
    }
}

/// The first tab to show, from `start` on, for the selected one to fit.
pub open spec fn first_tab(tabs: Seq<Seq<SegV>>, start: int, sel: int, avail: nat) -> int
    decreases sel - start,
{
    if start >= sel || tabs_width(tabs, start, last_needed(tabs, sel)) <= avail {
        start
    } else {
        first_tab(tabs, start + 1, sel, avail)
    }
}

/// Tabs one after the other, each with a space behind it.
pub open spec fn tabs_line(tabs: Seq<Seq<SegV>>) -> Seq<SegV>
    decreases tabs.len(),
{
    if tabs.len() == 0 {
        seq![]
    } else {
        (tabs_line(tabs.drop_last()) + tabs.last()).push(raw_seg(" "@))
    }
}

/// The label of a tab bar.
pub open spec fn bar_label(label: Seq<char>, focused: bool) -> SegV {
    SegV {
        style: if focused {
            bold(ACCENT)
        } else {
            ink(FG_DIM)
        },
        text: " "@ + label + " "@,
    }
}

/// A tab bar: its label, a sign where tabs are left out at the front, and the tabs from the first
/// one with which the selected one fits.
pub open spec fn bar(
    label: Seq<char>,
    tabs: Seq<Seq<SegV>>,
    sel: int,
    focused: bool,
    width: u16,
) -> LineV {
    let l = bar_label(label, focused);
    let avail = minus16(width, low16(str_columns(l.text)));
    let start = first_tab(tabs, 0, sel, avail as nat);
    let head = if start > 0 {
        seq![l, inked_seg(FG_DIM, "… "@)]
    } else {
        seq![l]
    };
    line(head + tabs_line(tabs.skip(start)))
}

proof fn lemma_first_tab(tabs: Seq<Seq<SegV>>, start: int, sel: int, avail: nat)
    requires
        0 <= start <= sel < tabs.len(),
    ensures
        start <= first_tab(tabs, start, sel, avail) <= sel,
        first_tab(tabs, start, sel, avail) < sel ==> tabs_width(
            tabs,
            first_tab(tabs, start, sel, avail),
            sel,
        ) <= avail,
    decreases sel - start,
{
    if start < sel && tabs_width(tabs, start, sel) > avail {
        lemma_first_tab(tabs, start + 1, sel, avail);
    }
}

/// The selected tab is shown, and it fits with all that is shown before it, unless it alone does
/// not fit.
pub proof fn law_selected_tab_shown(tabs: Seq<Seq<SegV>>, sel: int, avail: nat)
    requires
        0 <= sel < tabs.len(),
    ensures
        ({
            let start = first_tab(tabs, 0, sel, avail);
            &&& 0 <= start <= sel
            &&& tabs_width(tabs, start, sel) <= avail || start == sel
        }),
{
    lemma_first_tab(tabs, 0, sel, avail);
}

/// Whether the tabs from `start` up to and with `sel` fit.
fn tabs_fit(tabs: &Vec<Vec<Seg>>, start: usize, sel: usize, avail: usize) -> (r: bool)
    requires
        start <= sel < tabs@.len(),
    ensures
        r == (tabs_width(tabs_view(tabs@), start as int, sel as int) <= avail),
{
    let ghost tv = tabs_view(tabs@);
    let mut left: usize = avail;
    let mut i: usize = start;
    while i <= sel
        invariant
            tv == tabs_view(tabs@),
            start <= i <= sel + 1,
            sel < tabs.len(),
            left <= avail,
            tabs_width(tv, start as int, sel as int) == (avail - left) + tabs_width(
                tv,
                i as int,
                sel as int,
            ),
        decreases sel + 1 - i,
    {
        assert(tv[i as int] == segs_view(tabs@[i as int]@));
        let w = spread_upto(&tabs[i], left);
        if w >= left {
            return false;
        }
        left = left - w - 1;
        i += 1;
    }
    true
}

fn find_first_tab(tabs: &Vec<Vec<Seg>>, sel: usize, avail: usize) -> (r: usize)
    requires
        tabs@.len() > 0,
    ensures
        r == first_tab(tabs_view(tabs@), 0, sel as int, avail as nat),
        r <= tabs@.len(),
{
    let last = if sel < tabs.len() {
        sel
    } else {
        tabs.len() - 1
    };
    let mut start: usize = 0;
    while start < sel && start <= last && !tabs_fit(tabs, start, last, avail)
        invariant
            last == last_needed(tabs_view(tabs@), sel as int),
            last < tabs@.len(),
            start <= tabs@.len(),
            first_tab(tabs_view(tabs@), 0, sel as int, avail as nat) == first_tab(
                tabs_view(tabs@),
                start as int,
                sel as int,
                avail as nat,
            ),
        decreases sel - start,
    {
        start += 1;
    }
    start
}

/// A tab bar.
pub fn render_bar(label: &str, tabs: &Vec<Vec<Seg>>, sel: usize, focused: bool, width: u16) -> (r:
    TextLine)
    requires
        tabs@.len() > 0,
    ensures
        r@ == bar(label@, tabs_view(tabs@), sel as int, focused, width),
{
    let mut text = cat(" ", label);
    text.append(" ");
    let style = if focused {
        Style::bold_ink(rgb(ACCENT))
    } else {
        Style::ink(rgb(FG_DIM))
    };
    let avail = width.saturating_sub(cols16(str_width(text.as_str()))) as usize;
    let start = find_first_tab(tabs, sel, avail);
    let mut spans: Vec<Seg> = Vec::new();
    assert(segs_view(spans@) =~= Seq::<SegV>::empty());
    add_seg(&mut spans, Seg { style, text });
    if start > 0 {
        add_seg(&mut spans, inked_text(FG_DIM, "… "));
    }
    let ghost head = segs_view(spans@);
    let ghost tv = tabs_view(tabs@);
    let ghost rest = tv.skip(start as int);
    let mut i: usize = start;
    assert(rest.take(0) =~= Seq::<Seq<SegV>>::empty());
    assert(head + tabs_line(rest.take(0)) =~= head);
    while i < tabs.len()
        invariant
            tv == tabs_view(tabs@),
            rest == tv.skip(start as int),
            start <= i <= tabs@.len(),
            segs_view(spans@) == head + tabs_line(rest.take(i - start)),
        decreases tabs@.len() - i,
    {
        let copy = tabs[i].clone();
        let ghost s0 = spans@;
        proof {
            assert(tv[i as int] == segs_view(tabs@[i as int]@));
            assert(segs_view(copy@) =~= segs_view(tabs@[i as int]@));
            assert(rest.take(i + 1 - start).drop_last() =~= rest.take(i - start));
            assert(rest.take(i + 1 - start).last() == tv[i as int]);
        }
        crate::style::append_segs(&mut spans, copy);
        assert(segs_view(spans@) =~= segs_view(s0) + segs_view(copy@));
        add_seg(&mut spans, raw_text(" "));
        assert(segs_view(spans@) =~= head + tabs_line(rest.take(i + 1 - start)));
        i += 1;
    }
    assert(rest.take(rest.len() as int) =~= rest);
    assert(head =~= (if start > 0 {
        seq![bar_label(label@, focused), inked_seg(FG_DIM, "… "@)]
    } else {
        seq![bar_label(label@, focused)]
    }));
    text_line(spans)
}

/// The style of a tab.
pub open spec fn tab_look(selected: bool, focused: bool) -> Style {
    if selected && focused {
        Style { fg: Some(hex(ACCENT_FG)), bg: Some(hex(ACCENT)), bold: true }
    } else if selected {
        Style { fg: Some(hex(FG_MAIN)), bg: Some(hex(INACTIVE_SEL)), bold: false }
    } else {
        ink(FG_DIM)
    }
}

/// The style of a tab.
pub fn tab_style(selected: bool, focused: bool) -> (r: Style)
    ensures
        r == tab_look(selected, focused),
{
    if selected && focused {
        Style { fg: Some(rgb(ACCENT_FG)), bg: Some(rgb(ACCENT)), bold: true }
    } else if selected {
        Style { fg: Some(rgb(FG_MAIN)), bg: Some(rgb(INACTIVE_SEL)), bold: false }
    } else {
        Style::ink(rgb(FG_DIM))
    }
}

// ---- Worktrees -------------------------------------------------------------------

/// The style of a mark in a tab: its color shows where the tab is not selected.
pub open spec fn mark_look(selected: bool, focused: bool, c: u32) -> Style {
    if selected {
        tab_look(selected, focused)
    } else {
        ink(c)
    }
}

/// The tab of worktree `i`.
pub open spec fn wt_tab(wt: WtDataV, i: int, selected: bool, focused: bool) -> Seq<SegV> {
    let st = tab_look(selected, focused);
    let (a, d) = wt.all_totals;
    let name = seq![
        SegV { style: st, text: " "@ + decimal((i + 1) as nat) + " "@ },
        SegV { style: st, text: wt.info.branch },
    ];
    if a == 0 && d == 0 {
        name + seq![SegV { style: mark_look(selected, focused, GREEN), text: " ✓ "@ }]
    } else {
        name + seq![
            SegV {
                style: mark_look(selected, focused, GREEN),
                text: " +"@ + decimal(a as nat),
            },
            SegV {
                style: mark_look(selected, focused, RED),
                text: " -"@ + decimal(d as nat) + " "@,
            },
        ]
    }
}

impl AppV {
    /// The tabs of the worktrees.
    pub open spec fn wt_tabs(self) -> Seq<Seq<SegV>> {
        self.wts.map(
            |i: int, w: WtDataV| wt_tab(w, i, i == self.sel_wt, self.focus == Area::Worktree),
        )
    }

    /// The worktree bar.
    pub open spec fn wt_bar(self, width: u16) -> LineV {
        bar("worktree:"@, self.wt_tabs(), self.sel_wt as int, self.focus == Area::Worktree, width)
    }
}

fn mark_style(selected: bool, focused: bool, c: u32) -> (r: Style)
    ensures
        r == mark_look(selected, focused, c),
{
    if selected {
        tab_style(selected, focused)
    } else {
        Style::ink(rgb(c))
    }
}

fn make_wt_tab(wt: &crate::app::WtData, i: usize, selected: bool, focused: bool) -> (r: Vec<Seg>)
    requires
        i < usize::MAX,
    ensures
        segs_view(r@) == wt_tab(wt@, i as int, selected, focused),
{
    let st = tab_style(selected, focused);
    let (a, d) = wt.all_totals;
    let mut spans: Vec<Seg> = Vec::new();
    assert(segs_view(spans@) =~= Seq::<SegV>::empty());
    let mut no = cat(" ", dec((i + 1) as u64).as_str());
    no.append(" ");
    add_seg(&mut spans, Seg { style: st, text: no });
    add_seg(&mut spans, Seg { style: st, text: wt.info.branch.clone() });
    if a == 0 && d == 0 {
        add_seg(&mut spans, Seg::new(mark_style(selected, focused, GREEN), " ✓ "));
    } else {
        let plus = cat(" +", dec(a).as_str());
        let mut minus = cat(" -", dec(d).as_str());
        minus.append(" ");
        add_seg(&mut spans, Seg { style: mark_style(selected, focused, GREEN), text: plus });
        add_seg(&mut spans, Seg { style: mark_style(selected, focused, RED), text: minus });
    }
    assert(segs_view(spans@) =~= wt_tab(wt@, i as int, selected, focused));
    spans
}

impl App {
    /// The worktree bar.
    pub fn render_wtbar(&self, width: u16) -> (r: TextLine)
        requires
            self@.wts.len() > 0,
        ensures
            r@ == self@.wt_bar(width),
    {
        let focused = self.focused() == Area::Worktree;
        let sel = self.selected_wt();
        let wts = self.worktrees();
        let ghost goal = self@.wt_tabs();
        let mut tabs: Vec<Vec<Seg>> = Vec::new();
        let mut i: usize = 0;
        while i < wts.len()
            invariant
                wts_are(wts@, self@.wts),
                goal == self@.wt_tabs(),
                focused == (self@.focus == Area::Worktree),
                sel == self@.sel_wt,
                i <= wts.len(),
                tabs_view(tabs@) =~= goal.take(i as int),
            decreases wts.len() - i,
        {
            let tab = make_wt_tab(&wts[i], i, i == sel, focused);
            let ghost t0 = tabs@;
            tabs.push(tab);
            proof {
                assert(self@.wts[i as int] == wts@[i as int]@);
                assert(tabs_view(tabs@) =~= tabs_view(t0).push(segs_view(tab@)));
                assert(goal[i as int] == segs_view(tab@));
            }
            i += 1;
        }
        assert(tabs_view(tabs@) =~= goal);
        render_bar("worktree:", &tabs, sel, focused, width)
    }
}

spec fn wts_are(v: Seq<crate::app::WtData>, w: Seq<WtDataV>) -> bool {
    crate::app::wts_view(v) == w
}

// ---- History ---------------------------------------------------------------------

impl AppV {
    /// The label of entry `i` of the history: commits are numbered from the oldest.
    pub open spec fn hist_label(self, i: int) -> Seq<char> {
        if i == 0 {
            "All"@
        } else if i == 1 {
            "Current"@
        } else {
            "c"@ + decimal((self.history().len() + 2 - i) as nat)
        }
    }

    /// The tabs of the history.
    pub open spec fn hist_tabs(self) -> Seq<Seq<SegV>> {
        Seq::new(
            self.hist_len(),
            |i: int|
                seq![
                    SegV {
                        style: tab_look(i == self.hist(), self.focus == Area::History),
                        text: " "@ + self.hist_label(i) + " "@,
                    },
                ],
        )
    }

    /// The history bar.
    pub open spec fn hist_bar(self, width: u16) -> LineV {
        bar("history:"@, self.hist_tabs(), self.hist() as int, self.focus == Area::History, width)
    }

    /// The number of changed files and lines.
    pub open spec fn files_summary(self) -> Seq<char> {
        let (a, d) = totals_of(self.files());
        decimal(self.files().len()) + " files "@ + ("+"@ + decimal(a as nat) + " -"@ + decimal(
            d as nat,
        ))
    }

    /// The summary at the right of the history bar: also of the selected commit, or how old the
    /// latest one is.
    pub open spec fn hist_summary(self, unix: i64) -> Seq<char> {
        let s = self.files_summary();
        if self.hist() >= 2 {
            if self.hist() - 2 < self.history().len() {
                let c = self.history()[self.hist() - 2];
                c.short + " \""@ + first_chars(c.subject, 40) + "\" "@ + s + " · "@ + age(
                    elapsed(unix, c.time),
                )
            } else {
                s
            }
        } else if self.history().len() > 0 {
            s + " · commit "@ + age(elapsed(unix, self.history()[0].time))
        } else {
            s
        }
    }
}

impl App {
    fn make_hist_tab(&self, i: usize, sel: usize, focused: bool) -> (r: Vec<Seg>)
        requires
            i < self@.hist_len(),
            sel == self@.hist(),
            focused == (self@.focus == Area::History),
            self@.hist_len() <= usize::MAX,
        ensures
            segs_view(r@) == self@.hist_tabs()[i as int],
    {
        let n = self.hist_len();
        let label = if i == 0 {
            "All".to_string()
        } else if i == 1 {
            "Current".to_string()
        } else {
            cat("c", dec((n - i) as u64).as_str())
        };
        let mut text = cat(" ", label.as_str());
        text.append(" ");
        let mut spans: Vec<Seg> = Vec::new();
        spans.push(Seg { style: tab_style(i == sel, focused), text });
        assert(segs_view(spans@) =~= self@.hist_tabs()[i as int]);
        spans
    }

    /// The history bar.
    pub fn render_histbar(&self, width: u16) -> (r: TextLine)
        requires
            self@.hist_len() <= usize::MAX,
        ensures
            r@ == self@.hist_bar(width),
    {
        let focused = self.focused() == Area::History;
        let sel = self.hist_sel();
        let n = self.hist_len();
        let ghost goal = self@.hist_tabs();
        let mut tabs: Vec<Vec<Seg>> = Vec::new();
        let mut i: usize = 0;
        while i < n
            invariant
                goal == self@.hist_tabs(),
                focused == (self@.focus == Area::History),
                sel == self@.hist(),
                n == self@.hist_len(),
                i <= n,
                tabs_view(tabs@) =~= goal.take(i as int),
            decreases n - i,
        {
            let tab = self.make_hist_tab(i, sel, focused);
            let ghost t0 = tabs@;
            tabs.push(tab);
            assert(tabs_view(tabs@) =~= tabs_view(t0).push(segs_view(tab@)));
            i += 1;
        }
        assert(tabs_view(tabs@) =~= goal);
        render_bar("history:", &tabs, sel, focused, width)
    }

    fn files_summary(&self) -> (r: String)
        ensures
            r@ == self@.files_summary(),
    {
        match self.cur_wt() {
            Some(w) => {
                let (a, d) = totals(&w.files);
                let mut s = cat(dec(w.files.len() as u64).as_str(), " files ");
                s.append(plus_minus(a, d).as_str());
                s
            },
            None => {
                let mut s = cat(dec(0).as_str(), " files ");
                s.append(plus_minus(0, 0).as_str());
                s
            },
        }
    }

    /// The summary at the right of the history bar, at `unix` seconds since the epoch.
    pub fn hist_summary(&self, unix: i64) -> (r: String)
        ensures
            r@ == self@.hist_summary(unix),
    {
        let s = self.files_summary();
        let sel = self.hist_sel();
        match self.cur_wt() {
            None => s,
            Some(w) => {
                if sel >= 2 {
                    if sel - 2 < w.commits.len() {
                        let c = &w.commits[sel - 2];
                        assert(self@.history()[sel - 2] == c@);
                        let mut t = cat(c.short.as_str(), " \"");
                        t.append(take_chars(c.subject.as_str(), 40).as_str());
                        t.append("\" ");
                        t.append(s.as_str());
                        t.append(" · ");
                        t.append(fmt_age(unix, c.time).as_str());
                        t
                    } else {
                        s
                    }
                } else if w.commits.len() > 0 {
                    assert(self@.history()[0] == w.commits@[0]@);
                    let mut t = cat(s.as_str(), " · commit ");
                    t.append(fmt_age(unix, w.commits[0].time).as_str());
                    t
                } else {
                    s
                }
            },
        }
    }
}

// ---- Help ------------------------------------------------------------------------

impl AppV {
    /// What the keys do in the area that has the focus.
    pub open spec fn help_text(self) -> Seq<char> {
        let base = match self.focus {
            Area::Worktree => "[worktree] h/l:select  Enter:history  1-9:jump"@,
            Area::History => "[history] h/l:select  Enter:files  Esc:worktree"@,
            Area::Tree => {
                "[tree] j/k:move  h/l:fold/expand  t:flat  /:filter  o:open  O:system  f:follow"@
            },
            Area::Diff => "[diff] j/k:scroll  n/p:hunk  J/K:file  s:layout  w:wrap  h:back"@,
        };
        " "@ + base + "  C-j/C-k:area  {}:worktree  []:history  q:quit"@
    }

    /// The line at the bottom: the filter while it is typed, a message for three seconds, or
    /// what the keys do.
    pub open spec fn bottom_text(self, now: u64) -> Seq<char> {
        if self.filter_input {
            " filter: "@ + self.filter + "▌  (Enter:apply Esc:clear)"@
        } else {
            match self.status {
                Some((msg, t)) => if since(t, now) < 3000 {
                    " "@ + msg
                } else {
                    self.help_text()
                },
                None => self.help_text(),
            }
        }
    }
}

impl App {
    /// What the keys do in the area that has the focus.
    pub fn help_text(&self) -> (r: String)
        ensures
            r@ == self@.help_text(),
    {
        let base = match self.focused() {
            Area::Worktree => "[worktree] h/l:select  Enter:history  1-9:jump",
            Area::History => "[history] h/l:select  Enter:files  Esc:worktree",
            Area::Tree => {
                "[tree] j/k:move  h/l:fold/expand  t:flat  /:filter  o:open  O:system  f:follow"
            },
            Area::Diff => "[diff] j/k:scroll  n/p:hunk  J/K:file  s:layout  w:wrap  h:back",
        };
        let mut s = cat(" ", base);
        s.append("  C-j/C-k:area  {}:worktree  []:history  q:quit");
        s
    }

    /// The line at the bottom, at `now` milliseconds.
    pub fn bottom_text(&self, now: u64) -> (r: String)
        ensures
            r@ == self@.bottom_text(now),
    {
        if self.is_typing() {
            let mut s = cat(" filter: ", self.filter_text().as_str());
            s.append("▌  (Enter:apply Esc:clear)");
            return s;
        }
        match self.message() {
            Some((msg, t)) => {
                if now.saturating_sub(*t) < 3000 {
                    cat(" ", msg.as_str())
                } else {
                    self.help_text()
                }
            },
            None => self.help_text(),
        }
    }
}

// ---- Openers ---------------------------------------------------------------------

/// The line of an opener: a star marks the default one.
pub open spec fn opener_line(name: Seq<char>, default: Seq<char>, selected: bool) -> LineV {
    let mark = if name == default {
        "*"@
    } else {
        " "@
    };
    line(
        seq![
            SegV {
                style: if selected {
                    tab_look(true, true)
                } else {
                    ink(FG_MAIN)
                },
                text: " "@ + mark + " "@ + name + " "@,
            },
        ],
    )
}

/// Where the list of `n` openers is: in the middle of the screen.
pub open spec fn picker_rect(area: Rect, n: usize) -> Rect {
    let lines = ((low16(n) + 2) % 65536) as u16;
    let h = crate::screen::min16(lines, area.height);
    let w = crate::screen::min16(34, area.width);
    Rect { x: minus16(area.width, w) / 2, y: minus16(area.height, h) / 2, width: w, height: h }
}

impl AppV {
    /// The lines of the openers.
    pub open spec fn opener_lines(self, sel: usize) -> Seq<LineV> {
        names_of(self.cfg.openers).map(
            |i: int, n: Seq<char>| opener_line(n, self.cfg.default, i == sel),
        )
    }

    /// The list of openers, while one is picked.
    pub open spec fn picker_draws(self, area: Rect) -> Seq<DrawV> {
        let names = names_of(self.cfg.openers);
        match self.picker {
            Some(sel) => if names.len() == 0 {
                seq![]
            } else {
                let rect = picker_rect(area, names.len() as usize);
                seq![
                    DrawV::Clear(rect),
                    DrawV::Frame(rect, hex(ACCENT), " opener "@),
                    DrawV::Text(framed(rect), self.opener_lines(sel)),
                ]
            },
            None => seq![],
        }
    }
}

fn make_opener_line(name: &str, default: &str, selected: bool) -> (r: TextLine)
    ensures
        r@ == opener_line(name@, default@, selected),
{
    let mark = if crate::text::same(name, default) {
        "*"
    } else {
        " "
    };
    let mut text = cat(" ", mark);
    text.append(" ");
    text.append(name);
    text.append(" ");
    let style = if selected {
        tab_style(true, true)
    } else {
        Style::ink(rgb(FG_MAIN))
    };
    one_seg_line(Seg { style, text })
}

fn find_picker_rect(area: Rect, n: usize) -> (r: Rect)
    ensures
        r == picker_rect(area, n),
{
    let lines: u16 = cols16(n).wrapping_add(2);
    let h = if lines < area.height {
        lines
    } else {
        area.height
    };
    let w: u16 = if 34 < area.width {
        34
    } else {
        area.width
    };
    Rect {
        x: area.width.saturating_sub(w) / 2,
        y: area.height.saturating_sub(h) / 2,
        width: w,
        height: h,
    }
}

impl App {
    /// The list of openers, while one is picked.
    pub fn render_picker(&self, area: Rect) -> (r: Vec<Draw>)
        ensures
            draws_view(r@) == self@.picker_draws(area),
    {
        let mut out: Vec<Draw> = Vec::new();
        assert(draws_view(out@) =~= Seq::<DrawV>::empty());
        let sel = match self.picked() {
            Some(s) => s,
            None => {
                return out;
            },
        };
        let names = self.opener_names();
        let ghost nv = names_of(self@.cfg.openers);
        assert(strs(names@).len() == names@.len());
        if names.len() == 0 {
            return out;
        }
        let rect = find_picker_rect(area, names.len());
        let default = self.config().open.default.as_str();
        let ghost goal = self@.opener_lines(sel);
        let mut lines: Vec<TextLine> = Vec::new();
        let mut i: usize = 0;
        while i < names.len()
            invariant
                strs(names@) == nv,
                nv == names_of(self@.cfg.openers),
                default@ == self@.cfg.default,
                goal == self@.opener_lines(sel),
                i <= names@.len(),
                text_view(lines@) =~= goal.take(i as int),
            decreases names@.len() - i,
        {
            let l = make_opener_line(names[i].as_str(), default, i == sel);
            let ghost l0 = lines@;
            add_line(&mut lines, l);
            proof {
                assert(nv[i as int] == names@[i as int]@);
                assert(goal[i as int] == l@);
            }
            i += 1;
        }
        assert(text_view(lines@) =~= goal);
        add_draw(&mut out, Draw::Clear(rect));
        add_draw(&mut out, Draw::Frame(rect, rgb(ACCENT), " opener ".to_string()));
        add_draw(&mut out, Draw::Text(inside_frame(rect), lines));
        assert(draws_view(out@) =~= self@.picker_draws(area));
        out
    }
}

} // verus!
