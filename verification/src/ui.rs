//! The screen: where its parts are, and what is drawn in them.

use crate::app::{App, AppV};
use crate::bars::{cols16, low16};
use crate::diff_pane::opt_doc;
use crate::diffview::{DiffDoc, DocV};
use crate::screen::{
    add_draw, columns_in, draws_view, framed, inked_seg, inked_text, inside_frame, line, min16, minus16,
    one_line, one_seg_line, rows_in, split_columns, split_rows, Draw, DrawV, Rect, Share, FG_DIM,
};
use crate::width::{str_columns, str_width};
use vstd::prelude::*;

verus! {

// ---- Parts of the screen ---------------------------------------------------------

/// What is between the bars.
#[derive(Clone, Copy, Debug, PartialEq, Eq, Structural)]
pub enum Body {
    /// The file list alone
    Tree(Rect),
    /// The diff alone
    Diff(Rect),
    /// The file list and the diff
    Both(Rect, Rect),
}

/// Where the parts of the screen are.
#[derive(Clone, Copy, Debug, PartialEq, Eq, Structural)]
pub struct Screen {
    /// All of it
    pub area: Rect,
    /// The title
    pub title: Rect,
    /// What is at the right of the title
    pub base: Rect,
    /// The worktree bar
    pub worktrees: Rect,
    /// The history bar
    pub history: Rect,
    /// The summary at the right of the history bar
    pub summary: Rect,
    /// What is between the bars
    pub body: Body,
    /// The bottom line
    pub help: Rect,
}

/// What the lines of the screen are for, from top to bottom: the title, the worktree bar, the
/// history bar, the body and the bottom line.
pub fn screen_shares() -> (r: Vec<Share>)
    ensures
        r@ == seq![
            Share::Length(1),
            Share::Length(1),
            Share::Length(1),
            Share::AtLeast(3),
            Share::Length(1),
        ],
{
    let v = vec![
        Share::Length(1),
        Share::Length(1),
        Share::Length(1),
        Share::AtLeast(3),
        Share::Length(1),
    ];
    assert(v@ =~= seq![
        Share::Length(1),
        Share::Length(1),
        Share::Length(1),
        Share::AtLeast(3),
        Share::Length(1),
    ]);
    v
}

/// A line with so many columns at its right.
pub fn line_shares(right: u16) -> (r: Vec<Share>)
    ensures
        r@ == seq![Share::AtLeast(0), Share::Length(right)],
{
    let v = vec![Share::AtLeast(0), Share::Length(right)];
    assert(v@ =~= seq![Share::AtLeast(0), Share::Length(right)]);
    v
}

/// The file list with so many percent of the columns, and the diff.
pub fn body_shares(percent: u16) -> (r: Vec<Share>)
    ensures
        r@ == seq![Share::Percent(percent), Share::AtLeast(10)],
{
    let v = vec![Share::Percent(percent), Share::AtLeast(10)];
    assert(v@ =~= seq![Share::Percent(percent), Share::AtLeast(10)]);
    v
}

/// The columns for a text and one more, counted in 16 bits.
pub open spec fn one_more(n: usize) -> u16 {
    ((low16(n) + 1) % 65536) as u16
}

fn count_one_more(n: usize) -> (r: u16)
    ensures
        r == one_more(n),
{
    cols16(n).wrapping_add(1)
}

/// What the layout solver is asked for: the lines of the screen, the columns of its first and of
/// its third line, and the columns of the body.
#[derive(Debug)]
pub struct Asked {
    pub rows: Vec<Share>,
    pub head: Vec<Share>,
    pub history: Vec<Share>,
    pub panes: Vec<Share>,
}

/// What the layout solver is asked for, as a mathematical value.
#[verifier::ext_equal]
pub struct AskedV {
    pub rows: Seq<Share>,
    pub head: Seq<Share>,
    pub history: Seq<Share>,
    pub panes: Seq<Share>,
}

impl View for Asked {
    type V = AskedV;

    open spec fn view(&self) -> AskedV {
        AskedV {
            rows: self.rows@,
            head: self.head@,
            history: self.history@,
            panes: self.panes@,
        }
    }
}

/// Whether an area was cut into five lines, and the first, the third and the fourth of them into
/// two columns each.
pub open spec fn cut_up(
    area: Rect,
    rows: Seq<Rect>,
    head: Seq<Rect>,
    hist: Seq<Rect>,
    panes: Seq<Rect>,
) -> bool {
    &&& rows.len() == 5
    &&& head.len() == 2
    &&& hist.len() == 2
    &&& panes.len() == 2
    &&& rows_in(rows, area)
    &&& columns_in(head, rows[0])
    &&& columns_in(hist, rows[2])
    &&& columns_in(panes, rows[3])
}

/// Which part of the screen is for what: the title at the left of the first line and the base at
/// its right, the worktree bar on the second, the history bar at the left of the third and its
/// summary at the right, the body on the fourth, and the help on the fifth. A narrow screen shows
/// the diff or the file list on all of the body, another one the file list at the left and the
/// diff at the right.
pub open spec fn placed(
    area: Rect,
    rows: Seq<Rect>,
    head: Seq<Rect>,
    hist: Seq<Rect>,
    panes: Seq<Rect>,
    narrow: bool,
    narrow_diff: bool,
) -> Screen {
    Screen {
        area,
        title: head[0],
        base: head[1],
        worktrees: rows[1],
        history: hist[0],
        summary: hist[1],
        body: if narrow {
            if narrow_diff {
                Body::Diff(rows[3])
            } else {
                Body::Tree(rows[3])
            }
        } else {
            Body::Both(panes[0], panes[1])
        },
        help: rows[4],
    }
}

/// Which part of the screen is for what: `rows` are its lines, `head` and `hist` the parts of the
/// first and of the third, and `panes` those of the body.
pub fn place(
    area: Rect,
    rows: &Vec<Rect>,
    head: &Vec<Rect>,
    hist: &Vec<Rect>,
    panes: &Vec<Rect>,
    narrow: bool,
    narrow_diff: bool,
) -> (r: Screen)
    requires
        rows@.len() == 5,
        head@.len() == 2,
        hist@.len() == 2,
        panes@.len() == 2,
    ensures
        r == placed(area, rows@, head@, hist@, panes@, narrow, narrow_diff),
{
    let body = if narrow {
        if narrow_diff {
            Body::Diff(rows[3])
        } else {
            Body::Tree(rows[3])
        }
    } else {
        Body::Both(panes[0], panes[1])
    };
    Screen {
        area,
        title: head[0],
        base: head[1],
        worktrees: rows[1],
        history: hist[0],
        summary: hist[1],
        body,
        help: rows[4],
    }
}

impl AppV {
    /// What is asked for on a screen that is so wide.
    pub open spec fn asked(self, width: u16, unix: i64) -> AskedV {
        AskedV {
            rows: seq![
                Share::Length(1),
                Share::Length(1),
                Share::Length(1),
                Share::AtLeast(3),
                Share::Length(1),
            ],
            head: seq![Share::AtLeast(0), Share::Length(self.title_columns())],
            history: seq![
                Share::AtLeast(0),
                Share::Length(self.summary_columns(width, unix)),
            ],
            panes: seq![Share::Percent(self.split_pct), Share::AtLeast(10)],
        }
    }

    /// The columns for what is at the right of the title.
    pub open spec fn title_columns(self) -> u16 {
        one_more(str_columns(self.title_right()))
    }

    /// The columns for the summary at the right of the history bar: half of the line at most.
    pub open spec fn summary_columns(self, width: u16, unix: i64) -> u16 {
        min16(one_more(str_columns(self.hist_summary(unix))), width / 2)
    }

    /// The state on a screen that is so wide: with fewer columns than the configuration says it is
    /// narrow.
    #[verifier::opaque]
    pub open spec fn sized(self, width: u16) -> AppV {
        if width < self.cfg.narrow_cols {
            self.with_narrow(true)
        } else {
            self.with_narrow(false).with_narrow_diff(false)
        }
    }
}

impl App {
    /// The columns for what is at the right of the title.
    pub fn title_columns(&self) -> (r: u16)
        ensures
            r == self@.title_columns(),
    {
        count_one_more(str_width(self.title_right().as_str()))
    }

    /// The columns for the summary at the right of the history bar.
    pub fn summary_columns(&self, width: u16, unix: i64) -> (r: u16)
        ensures
            r == self@.summary_columns(width, unix),
    {
        let n = count_one_more(str_width(self.hist_summary(unix).as_str()));
        if n < width / 2 {
            n
        } else {
            width / 2
        }
    }

    fn resize(&mut self, width: u16)
        ensures
            final(self)@ == old(self)@.sized(width),
    {
        reveal(AppV::sized);
        if width < self.config().general.narrow_cols {
            self.put_narrow(true);
        } else {
            self.put_narrow(false);
            self.put_narrow_diff(false);
        }
    }

    /// What is asked for on a screen that is so wide.
    pub fn asked(&self, width: u16, unix: i64) -> (r: Asked)
        ensures
            r@ == self@.asked(width, unix),
    {
        let r = Asked {
            rows: screen_shares(),
            head: line_shares(self.title_columns()),
            history: line_shares(self.summary_columns(width, unix)),
            panes: body_shares(self.split()),
        };
        assert(r@ =~= self@.asked(width, unix));
        r
    }

    /// Where the parts of the screen are, and whether it is narrow. The layout solver cuts the
    /// area into lines, and three of the lines into columns, as `asked` says; how much it gives
    /// each part is left to it. `place` says which part is for what.
    pub fn layout(&mut self, area: Rect, unix: i64) -> (r: Screen)
        ensures
            final(self)@ == old(self)@.sized(area.width),
            exists|rows: Seq<Rect>, head: Seq<Rect>, hist: Seq<Rect>, panes: Seq<Rect>|
                {
                    &&& cut_up(area, rows, head, hist, panes)
                    &&& r == #[trigger] placed(
                        area,
                        rows,
                        head,
                        hist,
                        panes,
                        final(self)@.narrow,
                        final(self)@.narrow_diff,
                    )
                },
    {
        self.resize(area.width);
        let asked = self.asked(area.width, unix);
        let rows = split_rows(area, &asked.rows);
        assert(rows@.len() == 5);
        let head = split_columns(rows[0], &asked.head);
        let hist = split_columns(rows[2], &asked.history);
        let panes = split_columns(rows[3], &asked.panes);
        assert(cut_up(area, rows@, head@, hist@, panes@));
        place(area, &rows, &head, &hist, &panes, self.is_narrow(), self.diff_fills())
    }
}

// ---- Drawing ---------------------------------------------------------------------

impl AppV {
    /// Whether there is something to draw: a worktree, and no more history than can be counted.
    pub open spec fn drawable(self) -> bool {
        &&& self.wts.len() > 0
        &&& self.hist_len() < usize::MAX
    }

    /// Whether a document is shown on the screen: its pane is there, with room, and a file is
    /// selected.
    pub open spec fn wants_doc(self, screen: Screen) -> bool {
        &&& self.selected_file() is Some
        &&& match screen.body {
            Body::Tree(_) => false,
            Body::Diff(r) => framed(r).height >= 2,
            Body::Both(_, r) => framed(r).height >= 2,
        }
    }

    /// The state after the body was drawn.
    #[verifier::opaque]
    pub open spec fn body_drawn(self, body: Body, doc: Option<DocV>) -> AppV {
        match body {
            Body::Diff(r) => self.diff_drawn(r, doc),
            Body::Tree(r) => self.with_diff_height(minus16(r.height, 3) as usize).tree_drawn(r),
            Body::Both(t, d) => self.tree_drawn(t).diff_drawn(d, doc),
        }
    }

    /// What is drawn in the body.
    #[verifier::opaque]
    pub open spec fn body_draws(self, body: Body, doc: Option<DocV>) -> Seq<DrawV> {
        match body {
            Body::Diff(r) => self.diff_draws(r, doc),
            Body::Tree(r) => self.with_diff_height(minus16(r.height, 3) as usize).tree_draws(r),
            Body::Both(t, d) => self.tree_draws(t) + self.tree_drawn(t).diff_draws(d, doc),
        }
    }

    /// What is drawn in the bars above the body.
    pub open spec fn top_draws(self, screen: Screen, unix: i64) -> Seq<DrawV> {
        seq![
            DrawV::Text(screen.title, seq![self.title_line()]),
            DrawV::Right(screen.base, seq![self.title_right_line()]),
            DrawV::Text(screen.worktrees, seq![self.wt_bar(screen.worktrees.width)]),
            DrawV::Text(screen.history, seq![self.hist_bar(screen.history.width)]),
            DrawV::Right(
                screen.summary,
                seq![line(seq![inked_seg(FG_DIM, self.hist_summary(unix))])],
            ),
        ]
    }

    /// What is drawn on the screen, in order: the bars, the body, the bottom line, and over them
    /// the list of openers.
    pub open spec fn draws(self, screen: Screen, doc: Option<DocV>, now: u64, unix: i64) -> Seq<
        DrawV,
    > {
        let done = self.body_drawn(screen.body, doc);
        self.top_draws(screen, unix) + self.body_draws(screen.body, doc) + seq![
            DrawV::Text(
                screen.help,
                seq![line(seq![inked_seg(FG_DIM, done.bottom_text(now))])],
            ),
        ] + done.picker_draws(screen.area)
    }
}

fn add_draws(out: &mut Vec<Draw>, more: Vec<Draw>)
    ensures
        draws_view(final(out)@) == draws_view(old(out)@) + draws_view(more@),
{
    let ghost before = out@;
    let ghost m = more@;
    let mut more = more;
    out.append(&mut more);
    assert(draws_view(out@) =~= draws_view(before) + draws_view(m));
}

impl App {
    /// Whether there is something to draw.
    pub fn drawable(&self) -> (r: bool)
        ensures
            r == self@.drawable(),
    {
        self.wt_count() > 0 && self.hist_len() < usize::MAX
    }

    /// Whether a document is shown on the screen.
    pub fn wants_doc(&self, screen: &Screen) -> (r: bool)
        ensures
            r == self@.wants_doc(*screen),
    {
        self.selected_file().is_some() && match screen.body {
            Body::Tree(_) => false,
            Body::Diff(r) => inside_frame(r).height >= 2,
            Body::Both(_, r) => inside_frame(r).height >= 2,
        }
    }

    fn render_body(&mut self, body: Body, doc: Option<&DiffDoc>) -> (r: Vec<Draw>)
        ensures
            final(self)@ == old(self)@.body_drawn(body, opt_doc(doc)),
            draws_view(r@) == old(self)@.body_draws(body, opt_doc(doc)),
    {
        reveal(AppV::body_drawn);
        reveal(AppV::body_draws);
        match body {
            Body::Diff(r) => self.render_diff_pane(r, doc),
            Body::Tree(r) => {
                self.put_diff_height(r.height.saturating_sub(3) as usize);
                self.render_tree_pane(r)
            },
            Body::Both(t, d) => {
                let mut out = self.render_tree_pane(t);
                let more = self.render_diff_pane(d, doc);
                add_draws(&mut out, more);
                out
            },
        }
    }

    fn render_top(&self, screen: &Screen, unix: i64) -> (r: Vec<Draw>)
        requires
            self@.drawable(),
        ensures
            draws_view(r@) == self@.top_draws(*screen, unix),
    {
        let mut out: Vec<Draw> = Vec::new();
        assert(draws_view(out@) =~= Seq::<DrawV>::empty());
        add_draw(&mut out, Draw::Text(screen.title, one_line(self.title_line())));
        add_draw(&mut out, Draw::Right(screen.base, one_line(self.title_right_line())));
        let worktrees = self.render_wtbar(screen.worktrees.width);
        add_draw(&mut out, Draw::Text(screen.worktrees, one_line(worktrees)));
        let history = self.render_histbar(screen.history.width);
        add_draw(&mut out, Draw::Text(screen.history, one_line(history)));
        let summary = one_seg_line(inked_text(FG_DIM, self.hist_summary(unix).as_str()));
        add_draw(&mut out, Draw::Right(screen.summary, one_line(summary)));
        assert(draws_view(out@) =~= self@.top_draws(*screen, unix));
        out
    }

    /// Draw the screen, with the document of the selected file, at `now` milliseconds and `unix`
    /// seconds since the epoch: what is to be drawn comes back.
    pub fn render(&mut self, screen: &Screen, doc: Option<&DiffDoc>, now: u64, unix: i64) -> (r: Vec<
        Draw,
    >)
        requires
            old(self)@.drawable(),
        ensures
            final(self)@ == old(self)@.body_drawn(screen.body, opt_doc(doc)),
            draws_view(r@) == old(self)@.draws(*screen, opt_doc(doc), now, unix),
    {
        let ghost a = self@;
        let mut out = self.render_top(screen, unix);
        let body = self.render_body(screen.body, doc);
        add_draws(&mut out, body);
        let help = one_seg_line(inked_text(FG_DIM, self.bottom_text(now).as_str()));
        add_draw(&mut out, Draw::Text(screen.help, one_line(help)));
        let picker = self.render_picker(screen.area);
        add_draws(&mut out, picker);
        assert(draws_view(out@) =~= a.draws(*screen, opt_doc(doc), now, unix));
        out
    }
}

} // verus!
