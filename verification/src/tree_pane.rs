//! The pane with the file list.

use crate::app::{App, AppV, Area, WtUiV};
use crate::git::{badge_of, files_view, FileChange, FileStatus, FileV};
use crate::icons::{file_icon, icon_of, DIR_CLOSED, DIR_COLOR, DIR_OPEN};
use crate::screen::{
    add_draw, add_line, add_seg, bold, draws_view, framed, ink, inked_seg, inked_text, inside_frame,
    line, one_line, one_seg_line, raw_seg, raw_text, text_line, text_view, Draw, DrawV, LineV, Rect,
    TextLine, ACCENT, ACCENT_FG, CURSOR_BG_UNFOCUS, CYAN, FG_DIM, FG_MAIN, GREEN, INACTIVE_SEL,
    MAGENTA, RED, YELLOW,
};
use crate::status_out::{stats_of, stats_text};
use crate::style::{hex, rgb, segs_view, Color, Seg, SegV, Style};
use crate::text::{after_last, blanks, capped, cat, dec, decimal, rsplit_after, spaces};
use crate::tree::{rows_view, Row, RowV};
use crate::width::{str_columns, str_width};
use crate::wrap::{spread, spread_upto, window};
use vstd::prelude::*;
use vstd::string::*;

verus! {

/// The color of a status.
pub open spec fn badge_color(status: FileStatus) -> u32 {
    match status {
        FileStatus::Modified => YELLOW,
        FileStatus::Added => GREEN,
        FileStatus::Deleted => RED,
        FileStatus::Renamed => MAGENTA,
        FileStatus::Untracked => CYAN,
        FileStatus::Other => FG_DIM,
    }
}

/// The letter for a status and its color.
pub fn badge_style(status: FileStatus) -> (r: (char, u32))
    ensures
        r.0 == badge_of(status),
        r.1 == badge_color(status),
{
    let c = status.badge();
    let color = match status {
        FileStatus::Modified => YELLOW,
        FileStatus::Added => GREEN,
        FileStatus::Deleted => RED,
        FileStatus::Renamed => MAGENTA,
        FileStatus::Untracked => CYAN,
        FileStatus::Other => FG_DIM,
    };
    (c, color)
}

/// The color of a pane's frame.
pub open spec fn frame_color(focused: bool) -> Color {
    if focused {
        hex(ACCENT)
    } else {
        hex(INACTIVE_SEL)
    }
}

/// The color of a pane's frame.
pub fn frame_ink(focused: bool) -> (r: Color)
    ensures
        r == frame_color(focused),
{
    if focused {
        rgb(ACCENT)
    } else {
        rgb(INACTIVE_SEL)
    }
}

// ---- Rows ------------------------------------------------------------------------

/// The spaces in front of a row.
pub open spec fn indent(depth: usize) -> Seq<char> {
    blanks(capped((depth * 2 + 1) as nat))
}

fn make_indent(depth: usize) -> (r: String)
    ensures
        r@ == indent(depth),
{
    let n: usize = if depth > (usize::MAX - 1) / 2 {
        usize::MAX
    } else {
        depth * 2 + 1
    };
    proof {
        assert(n == capped((depth * 2 + 1) as nat));
    }
    spaces(n)
}

/// The pieces of a directory's row.
pub open spec fn dir_spans(row: RowV, icons: bool) -> Seq<SegV> {
    let arrow = inked_seg(
        FG_DIM,
        if row.expanded {
            "▾ "@
        } else {
            "▸ "@
        },
    );
    let icon = inked_seg(
        DIR_COLOR,
        (if row.expanded {
            DIR_OPEN@
        } else {
            DIR_CLOSED@
        }) + " "@,
    );
    let label = inked_seg(DIR_COLOR, row.label);
    let lead = raw_seg(indent(row.depth));
    if icons {
        seq![lead, arrow, icon, label]
    } else {
        seq![lead, arrow, label]
    }
}

/// The last part of a label.
pub open spec fn base_name(label: Seq<char>) -> Seq<char> {
    if label.contains('/') {
        after_last(label, '/')
    } else {
        label
    }
}

/// The pieces of a file's row, without its counts.
pub open spec fn file_spans(row: RowV, f: FileV, icons: bool) -> Seq<SegV> {
    let lead = raw_seg(indent(row.depth));
    let badge = inked_seg(badge_color(f.status), seq![badge_of(f.status)] + " "@);
    let (glyph, color) = icon_of(base_name(row.label));
    let icon = SegV { style: crate::style::inked(color), text: glyph + " "@ };
    let label = inked_seg(FG_MAIN, row.label);
    if icons {
        seq![lead, badge, icon, label]
    } else {
        seq![lead, badge, label]
    }
}

/// The mark of the file that is followed.
pub open spec fn now_mark(followed: bool) -> Seq<char> {
    if followed {
        " ← now"@
    } else {
        ""@
    }
}

/// The columns between a file's name and its counts; 0 where there is no room for them.
pub open spec fn gap(used: nat, f: FileV, followed: bool, width: usize) -> nat {
    let taken = used + str_columns(stats_text(f)) + str_columns(now_mark(followed)) + 1;
    if taken < width {
        (width - taken) as nat
    } else {
        0
    }
}

/// The counts of a file, in color.
pub open spec fn stats_spans(f: FileV) -> Seq<SegV> {
    match (f.added, f.deleted) {
        (Some(a), Some(d)) => seq![
            inked_seg(GREEN, "+"@ + decimal(a as nat)),
            raw_seg(" "@),
            inked_seg(RED, "-"@ + decimal(d as nat)),
        ],
        _ => seq![inked_seg(GREEN, "Bin"@)],
    }
}

/// The mark of the file that is followed, in color.
pub open spec fn mark_spans(followed: bool) -> Seq<SegV> {
    if followed {
        seq![inked_seg(MAGENTA, " ← now"@)]
    } else {
        seq![]
    }
}

/// The pieces of a file's row: with its counts at the right where there is room.
pub open spec fn file_row_spans(row: RowV, f: FileV, icons: bool, followed: bool, width: usize) -> Seq<
    SegV,
> {
    let head = file_spans(row, f, icons);
    let n = gap(spread(head), f, followed, width);
    if n > 0 {
        head.push(raw_seg(blanks(n))) + stats_spans(f) + mark_spans(followed)
    } else {
        head
    }
}

/// The pieces of a row.
pub open spec fn row_spans(
    row: RowV,
    files: Seq<FileV>,
    icons: bool,
    followed: bool,
    width: usize,
) -> Seq<SegV> {
    if row.dir_path is Some {
        dir_spans(row, icons)
    } else if row.file_idx is Some {
        file_row_spans(row, files[row.file_idx->0 as int], icons, followed, width)
    } else {
        seq![raw_seg(indent(row.depth))]
    }
}

/// Pieces with another text color.
pub open spec fn recolored(v: Seq<SegV>, c: Color) -> Seq<SegV> {
    v.map_values(|s: SegV| SegV { style: Style { fg: Some(c), ..s.style }, text: s.text })
}

/// A row as a line; the one under the cursor stands out.
pub open spec fn row_line(spans: Seq<SegV>, is_cursor: bool, focused: bool) -> LineV {
    if is_cursor && focused {
        LineV { spans: recolored(spans, hex(ACCENT_FG)), bg: Some(hex(ACCENT)) }
    } else if is_cursor {
        LineV { spans, bg: Some(hex(CURSOR_BG_UNFOCUS)) }
    } else {
        line(spans)
    }
}

impl AppV {
    /// The line of row `i`.
    pub open spec fn tree_line(self, i: int, width: usize) -> LineV {
        let is_cursor = i == self.ui().cursor;
        row_line(
            row_spans(
                self.rows()[i],
                self.files(),
                self.cfg.icons,
                self.follow && is_cursor,
                width,
            ),
            is_cursor,
            self.focus == Area::Tree,
        )
    }

    /// The lines of all rows.
    pub open spec fn tree_lines(self, width: usize) -> Seq<LineV> {
        Seq::new(self.rows().len(), |i: int| self.tree_line(i, width))
    }

    /// Where the file list is scrolled to, for the cursor to be among `h` lines.
    pub open spec fn tree_scroll(self, h: usize) -> usize {
        let u = self.ui();
        let s = if u.cursor < u.scroll {
            u.cursor
        } else {
            u.scroll
        };
        if h > 0 && u.cursor >= s + h {
            (u.cursor - h + 1) as usize
        } else {
            s
        }
    }

    /// The title of the file list.
    pub open spec fn tree_title(self) -> Seq<char> {
        if self.flat {
            " files (flat) "@
        } else {
            " files "@
        }
    }

    /// The state after the file list was drawn.
    #[verifier::opaque]
    pub open spec fn tree_drawn(self, rect: Rect) -> AppV {
        let h = framed(rect).height as usize;
        let a = self.with_tree_height(h);
        if !self.has_ui() {
            a
        } else {
            let b = a.with_ui(WtUiV { scroll: self.tree_scroll(h), ..self.ui() });
            if self.rows().len() == 0 && self.diff_height == 0 {
                b.with_diff_height(1)
            } else {
                b
            }
        }
    }

    /// What is drawn for the file list.
    pub open spec fn tree_draws(self, rect: Rect) -> Seq<DrawV> {
        let inner = framed(rect);
        let frame = DrawV::Frame(rect, frame_color(self.focus == Area::Tree), self.tree_title());
        if !self.has_ui() {
            seq![frame]
        } else if self.rows().len() == 0 {
            seq![frame, DrawV::Text(inner, seq![line(seq![inked_seg(FG_DIM, "(no changes)"@)])])]
        } else {
            seq![
                frame,
                DrawV::Text(
                    inner,
                    window(
                        self.tree_lines(inner.width as usize),
                        self.tree_scroll(inner.height as usize) as nat,
                        inner.height as nat,
                    ),
                ),
            ]
        }
    }
}

/// The cursor is among the lines that are shown.
pub proof fn law_cursor_is_shown(a: AppV, h: usize)
    requires
        h > 0,
    ensures
        a.tree_scroll(h) <= a.ui().cursor < a.tree_scroll(h) + h,
{
}

fn make_dir_spans(row: &Row, icons: bool) -> (r: Vec<Seg>)
    ensures
        segs_view(r@) == dir_spans(row@, icons),
{
    let mut spans: Vec<Seg> = Vec::new();
    assert(segs_view(spans@) =~= Seq::<SegV>::empty());
    add_seg(&mut spans, raw_text(make_indent(row.depth).as_str()));
    if row.expanded {
        add_seg(&mut spans, inked_text(FG_DIM, "▾ "));
    } else {
        add_seg(&mut spans, inked_text(FG_DIM, "▸ "));
    }
    if icons {
        let glyph = if row.expanded {
            DIR_OPEN
        } else {
            DIR_CLOSED
        };
        add_seg(&mut spans, inked_text(DIR_COLOR, cat(glyph, " ").as_str()));
    }
    add_seg(&mut spans, inked_text(DIR_COLOR, row.label.as_str()));
    assert(segs_view(spans@) =~= dir_spans(row@, icons));
    spans
}

fn find_base_name(label: &str) -> (r: String)
    ensures
        r@ == base_name(label@),
{
    match rsplit_after(label, '/') {
        Some(s) => s,
        None => label.to_string(),
    }
}

fn make_file_spans(row: &Row, f: &FileChange, icons: bool) -> (r: Vec<Seg>)
    ensures
        segs_view(r@) == file_spans(row@, f@, icons),
{
    let mut spans: Vec<Seg> = Vec::new();
    assert(segs_view(spans@) =~= Seq::<SegV>::empty());
    add_seg(&mut spans, raw_text(make_indent(row.depth).as_str()));
    let (badge, color) = badge_style(f.status);
    let mut b = String::new();
    b.push(badge);
    b.append(" ");
    assert(b@ =~= seq![badge_of(f.status)] + " "@);
    add_seg(&mut spans, inked_text(color, b.as_str()));
    if icons {
        let name = find_base_name(row.label.as_str());
        let (glyph, tint) = file_icon(name.as_str());
        add_seg(&mut spans, Seg { style: Style::ink(tint), text: cat(glyph, " ") });
    }
    add_seg(&mut spans, inked_text(FG_MAIN, row.label.as_str()));
    assert(segs_view(spans@) =~= file_spans(row@, f@, icons));
    spans
}

fn find_gap(spans: &Vec<Seg>, f: &FileChange, followed: bool, width: usize) -> (r: usize)
    ensures
        r == gap(spread(segs_view(spans@)), f@, followed, width),
{
    let used = spread_upto(spans, width);
    let stats = stats_of(f);
    let sw = str_width(stats.as_str());
    let mark = if followed {
        " ← now"
    } else {
        ""
    };
    let mw = str_width(mark);
    let left = width - used;
    if sw >= left || mw >= left - sw || 1 >= left - sw - mw {
        0
    } else {
        left - sw - mw - 1
    }
}

fn add_stats(spans: &mut Vec<Seg>, f: &FileChange)
    ensures
        segs_view(final(spans)@) == segs_view(old(spans)@) + stats_spans(f@),
{
    let ghost before = segs_view(spans@);
    match (f.added, f.deleted) {
        (Some(a), Some(d)) => {
            add_seg(spans, inked_text(GREEN, cat("+", dec(a).as_str()).as_str()));
            add_seg(spans, raw_text(" "));
            add_seg(spans, inked_text(RED, cat("-", dec(d).as_str()).as_str()));
        },
        _ => {
            add_seg(spans, inked_text(GREEN, "Bin"));
        },
    }
    assert(segs_view(spans@) =~= before + stats_spans(f@));
}

fn make_file_row(row: &Row, f: &FileChange, icons: bool, followed: bool, width: usize) -> (r: Vec<
    Seg,
>)
    ensures
        segs_view(r@) == file_row_spans(row@, f@, icons, followed, width),
{
    let mut spans = make_file_spans(row, f, icons);
    let n = find_gap(&spans, f, followed, width);
    if n > 0 {
        add_seg(&mut spans, raw_text(spaces(n).as_str()));
        add_stats(&mut spans, f);
        let ghost before = segs_view(spans@);
        if followed {
            add_seg(&mut spans, inked_text(MAGENTA, " ← now"));
        }
        assert(segs_view(spans@) =~= before + mark_spans(followed));
    }
    spans
}

fn recolor(spans: &mut Vec<Seg>, c: Color)
    ensures
        segs_view(final(spans)@) == recolored(segs_view(old(spans)@), c),
{
    let ghost all = segs_view(spans@);
    let mut out: Vec<Seg> = Vec::new();
    let mut i: usize = 0;
    while i < spans.len()
        invariant
            all == segs_view(spans@),
            i <= spans@.len(),
            segs_view(out@) =~= recolored(all, c).take(i as int),
        decreases spans@.len() - i,
    {
        let s = &spans[i];
        let t = Seg {
            style: Style { fg: Some(c), bg: s.style.bg, bold: s.style.bold },
            text: s.text.clone(),
        };
        let ghost out0 = out@;
        assert(all[i as int] == s@);
        add_seg(&mut out, t);
        assert(recolored(all, c)[i as int] == t@);
        i += 1;
    }
    assert(segs_view(out@) =~= recolored(all, c));
    *spans = out;
}

fn make_row_line(spans: Vec<Seg>, is_cursor: bool, focused: bool) -> (r: TextLine)
    ensures
        r@ == row_line(segs_view(spans@), is_cursor, focused),
{
    if is_cursor && focused {
        let mut spans = spans;
        recolor(&mut spans, rgb(ACCENT_FG));
        TextLine { spans, bg: Some(rgb(ACCENT)) }
    } else if is_cursor {
        TextLine { spans, bg: Some(rgb(CURSOR_BG_UNFOCUS)) }
    } else {
        text_line(spans)
    }
}

fn make_row_spans(
    row: &Row,
    files: &Vec<FileChange>,
    icons: bool,
    followed: bool,
    width: usize,
) -> (r: Vec<Seg>)
    requires
        row@.file_idx matches Some(k) ==> k < files@.len(),
    ensures
        segs_view(r@) == row_spans(row@, files_view(files@), icons, followed, width),
{
    if row.dir_path.is_some() {
        make_dir_spans(row, icons)
    } else if let Some(k) = row.file_idx {
        assert(files_view(files@)[k as int] == files@[k as int]@);
        make_file_row(row, &files[k], icons, followed, width)
    } else {
        let mut spans: Vec<Seg> = Vec::new();
        spans.push(raw_text(make_indent(row.depth).as_str()));
        assert(segs_view(spans@) =~= seq![raw_seg(indent(row.depth))]);
        spans
    }
}

impl App {
    fn make_tree_lines(&self, rows: &Vec<Row>, scroll: usize, h: usize, width: usize) -> (r: Vec<
        TextLine,
    >)
        requires
            self@.has_ui(),
            rows_view(rows@) == self@.rows(),
        ensures
            text_view(r@) == window(self@.tree_lines(width), scroll as nat, h as nat),
    {
        let ghost all = self@.tree_lines(width);
        let ghost goal = window(all, scroll as nat, h as nat);
        let focused = self.focused() == Area::Tree;
        let following = self.is_following();
        let icons = self.config().ui.icons;
        let cursor = match self.cur_ui() {
            Some(u) => u.cursor,
            None => 0,
        };
        let mut lines: Vec<TextLine> = Vec::new();
        let mut i: usize = scroll;
        while i < rows.len() && lines.len() < h
            invariant
                self@.has_ui(),
                rows_view(rows@) == self@.rows(),
                all == self@.tree_lines(width),
                goal == window(all, scroll as nat, h as nat),
                focused == (self@.focus == Area::Tree),
                following == self@.follow,
                icons == self@.cfg.icons,
                cursor == self@.ui().cursor,
                scroll <= i,
                i <= rows@.len() || i == scroll,
                lines@.len() == i - scroll,
                lines@.len() <= goal.len(),
                text_view(lines@) =~= goal.take(i - scroll),
            decreases rows@.len() - i,
        {
            let row = &rows[i];
            let is_cursor = i == cursor;
            let spans = match self.cur_wt() {
                Some(w) => {
                    let n = w.files.len();
                    proof {
                        crate::app::lemma_rows_in_range(self@);
                        assert(self@.rows()[i as int] == row@);
                    }
                    make_row_spans(row, &w.files, icons, following && is_cursor, width)
                },
                None => Vec::new(),
            };
            let l = make_row_line(spans, is_cursor, focused);
            let ghost l0 = lines@;
            proof {
                assert(l@ == all[i as int]);
                assert(goal[i - scroll] == all[i as int]);
            }
            add_line(&mut lines, l);
            assert(text_view(l0).len() == l0.len() && text_view(lines@).len() == lines@.len());
            i += 1;
        }
        assert(text_view(lines@) =~= goal);
        lines
    }

    /// Draw the file list: what is to be drawn comes back.
    pub fn render_tree_pane(&mut self, rect: Rect) -> (r: Vec<Draw>)
        ensures
            final(self)@ == old(self)@.tree_drawn(rect),
            draws_view(r@) == old(self)@.tree_draws(rect),
    {
        let ghost a = self@;
        let inner = inside_frame(rect);
        let h = inner.height as usize;
        let mut out: Vec<Draw> = Vec::new();
        assert(draws_view(out@) =~= Seq::<DrawV>::empty());
        let title = if self.is_flat() {
            " files (flat) "
        } else {
            " files "
        };
        let frame = frame_ink(self.focused() == Area::Tree);
        add_draw(&mut out, Draw::Frame(rect, frame, title.to_string()));
        let rows = self.rows();
        let (cursor, scroll) = match self.cur_ui() {
            Some(u) => (u.cursor, u.scroll),
            None => {
                self.put_tree_height(h);
                proof {
                    reveal(AppV::tree_drawn);
                    assert(draws_view(out@) =~= a.tree_draws(rect));
                }
                return out;
            },
        };
        let s0 = if cursor < scroll {
            cursor
        } else {
            scroll
        };
        let s1 = if h > 0 && cursor - s0 >= h {
            cursor - h + 1
        } else {
            s0
        };
        let empty = rows.len() == 0;
        if empty {
            let l = one_seg_line(inked_text(FG_DIM, "(no changes)"));
            add_draw(&mut out, Draw::Text(inner, one_line(l)));
        } else {
            let lines = self.make_tree_lines(&rows, s1, h, inner.width as usize);
            add_draw(&mut out, Draw::Text(inner, lines));
        }
        assert(draws_view(out@) =~= a.tree_draws(rect));
        let height = self.page();
        self.put_tree_height(h);
        proof {
            lemma_tree_height(a, h);
        }
        self.put_scroll(s1);
        if empty && height == 0 {
            self.put_diff_height(1);
        }
        reveal(AppV::tree_drawn);
        out
    }
}

proof fn lemma_tree_height(a: AppV, h: usize)
    ensures
        a.with_tree_height(h).has_ui() == a.has_ui(),
        a.with_tree_height(h).ui() == a.ui(),
{
    reveal(AppV::with_tree_height);
}

} // verus!
