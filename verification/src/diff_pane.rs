//! The pane with the diff.

use crate::app::{App, AppV, Area, LayoutKey, WtData, WtDataV};
use crate::diffview::{
    half_view, srows, urows, DiffDoc, DocV, Half, HalfV, SRow, SRowV, URow, URowV, FG_HUNK,
};
use crate::git::{badge_of, files_view, totals, totals_of, FileChange, FileV};
use crate::screen::{
    add_draw, add_line, add_lines, add_seg, bold, draws_view, framed, inked_seg, inked_text,
    inside_frame, line, one_line, one_seg_line, raw_seg, raw_text, text_line, text_view, Draw,
    DrawV, LineV, Rect, TextLine, FG_DIM, FG_MAIN, INACTIVE_SEL,
};
use crate::bars::{cols16, low16};
use crate::status_out::{plus_minus, stats_of, stats_text};
use crate::style::{append_segs, hex, rgb, segs_view, Color, Seg, SegV, Style};
use crate::text::{align_right, blanks, cat, dec, decimal, right_aligned, spaces};
use crate::tree_pane::{badge_color, badge_style, frame_color, frame_ink};
use crate::width::{str_columns, str_width};
use crate::wrap::{
    build_offsets_sxs, build_offsets_uni, clip_segs, clipped, lines_view, on, pad_to, padded,
    law_tops_follow_heights, sxs_height, sxs_heights, tops, total, uni_height, uni_heights, window,
    wrap_segs_window, wrapped,
};
use vstd::prelude::*;
use vstd::string::*;

verus! {

// ---- Rows of the diff ------------------------------------------------------------

/// The style of line numbers, on the background of their row.
pub open spec fn gutter_style(bg: Option<Color>) -> Style {
    Style {
        fg: Some(hex(FG_DIM)),
        bg: Some(
            match bg {
                Some(c) => c,
                None => Color::Reset,
            },
        ),
        bold: false,
    }
}

fn make_gutter_style(bg: Option<Color>) -> (r: Style)
    ensures
        r == gutter_style(bg),
{
    Style {
        fg: Some(rgb(FG_DIM)),
        bg: Some(
            match bg {
                Some(c) => c,
                None => Color::Reset,
            },
        ),
        bold: false,
    }
}

/// A line number as text; nothing where there is none.
pub open spec fn number_text(no: Option<u32>) -> Seq<char> {
    match no {
        Some(n) => decimal(n as nat),
        None => ""@,
    }
}

fn make_number(no: Option<u32>) -> (r: String)
    ensures
        r@ == number_text(no),
{
    match no {
        Some(n) => dec(n as u64),
        None => "".to_string(),
    }
}

/// The screen lines of some pieces in `width` columns: wrapped, at most `max` after the first
/// `skip`; or else one line, cut off.
pub open spec fn content_lines(
    segs: Seq<SegV>,
    wrap: bool,
    width: usize,
    skip: usize,
    max: usize,
) -> Seq<Seq<SegV>> {
    if wrap {
        window(wrapped(segs, width as nat), skip as nat, max as nat)
    } else {
        seq![clipped(segs, 0, width as nat)]
    }
}

fn make_content(segs: &Vec<Seg>, wrap: bool, width: usize, skip: usize, max: usize) -> (r: Vec<
    Vec<Seg>,
>)
    ensures
        lines_view(r@) == content_lines(segs_view(segs@), wrap, width, skip, max),
{
    if wrap {
        wrap_segs_window(segs, width, skip, max)
    } else {
        let mut v: Vec<Vec<Seg>> = Vec::new();
        let l = clip_segs(segs, width);
        v.push(l);
        assert(lines_view(v@) =~= seq![segs_view(l@)]);
        v
    }
}

/// The numbers in front of a one-column row: on the first of its screen lines.
pub open spec fn uni_gutter(row: URowV, numbered: bool) -> SegV {
    SegV {
        style: gutter_style(row.bg),
        text: if numbered {
            right_aligned(number_text(row.old_no), 5) + " "@ + right_aligned(
                number_text(row.new_no),
                5,
            ) + " "@
        } else {
            blanks(12)
        },
    }
}

/// The screen lines of a one-column row, at most `max` after the first `skip`.
pub open spec fn uni_screen(row: URowV, wrap: bool, width: usize, skip: usize, max: usize) -> Seq<
    LineV,
> {
    if row.is_hunk {
        seq![line(row.segs)]
    } else {
        content_lines(row.segs, wrap, width, skip, max).map(
            |j: int, l: Seq<SegV>|
                line(
                    seq![uni_gutter(row, j == 0 && skip == 0)] + padded(l, width as nat, row.bg),
                ),
        )
    }
}

/// The first `max` lines.
pub open spec fn at_most(v: Seq<LineV>, max: usize) -> Seq<LineV> {
    if v.len() > max {
        v.take(max as int)
    } else {
        v
    }
}

/// The screen lines of one-column rows, at most `max`; of the first row without its first `skip`.
pub open spec fn uni_body(rows: Seq<URowV>, wrap: bool, width: usize, skip: usize, max: usize) -> Seq<
    LineV,
>
    decreases rows.len(),
{
    if rows.len() == 0 || max == 0 {
        seq![]
    } else {
        let ls = at_most(uni_screen(rows[0], wrap, width, skip, max), max);
        ls + uni_body(rows.skip(1), wrap, width, 0, (max - ls.len()) as usize)
    }
}

fn make_uni_screen(row: &URow, wrap: bool, width: usize, skip: usize, max: usize) -> (r: Vec<
    TextLine,
>)
    ensures
        text_view(r@) == uni_screen(row@, wrap, width, skip, max),
{
    let mut out: Vec<TextLine> = Vec::new();
    assert(text_view(out@) =~= Seq::<LineV>::empty());
    if row.is_hunk {
        let copy = row.segs.clone();
        assert(segs_view(copy@) =~= segs_view(row.segs@));
        add_line(&mut out, text_line(copy));
        assert(text_view(out@) =~= uni_screen(row@, wrap, width, skip, max));
        return out;
    }
    let content = make_content(&row.segs, wrap, width, skip, max);
    let ghost cv = content_lines(row@.segs, wrap, width, skip, max);
    let ghost goal = uni_screen(row@, wrap, width, skip, max);
    let mut j: usize = 0;
    while j < content.len()
        invariant
            !row.is_hunk,
            lines_view(content@) == cv,
            cv == content_lines(row@.segs, wrap, width, skip, max),
            goal == uni_screen(row@, wrap, width, skip, max),
            j <= content@.len(),
            text_view(out@) =~= goal.take(j as int),
        decreases content@.len() - j,
    {
        let text = if j == 0 && skip == 0 {
            let mut g = align_right(make_number(row.old_no).as_str(), 5);
            g.append(" ");
            g.append(align_right(make_number(row.new_no).as_str(), 5).as_str());
            g.append(" ");
            g
        } else {
            spaces(12)
        };
        let mut wl = content[j].clone();
        proof {
            assert(segs_view(wl@) =~= segs_view(content@[j as int]@));
            assert(cv[j as int] == segs_view(content@[j as int]@));
        }
        pad_to(&mut wl, width, row.bg);
        let mut spans: Vec<Seg> = Vec::new();
        let gut = Seg { style: make_gutter_style(row.bg), text };
        spans.push(gut);
        append_segs(&mut spans, wl);
        let l = text_line(spans);
        proof {
            assert(segs_view(spans@) =~= seq![gut@] + segs_view(wl@));
            assert(l@ =~= goal[j as int]);
        }
        add_line(&mut out, l);
        j += 1;
    }
    assert(text_view(out@) =~= goal);
    out
}

/// Keep the first `max` lines.
fn keep_first(v: Vec<TextLine>, max: usize) -> (r: Vec<TextLine>)
    ensures
        text_view(r@) == at_most(text_view(v@), max),
{
    let mut v = v;
    let ghost v0 = v@;
    if v.len() > max {
        v.truncate(max);
    }
    assert(text_view(v@) =~= at_most(text_view(v0), max));
    v
}

fn make_uni_body(
    rows: &Vec<URow>,
    start: usize,
    wrap: bool,
    width: usize,
    skip: usize,
    max: usize,
) -> (r: Vec<TextLine>)
    requires
        start <= rows@.len(),
    ensures
        text_view(r@) == uni_body(urows(rows@).skip(start as int), wrap, width, skip, max),
{
    let ghost rv = urows(rows@);
    let ghost goal = uni_body(rv.skip(start as int), wrap, width, skip, max);
    let mut out: Vec<TextLine> = Vec::new();
    let mut left: usize = max;
    let mut first: usize = skip;
    let mut i: usize = start;
    assert(text_view(out@) =~= Seq::<LineV>::empty());
    while i < rows.len() && left > 0
        invariant
            rv == urows(rows@),
            i <= rows@.len(),
            text_view(out@) + uni_body(rv.skip(i as int), wrap, width, first, left) =~= goal,
        decreases rows@.len() - i,
    {
        let ghost rest = rv.skip(i as int);
        let ghost out0 = text_view(out@);
        let ls = keep_first(make_uni_screen(&rows[i], wrap, width, first, left), left);
        let n = ls.len();
        proof {
            assert(rest[0] == rows@[i as int]@);
            assert(rest.skip(1) =~= rv.skip(i + 1));
            assert(text_view(ls@).len() == n);
        }
        add_lines(&mut out, ls);
        left = left - n;
        first = 0;
        i += 1;
    }
    out
}

// ---- Two sides -------------------------------------------------------------------

/// The screen lines of one side of a row.
pub open spec fn half_lines(h: Option<HalfV>, wrap: bool, width: usize, skip: usize, max: usize) -> Seq<
    Seq<SegV>,
> {
    match h {
        Some(h) => content_lines(h.segs, wrap, width, skip, max),
        None => seq![],
    }
}

/// One side of screen line `j` of a row: its number and text, or the background where the other
/// side is higher.
pub open spec fn half_part(
    h: Option<HalfV>,
    lines: Seq<Seq<SegV>>,
    j: int,
    numbered: bool,
    width: usize,
) -> Seq<SegV> {
    match h {
        Some(h) => if j < lines.len() {
            seq![
                SegV {
                    style: gutter_style(h.bg),
                    text: if numbered {
                        right_aligned(decimal(h.no as nat), 5) + " "@
                    } else {
                        blanks(6)
                    },
                },
            ] + padded(lines[j], width as nat, h.bg)
        } else {
            seq![SegV { style: on(h.bg), text: blanks(6 + width as nat) }]
        },
        None => seq![raw_seg(blanks(6 + width as nat))],
    }
}

/// The screen lines that a row takes: those of its higher side, and at least one.
pub open spec fn row_lines(l: Seq<Seq<SegV>>, r: Seq<Seq<SegV>>) -> nat {
    if l.len() <= 1 && r.len() <= 1 {
        1
    } else if l.len() > r.len() {
        l.len()
    } else {
        r.len()
    }
}

/// The screen lines of a side-by-side row, at most `max` after the first `skip`.
pub open spec fn sxs_screen(row: SRowV, wrap: bool, width: usize, skip: usize, max: usize) -> Seq<
    LineV,
> {
    match row.header {
        Some(h) => seq![line(seq![inked_seg(FG_HUNK, h)])],
        None => {
            let l = half_lines(row.left, wrap, width, skip, max);
            let r = half_lines(row.right, wrap, width, skip, max);
            Seq::new(
                row_lines(l, r),
                |j: int|
                    line(
                        half_part(row.left, l, j, j == 0 && skip == 0, width).push(
                            inked_seg(INACTIVE_SEL, "│"@),
                        ) + half_part(row.right, r, j, j == 0 && skip == 0, width),
                    ),
            )
        },
    }
}

/// The screen lines of side-by-side rows, at most `max`; of the first row without its first
/// `skip`.
pub open spec fn sxs_body(rows: Seq<SRowV>, wrap: bool, width: usize, skip: usize, max: usize) -> Seq<
    LineV,
>
    decreases rows.len(),
{
    if rows.len() == 0 || max == 0 {
        seq![]
    } else {
        let ls = at_most(sxs_screen(rows[0], wrap, width, skip, max), max);
        ls + sxs_body(rows.skip(1), wrap, width, 0, (max - ls.len()) as usize)
    }
}

fn make_half_lines(h: &Option<Half>, wrap: bool, width: usize, skip: usize, max: usize) -> (r: Vec<
    Vec<Seg>,
>)
    ensures
        lines_view(r@) == half_lines(half_view(*h), wrap, width, skip, max),
{
    match h {
        Some(h) => make_content(&h.segs, wrap, width, skip, max),
        None => {
            let v: Vec<Vec<Seg>> = Vec::new();
            assert(lines_view(v@) =~= Seq::<Seq<SegV>>::empty());
            v
        },
    }
}

fn make_half_part(
    h: &Option<Half>,
    lines: &Vec<Vec<Seg>>,
    j: usize,
    numbered: bool,
    width: usize,
) -> (r: Vec<Seg>)
    requires
        width <= usize::MAX - 6,
    ensures
        segs_view(r@) == half_part(half_view(*h), lines_view(lines@), j as int, numbered, width),
{
    let mut spans: Vec<Seg> = Vec::new();
    assert(segs_view(spans@) =~= Seq::<SegV>::empty());
    match h {
        Some(hd) => {
            if j < lines.len() {
                let text = if numbered {
                    cat(align_right(dec(hd.no as u64).as_str(), 5).as_str(), " ")
                } else {
                    spaces(6)
                };
                let gut = Seg { style: make_gutter_style(hd.bg), text };
                spans.push(gut);
                let mut wl = lines[j].clone();
                proof {
                    assert(lines_view(lines@)[j as int] == segs_view(lines@[j as int]@));
                    assert(segs_view(wl@) =~= segs_view(lines@[j as int]@));
                }
                pad_to(&mut wl, width, hd.bg);
                append_segs(&mut spans, wl);
                assert(segs_view(spans@) =~= seq![gut@] + segs_view(wl@));
            } else {
                let style = Style { fg: None, bg: hd.bg, bold: false };
                add_seg(&mut spans, Seg { style, text: spaces(6 + width) });
            }
        },
        None => {
            add_seg(&mut spans, raw_text(spaces(6 + width).as_str()));
        },
    }
    assert(segs_view(spans@) =~= half_part(
        half_view(*h),
        lines_view(lines@),
        j as int,
        numbered,
        width,
    ));
    spans
}

fn make_sxs_screen(row: &SRow, wrap: bool, width: usize, skip: usize, max: usize) -> (r: Vec<
    TextLine,
>)
    requires
        width <= usize::MAX - 6,
    ensures
        text_view(r@) == sxs_screen(row@, wrap, width, skip, max),
{
    let mut out: Vec<TextLine> = Vec::new();
    assert(text_view(out@) =~= Seq::<LineV>::empty());
    if let Some(h) = &row.header {
        add_line(&mut out, one_seg_line(inked_text(FG_HUNK, h.as_str())));
        assert(text_view(out@) =~= sxs_screen(row@, wrap, width, skip, max));
        return out;
    }
    let l = make_half_lines(&row.left, wrap, width, skip, max);
    let r = make_half_lines(&row.right, wrap, width, skip, max);
    let ghost lv = half_lines(row@.left, wrap, width, skip, max);
    let ghost rv = half_lines(row@.right, wrap, width, skip, max);
    let ghost goal = sxs_screen(row@, wrap, width, skip, max);
    let n = if l.len() <= 1 && r.len() <= 1 {
        1
    } else if l.len() > r.len() {
        l.len()
    } else {
        r.len()
    };
    let mut j: usize = 0;
    proof {
        assert(lines_view(l@).len() == l@.len());
        assert(lines_view(r@).len() == r@.len());
        assert(n == row_lines(lv, rv));
    }
    while j < n
        invariant
            width <= usize::MAX - 6,
            row@.header is None,
            lines_view(l@) == lv,
            lines_view(r@) == rv,
            lv == half_lines(row@.left, wrap, width, skip, max),
            rv == half_lines(row@.right, wrap, width, skip, max),
            goal == sxs_screen(row@, wrap, width, skip, max),
            n == row_lines(lv, rv),
            j <= n,
            text_view(out@) =~= goal.take(j as int),
        decreases n - j,
    {
        let numbered = j == 0 && skip == 0;
        let mut spans = make_half_part(&row.left, &l, j, numbered, width);
        add_seg(&mut spans, inked_text(INACTIVE_SEL, "│"));
        let ghost s0 = spans@;
        let right = make_half_part(&row.right, &r, j, numbered, width);
        append_segs(&mut spans, right);
        let t = text_line(spans);
        proof {
            assert(segs_view(spans@) =~= segs_view(s0) + segs_view(right@));
            assert(t@ =~= goal[j as int]);
        }
        add_line(&mut out, t);
        j += 1;
    }
    assert(text_view(out@) =~= goal);
    out
}

fn make_sxs_body(
    rows: &Vec<SRow>,
    start: usize,
    wrap: bool,
    width: usize,
    skip: usize,
    max: usize,
) -> (r: Vec<TextLine>)
    requires
        start <= rows@.len(),
        width <= usize::MAX - 6,
    ensures
        text_view(r@) == sxs_body(srows(rows@).skip(start as int), wrap, width, skip, max),
{
    let ghost rv = srows(rows@);
    let ghost goal = sxs_body(rv.skip(start as int), wrap, width, skip, max);
    let mut out: Vec<TextLine> = Vec::new();
    let mut left: usize = max;
    let mut first: usize = skip;
    let mut i: usize = start;
    assert(text_view(out@) =~= Seq::<LineV>::empty());
    while i < rows.len() && left > 0
        invariant
            rv == srows(rows@),
            width <= usize::MAX - 6,
            i <= rows@.len(),
            text_view(out@) + sxs_body(rv.skip(i as int), wrap, width, first, left) =~= goal,
        decreases rows@.len() - i,
    {
        let ghost rest = rv.skip(i as int);
        let ghost out0 = text_view(out@);
        let ls = keep_first(make_sxs_screen(&rows[i], wrap, width, first, left), left);
        let n = ls.len();
        proof {
            assert(rest[0] == rows@[i as int]@);
            assert(rest.skip(1) =~= rv.skip(i + 1));
            assert(text_view(ls@).len() == n);
        }
        add_lines(&mut out, ls);
        left = left - n;
        first = 0;
        i += 1;
    }
    out
}

// ---- Layout ----------------------------------------------------------------------

/// How many leading lines are not after `at`.
pub open spec fn leading(lines: Seq<usize>, at: usize) -> nat
    decreases lines.len(),
{
    if lines.len() == 0 || lines[0] > at {
        0
    } else {
        1 + leading(lines.skip(1), at)
    }
}

/// The table of where rows begin, without the end of the last one.
pub open spec fn row_starts(offsets: Seq<usize>) -> Seq<usize> {
    if offsets.len() == 0 {
        offsets
    } else {
        offsets.drop_last()
    }
}

/// The row that is on a screen line.
pub open spec fn row_at(offsets: Seq<usize>, at: usize) -> nat {
    let n = leading(row_starts(offsets), at);
    if n == 0 {
        0
    } else {
        (n - 1) as nat
    }
}

/// The number of screen lines.
pub open spec fn line_count(offsets: Seq<usize>) -> usize {
    if offsets.len() == 0 {
        0
    } else {
        offsets.last()
    }
}

/// `a - b`, or 0 where `b` is larger.
pub open spec fn less_by(a: usize, b: usize) -> usize {
    if a < b {
        0
    } else {
        (a - b) as usize
    }
}

/// The lesser of two numbers.
pub open spec fn lesser(a: usize, b: usize) -> usize {
    if a < b {
        a
    } else {
        b
    }
}

/// The columns of text on each of two sides, for a width.
pub open spec fn side_width(width: u16) -> usize {
    less_by(width as usize, 15) / 2
}

/// The columns of text in one column, for a width.
pub open spec fn text_width(width: u16) -> usize {
    less_by(width as usize, 12)
}

/// What is left of rows from row `start` on.
pub open spec fn from_row<T>(rows: Seq<T>, start: nat) -> Seq<T> {
    if start > rows.len() {
        seq![]
    } else {
        rows.skip(start as int)
    }
}

/// The lines left for a diff when a note takes one.
pub open spec fn body_height(height: u16, noted: bool) -> usize {
    if noted {
        less_by((height - 1) as usize, 1)
    } else {
        (height - 1) as usize
    }
}

fn count_leading(lines: &Vec<usize>, end: usize, at: usize) -> (r: usize)
    requires
        end <= lines@.len(),
    ensures
        r == leading(lines@.take(end as int), at),
        r <= end,
{
    let ghost s = lines@.take(end as int);
    let mut i: usize = 0;
    assert(s.skip(0) =~= s);
    while i < end && lines[i] <= at
        invariant
            s == lines@.take(end as int),
            i <= end <= lines@.len(),
            leading(s, at) == i + leading(s.skip(i as int), at),
        decreases end - i,
    {
        assert(s.skip(i as int)[0] == lines@[i as int]);
        assert(s.skip(i as int).skip(1) =~= s.skip(i + 1));
        i += 1;
    }
    proof {
        if i < end {
            assert(s.skip(i as int)[0] == lines@[i as int]);
        }
    }
    i
}

fn find_row(offsets: &Vec<usize>, at: usize) -> (r: usize)
    ensures
        r == row_at(offsets@, at),
{
    let end = offsets.len().saturating_sub(1);
    assert(offsets@.take(end as int) =~= row_starts(offsets@));
    count_leading(offsets, end, at).saturating_sub(1)
}

impl AppV {
    /// What the table from rows to screen lines has to be made for.
    pub open spec fn wanted_layout(self, width: u16) -> LayoutKey {
        (self.cur_doc_gen, width, self.wrap, self.effective_sxs)
    }

    /// The table from rows to screen lines of a document.
    pub open spec fn table(self, doc: DocV, width: u16) -> Seq<usize> {
        if self.effective_sxs {
            tops(sxs_heights(doc.sxs, self.wrap, side_width(width) as nat))
        } else {
            tops(uni_heights(doc.unified, self.wrap, text_width(width) as nat))
        }
    }

    /// The screen line to show first in a new table: that of the row that was shown first, where
    /// the table is for the same document in the same view.
    pub open spec fn new_scroll(self, offsets: Seq<usize>, width: u16) -> usize {
        let key = self.wanted_layout(width);
        match self.layout_key {
            Some(old) => if old.0 == key.0 && old.3 == key.3 && self.row_offsets.len() > 1 {
                let r = row_at(self.row_offsets, self.diff_scroll);
                if r < offsets.len() {
                    offsets[r as int]
                } else {
                    0
                }
            } else {
                self.diff_scroll
            },
            None => self.diff_scroll,
        }
    }

    /// The state with a table for a document.
    #[verifier::opaque]
    pub open spec fn lay_out(self, doc: DocV, width: u16) -> AppV {
        let key = self.wanted_layout(width);
        if self.layout_key == Some(key) {
            self
        } else {
            let offsets = self.table(doc, width);
            self.with_scroll(self.new_scroll(offsets, width)).with_offsets(
                offsets,
            ).with_layout_key(Some(key))
        }
    }

    /// The screen lines of a document that are shown, `h` at most.
    pub open spec fn diff_body(self, doc: DocV, width: u16, h: usize) -> Seq<LineV> {
        let at = lesser(self.diff_scroll, less_by(line_count(self.row_offsets), 1));
        let start = row_at(self.row_offsets, at);
        let starts = row_starts(self.row_offsets);
        let skip = if start < starts.len() {
            less_by(at, starts[start as int])
        } else {
            at
        };
        if self.effective_sxs {
            sxs_body(from_row(doc.sxs, start), self.wrap, side_width(width), skip, h)
        } else {
            uni_body(from_row(doc.unified, start), self.wrap, text_width(width), skip, h)
        }
    }

    /// The state with the diff scrolled no further than it is long, and the limit for scrolling.
    #[verifier::opaque]
    pub open spec fn settle(self, h: usize) -> AppV {
        let n = line_count(self.row_offsets);
        self.with_scroll(lesser(self.diff_scroll, less_by(n, 1))).with_max_scroll(less_by(n, h))
    }
}

fn get_side_width(width: u16) -> (r: usize)
    ensures
        r == side_width(width),
{
    (width as usize).saturating_sub(15) / 2
}

fn get_text_width(width: u16) -> (r: usize)
    ensures
        r == text_width(width),
{
    (width as usize).saturating_sub(12)
}

fn count_lines(offsets: &Vec<usize>) -> (r: usize)
    ensures
        r == line_count(offsets@),
{
    if offsets.len() == 0 {
        0
    } else {
        offsets[offsets.len() - 1]
    }
}

impl App {
    fn make_table(&self, doc: &DiffDoc, width: u16) -> (r: Vec<usize>)
        ensures
            r@ == self@.table(doc@, width),
    {
        if self.shows_sides() {
            build_offsets_sxs(&doc.sxs, self.wraps(), get_side_width(width))
        } else {
            build_offsets_uni(&doc.unified, self.wraps(), get_text_width(width))
        }
    }

    fn find_new_scroll(&self, offsets: &Vec<usize>, key: LayoutKey, Ghost(width): Ghost<u16>) -> (r:
        usize)
        requires
            key == self@.wanted_layout(width),
        ensures
            r == self@.new_scroll(offsets@, width),
    {
        match self.layout_made_for() {
            Some(old) => {
                if old.0 == key.0 && old.3 == key.3 && self.offsets().len() > 1 {
                    let r = find_row(self.offsets(), self.scrolled());
                    if r < offsets.len() {
                        offsets[r]
                    } else {
                        0
                    }
                } else {
                    self.scrolled()
                }
            },
            None => self.scrolled(),
        }
    }

    fn lay_out(&mut self, doc: &DiffDoc, width: u16)
        ensures
            final(self)@ == old(self)@.lay_out(doc@, width),
    {
        reveal(AppV::lay_out);
        let key: LayoutKey = (self.doc_gen(), width, self.wraps(), self.shows_sides());
        let known = match self.layout_made_for() {
            Some(k) => k.0 == key.0 && k.1 == key.1 && k.2 == key.2 && k.3 == key.3,
            None => false,
        };
        if !known {
            let offsets = self.make_table(doc, width);
            let scroll = self.find_new_scroll(&offsets, key, Ghost(width));
            self.scroll_diff(scroll);
            self.put_offsets(offsets);
            self.put_layout_key(Some(key));
        }
    }

    fn make_body(&self, doc: &DiffDoc, width: u16, h: usize) -> (r: Vec<TextLine>)
        ensures
            text_view(r@) == self@.diff_body(doc@, width, h),
    {
        let offsets = self.offsets();
        let n = count_lines(offsets);
        let last = n.saturating_sub(1);
        let scroll = self.scrolled();
        let at = if scroll < last {
            scroll
        } else {
            last
        };
        let start = find_row(offsets, at);
        let skip = if start < offsets.len().saturating_sub(1) {
            assert(row_starts(offsets@)[start as int] == offsets@[start as int]);
            at.saturating_sub(offsets[start])
        } else {
            at
        };
        let wrap = self.wraps();
        if self.shows_sides() {
            let side = get_side_width(width);
            if start > doc.sxs.len() {
                let none: Vec<TextLine> = Vec::new();
                assert(text_view(none@) =~= Seq::<LineV>::empty());
                return none;
            }
            make_sxs_body(&doc.sxs, start, wrap, side, skip, h)
        } else {
            if start > doc.unified.len() {
                let none: Vec<TextLine> = Vec::new();
                assert(text_view(none@) =~= Seq::<LineV>::empty());
                return none;
            }
            make_uni_body(&doc.unified, start, wrap, get_text_width(width), skip, h)
        }
    }

    fn settle(&mut self, h: usize)
        ensures
            final(self)@ == old(self)@.settle(h),
    {
        reveal(AppV::settle);
        let n = count_lines(self.offsets());
        let last = n.saturating_sub(1);
        let scroll = self.scrolled();
        self.scroll_diff(
            if scroll < last {
                scroll
            } else {
                last
            },
        );
        self.put_max_scroll(n.saturating_sub(h));
    }
}

// ---- Headers ---------------------------------------------------------------------

/// The line above a diff: status, path, where it was moved from, and counts.
pub open spec fn file_header(f: FileV) -> LineV {
    let badge = SegV {
        style: bold(badge_color(f.status)),
        text: " "@ + seq![badge_of(f.status)] + " "@,
    };
    let path = SegV { style: bold(FG_MAIN), text: f.path };
    let stats = inked_seg(FG_DIM, "  "@ + stats_text(f));
    match f.old_path {
        Some(old) => line(seq![badge, path, inked_seg(FG_DIM, " (← "@ + old + ")"@), stats]),
        None => line(seq![badge, path, stats]),
    }
}

fn make_file_header(f: &FileChange) -> (r: TextLine)
    ensures
        r@ == file_header(f@),
{
    let mut spans: Vec<Seg> = Vec::new();
    assert(segs_view(spans@) =~= Seq::<SegV>::empty());
    let (badge, color) = badge_style(f.status);
    let mut b = " ".to_string();
    b.push(badge);
    b.append(" ");
    assert(b@ =~= " "@ + seq![badge_of(f.status)] + " "@);
    add_seg(&mut spans, Seg { style: Style::bold_ink(rgb(color)), text: b });
    add_seg(&mut spans, Seg { style: Style::bold_ink(rgb(FG_MAIN)), text: f.path.clone() });
    if let Some(old) = &f.old_path {
        let mut from = cat(" (← ", old.as_str());
        from.append(")");
        add_seg(&mut spans, inked_text(FG_DIM, from.as_str()));
    }
    add_seg(&mut spans, inked_text(FG_DIM, cat("  ", stats_of(f).as_str()).as_str()));
    assert(segs_view(spans@) =~= file_header(f@).spans);
    text_line(spans)
}

/// The line of a file in the summary of a worktree.
pub open spec fn summary_file(f: FileV) -> LineV {
    line(
        seq![
            inked_seg(badge_color(f.status), "  "@ + seq![badge_of(f.status)] + " "@),
            inked_seg(FG_MAIN, f.path),
            inked_seg(FG_DIM, "  "@ + stats_text(f)),
        ],
    )
}

/// The first line of the summary of a worktree: its branch and how much has changed.
pub open spec fn summary_head(wt: WtDataV) -> LineV {
    let (a, d) = totals_of(wt.files);
    line(
        seq![
            SegV { style: bold(FG_MAIN), text: " "@ + wt.info.branch + " "@ },
            inked_seg(
                FG_DIM,
                decimal(wt.files.len()) + " files  "@ + ("+"@ + decimal(a as nat) + " -"@ + decimal(
                    d as nat,
                )),
            ),
        ],
    )
}

/// The summary of a worktree in `h` lines, shown where no file is selected.
pub open spec fn wt_summary(wt: WtDataV, h: usize) -> Seq<LineV> {
    let listed = window(wt.files, 0, less_by(h, 2) as nat);
    let none = if wt.files.len() == 0 {
        seq![line(seq![inked_seg(FG_DIM, "  no changes"@)])]
    } else {
        seq![]
    };
    seq![summary_head(wt), line(seq![])] + listed.map_values(|f: FileV| summary_file(f)) + none
}

fn make_summary_file(f: &FileChange) -> (r: TextLine)
    ensures
        r@ == summary_file(f@),
{
    let mut spans: Vec<Seg> = Vec::new();
    assert(segs_view(spans@) =~= Seq::<SegV>::empty());
    let (badge, color) = badge_style(f.status);
    let mut b = "  ".to_string();
    b.push(badge);
    b.append(" ");
    assert(b@ =~= "  "@ + seq![badge_of(f.status)] + " "@);
    add_seg(&mut spans, inked_text(color, b.as_str()));
    add_seg(&mut spans, inked_text(FG_MAIN, f.path.as_str()));
    add_seg(&mut spans, inked_text(FG_DIM, cat("  ", stats_of(f).as_str()).as_str()));
    assert(segs_view(spans@) =~= summary_file(f@).spans);
    text_line(spans)
}

fn make_summary_head(wt: &WtData) -> (r: TextLine)
    ensures
        r@ == summary_head(wt@),
{
    let (a, d) = totals(&wt.files);
    let mut name = cat(" ", wt.info.branch.as_str());
    name.append(" ");
    let mut counts = cat(dec(wt.files.len() as u64).as_str(), " files  ");
    counts.append(plus_minus(a, d).as_str());
    let mut spans: Vec<Seg> = Vec::new();
    assert(segs_view(spans@) =~= Seq::<SegV>::empty());
    add_seg(&mut spans, Seg { style: Style::bold_ink(rgb(FG_MAIN)), text: name });
    add_seg(&mut spans, inked_text(FG_DIM, counts.as_str()));
    assert(segs_view(spans@) =~= summary_head(wt@).spans);
    text_line(spans)
}

fn make_summary(wt: &WtData, h: usize) -> (r: Vec<TextLine>)
    ensures
        text_view(r@) == wt_summary(wt@, h),
{
    let mut out: Vec<TextLine> = Vec::new();
    assert(text_view(out@) =~= Seq::<LineV>::empty());
    add_line(&mut out, make_summary_head(wt));
    let blank: Vec<Seg> = Vec::new();
    assert(segs_view(blank@) =~= Seq::<SegV>::empty());
    add_line(&mut out, text_line(blank));
    let ghost fs = files_view(wt.files@);
    let room = h.saturating_sub(2);
    let ghost listed = window(fs, 0, room as nat);
    let ghost goal = listed.map_values(|f: FileV| summary_file(f));
    let ghost top = text_view(out@);
    let mut i: usize = 0;
    assert(top + goal.take(0) =~= top);
    while i < wt.files.len() && i < room
        invariant
            fs == files_view(wt.files@),
            listed == window(fs, 0, room as nat),
            goal == listed.map_values(|f: FileV| summary_file(f)),
            i <= wt.files@.len(),
            i <= room,
            i <= goal.len(),
            text_view(out@) =~= top + goal.take(i as int),
        decreases wt.files@.len() - i,
    {
        let l = make_summary_file(&wt.files[i]);
        proof {
            assert(fs[i as int] == wt.files@[i as int]@);
            assert(listed[i as int] == fs[i as int]);
            assert(goal[i as int] == l@);
        }
        add_line(&mut out, l);
        i += 1;
    }
    assert(goal.take(goal.len() as int) =~= goal);
    let ghost mid = text_view(out@);
    assert(mid =~= top + goal);
    if wt.files.len() == 0 {
        add_line(&mut out, one_seg_line(inked_text(FG_DIM, "  no changes")));
    }
    proof {
        assert(top =~= seq![summary_head(wt@), line(seq![])]);
        assert(text_view(out@) =~= wt_summary(wt@, h));
    }
    out
}

// ---- The pane --------------------------------------------------------------------

/// The note on which hunk is shown, at the lower right of the frame, where there is room.
pub open spec fn hunk_note(rect: Rect, pos: Option<(nat, nat)>) -> Seq<DrawV> {
    match pos {
        Some((k, n)) => {
            let note = "hunk "@ + decimal(k) + "/"@ + decimal(n);
            let w = low16(str_columns(note)) + 2;
            if rect.width > w + 2 {
                seq![
                    DrawV::Text(
                        Rect {
                            x: ((rect.x + rect.width - w - 1) % 65536) as u16,
                            y: ((rect.y + rect.height - 1) % 65536) as u16,
                            width: w as u16,
                            height: 1,
                        },
                        seq![line(seq![inked_seg(FG_DIM, " "@ + note + " "@)])],
                    ),
                ]
            } else {
                seq![]
            }
        },
        None => seq![],
    }
}

/// The line of a document's note, if it has one.
pub open spec fn note_lines(note: Option<Seq<char>>) -> Seq<LineV> {
    match note {
        Some(n) => seq![line(seq![inked_seg(FG_DIM, " "@ + n)])],
        None => seq![],
    }
}

impl AppV {
    /// The state at the start of drawing the diff.
    pub open spec fn diff_start(self, inner: Rect) -> AppV {
        self.with_shown_sides(self.sxs && inner.width >= 90).with_diff_height(
            (inner.height - 1) as usize,
        )
    }

    /// The state with a document laid out.
    pub open spec fn diff_laid(self, inner: Rect, doc: DocV) -> AppV {
        let a = self.diff_start(inner);
        let b = if doc.note is Some {
            a.with_diff_height(body_height(inner.height, true))
        } else {
            a
        };
        b.lay_out(doc, inner.width)
    }

    /// The state after the diff was drawn.
    #[verifier::opaque]
    pub open spec fn diff_drawn(self, rect: Rect, doc: Option<DocV>) -> AppV {
        let inner = framed(rect);
        if inner.height < 2 {
            self
        } else if self.selected_file() is None {
            self.diff_start(inner).with_max_scroll(0)
        } else {
            match doc {
                Some(d) => self.diff_laid(inner, d).settle(
                    body_height(inner.height, d.note is Some),
                ),
                None => self.diff_start(inner).with_scroll(0).with_max_scroll(0),
            }
        }
    }

    /// What is drawn for the diff.
    #[verifier::opaque]
    pub open spec fn diff_draws(self, rect: Rect, doc: Option<DocV>) -> Seq<DrawV> {
        let inner = framed(rect);
        let frame = DrawV::Frame(rect, frame_color(self.focus == Area::Diff), " diff "@);
        if inner.height < 2 {
            seq![frame]
        } else {
            match self.selected_file() {
                None => {
                    let lines = match self.cur_wt() {
                        Some(wt) => wt_summary(wt, (inner.height - 1) as usize),
                        None => seq![],
                    };
                    seq![frame, DrawV::Text(inner, lines)]
                },
                Some(f) => match doc {
                    None => seq![frame, DrawV::Text(inner, seq![file_header(f)])],
                    Some(d) => {
                        let h = body_height(inner.height, d.note is Some);
                        let laid = self.diff_laid(inner, d);
                        let done = laid.settle(h);
                        let lines = seq![file_header(f)] + note_lines(d.note) + laid.diff_body(
                            d,
                            inner.width,
                            h,
                        );
                        seq![frame, DrawV::Text(inner, lines)] + hunk_note(
                            rect,
                            done.hunk_pos(d, done.diff_scroll),
                        )
                    },
                },
            }
        }
    }
}

fn add_hunk_note(out: &mut Vec<Draw>, rect: Rect, pos: Option<(usize, usize)>)
    requires
        rect.height >= 1,
    ensures
        draws_view(final(out)@) == draws_view(old(out)@) + hunk_note(
            rect,
            match pos {
                Some((k, n)) => Some((k as nat, n as nat)),
                None => None,
            },
        ),
{
    let ghost before = draws_view(out@);
    if let Some((k, n)) = pos {
        let mut note = cat("hunk ", dec(k as u64).as_str());
        note.append("/");
        note.append(dec(n as u64).as_str());
        let w: u32 = cols16(str_width(note.as_str())) as u32 + 2;
        if rect.width as u32 > w + 2 {
            let width: u16 = w as u16;
            let mut text = cat(" ", note.as_str());
            text.append(" ");
            let r = Rect {
                x: rect.x.wrapping_add(rect.width - width - 1),
                y: rect.y.wrapping_add(rect.height - 1),
                width,
                height: 1,
            };
            let l = one_seg_line(inked_text(FG_DIM, text.as_str()));
            add_draw(out, Draw::Text(r, one_line(l)));
            assert(draws_view(out@) =~= before + hunk_note(rect, Some((k as nat, n as nat))));
            return;
        }
    }
    assert(before + Seq::<DrawV>::empty() =~= before);
}

impl App {
    fn start_diff(&mut self, inner: Rect)
        requires
            inner.height >= 1,
        ensures
            final(self)@ == old(self)@.diff_start(inner),
    {
        let sides = self.wants_sides() && inner.width >= 90;
        self.put_shown_sides(sides);
        self.put_diff_height(inner.height as usize - 1);
    }

    fn summary(&self, h: usize) -> (r: Vec<TextLine>)
        ensures
            text_view(r@) == (match self@.cur_wt() {
                Some(wt) => wt_summary(wt, h),
                None => seq![],
            }),
    {
        match self.cur_wt() {
            Some(w) => make_summary(w, h),
            None => {
                let none: Vec<TextLine> = Vec::new();
                assert(text_view(none@) =~= Seq::<LineV>::empty());
                none
            },
        }
    }

    fn draw_doc(&mut self, inner: Rect, header: TextLine, doc: &DiffDoc) -> (r: Vec<TextLine>)
        requires
            inner.height >= 2,
        ensures
            final(self)@ == old(self)@.diff_laid(inner, doc@).settle(
                body_height(inner.height, doc@.note is Some),
            ),
            text_view(r@) == seq![header@] + note_lines(doc@.note) + old(self)@.diff_laid(
                inner,
                doc@,
            ).diff_body(doc@, inner.width, body_height(inner.height, doc@.note is Some)),
    {
        let ghost a = self@;
        let mut lines = one_line(header);
        let full = inner.height as usize - 1;
        self.start_diff(inner);
        let h = match &doc.note {
            Some(note) => {
                add_line(
                    &mut lines,
                    one_seg_line(inked_text(FG_DIM, cat(" ", note.as_str()).as_str())),
                );
                self.put_diff_height(full - 1);
                full - 1
            },
            None => full,
        };
        assert(text_view(lines@) =~= seq![header@] + note_lines(doc@.note));
        self.lay_out(doc, inner.width);
        assert(self@ == a.diff_laid(inner, doc@));
        let body = self.make_body(doc, inner.width, h);
        add_lines(&mut lines, body);
        self.settle(h);
        lines
    }

    /// Draw the diff of the selected file's document: what is to be drawn comes back.
    pub fn render_diff_pane(&mut self, rect: Rect, doc: Option<&DiffDoc>) -> (r: Vec<Draw>)
        ensures
            final(self)@ == old(self)@.diff_drawn(rect, opt_doc(doc)),
            draws_view(r@) == old(self)@.diff_draws(rect, opt_doc(doc)),
    {
        reveal(AppV::diff_drawn);
        reveal(AppV::diff_draws);
        let ghost a = self@;
        let mut out: Vec<Draw> = Vec::new();
        assert(draws_view(out@) =~= Seq::<DrawV>::empty());
        let inner = inside_frame(rect);
        let frame = frame_ink(self.focused() == Area::Diff);
        add_draw(&mut out, Draw::Frame(rect, frame, " diff ".to_string()));
        if inner.height < 2 {
            assert(draws_view(out@) =~= a.diff_draws(rect, opt_doc(doc)));
            return out;
        }
        let header = match self.selected_file() {
            Some(f) => Some(make_file_header(f)),
            None => None,
        };
        match header {
            None => {
                let lines = self.summary(inner.height as usize - 1);
                self.start_diff(inner);
                self.put_max_scroll(0);
                add_draw(&mut out, Draw::Text(inner, lines));
                assert(draws_view(out@) =~= a.diff_draws(rect, opt_doc(doc)));
            },
            Some(header) => match doc {
                None => {
                    self.start_diff(inner);
                    self.scroll_diff(0);
                    self.put_max_scroll(0);
                    add_draw(&mut out, Draw::Text(inner, one_line(header)));
                    assert(draws_view(out@) =~= a.diff_draws(rect, opt_doc(doc)));
                },
                Some(d) => {
                    let lines = self.draw_doc(inner, header, d);
                    let pos = self.hunk_pos(d, self.scrolled());
                    add_draw(&mut out, Draw::Text(inner, lines));
                    add_hunk_note(&mut out, rect, pos);
                    assert(draws_view(out@) =~= a.diff_draws(rect, opt_doc(doc)));
                },
            },
        }
        out
    }
}

/// The value of an optional document.
pub open spec fn opt_doc(doc: Option<&DiffDoc>) -> Option<DocV> {
    match doc {
        Some(d) => Some(d@),
        None => None,
    }
}

// ---- Laws ------------------------------------------------------------------------

/// Lines put below each other.
pub open spec fn stacked(parts: Seq<Seq<LineV>>) -> Seq<LineV>
    decreases parts.len(),
{
    if parts.len() == 0 {
        seq![]
    } else {
        parts[0] + stacked(parts.skip(1))
    }
}

/// All screen lines of each one-column row.
pub open spec fn uni_parts(rows: Seq<URowV>, wrap: bool, width: usize) -> Seq<Seq<LineV>> {
    rows.map_values(|r: URowV| uni_screen(r, wrap, width, 0, usize::MAX))
}

/// All screen lines of each side-by-side row.
pub open spec fn sxs_parts(rows: Seq<SRowV>, wrap: bool, width: usize) -> Seq<Seq<LineV>> {
    rows.map_values(|r: SRowV| sxs_screen(r, wrap, width, 0, usize::MAX))
}

impl AppV {
    /// The heights of the rows of a document in the view that is shown.
    pub open spec fn heights(self, doc: DocV, wrap: bool, width: u16) -> Seq<nat> {
        if self.effective_sxs {
            sxs_heights(doc.sxs, wrap, side_width(width) as nat)
        } else {
            uni_heights(doc.unified, wrap, text_width(width) as nat)
        }
    }

    /// All screen lines of a document.
    pub open spec fn all_lines(self, doc: DocV, width: u16) -> Seq<LineV> {
        if self.effective_sxs {
            stacked(sxs_parts(doc.sxs, self.wrap, side_width(width)))
        } else {
            stacked(uni_parts(doc.unified, self.wrap, text_width(width)))
        }
    }
}

proof fn lemma_stacked_split(parts: Seq<Seq<LineV>>, h: Seq<nat>, k: int)
    requires
        0 <= k <= parts.len(),
        parts.len() == h.len(),
        forall|i: int| 0 <= i < h.len() ==> #[trigger] h[i] == parts[i].len(),
    ensures
        stacked(parts) == stacked(parts.take(k)) + stacked(parts.skip(k)),
        stacked(parts.take(k)).len() == total(h.take(k)),
    decreases k,
{
    if k == 0 {
        assert(parts.take(0) =~= seq![]);
        assert(parts.skip(0) =~= parts);
        assert(stacked(parts) =~= seq![] + stacked(parts));
    } else {
        lemma_stacked_split(parts, h, k - 1);
        let left = parts.take(k - 1);
        let rest = parts.skip(k - 1);
        assert(rest.skip(1) =~= parts.skip(k));
        assert(rest[0] == parts[k - 1]);
        lemma_stacked_push(left, parts[k - 1]);
        assert(left.push(parts[k - 1]) =~= parts.take(k));
        assert(stacked(parts) =~= stacked(parts.take(k)) + stacked(parts.skip(k)));
        assert(h.take(k).drop_last() =~= h.take(k - 1));
        assert(h[k - 1] == parts[k - 1].len());
    }
}

proof fn lemma_stacked_push(parts: Seq<Seq<LineV>>, p: Seq<LineV>)
    ensures
        stacked(parts.push(p)) == stacked(parts) + p,
    decreases parts.len(),
{
    if parts.len() == 0 {
        reveal_with_fuel(stacked, 2);
        assert(parts.push(p).skip(1) =~= seq![]);
        assert(stacked(parts.push(p)) =~= stacked(parts) + p);
    } else {
        lemma_stacked_push(parts.skip(1), p);
        assert(parts.push(p).skip(1) =~= parts.skip(1).push(p));
        assert(stacked(parts.push(p)) =~= stacked(parts) + p);
    }
}

proof fn lemma_leading(lines: Seq<usize>, at: usize)
    ensures
        leading(lines, at) <= lines.len(),
        forall|i: int| 0 <= i < leading(lines, at) ==> #[trigger] lines[i] <= at,
        leading(lines, at) < lines.len() ==> lines[leading(lines, at) as int] > at,
    decreases lines.len(),
{
    if lines.len() > 0 && lines[0] <= at {
        let rest = lines.skip(1);
        lemma_leading(rest, at);
        assert forall|i: int| 0 <= i < leading(lines, at) implies #[trigger] lines[i] <= at by {
            if i > 0 {
                assert(rest[i - 1] == lines[i]);
            }
        }
    }
}

/// The row on a screen line of a table that goes up from 0.
proof fn lemma_row_at(h: Seq<nat>, at: usize)
    requires
        h.len() > 0,
        forall|i: int| 0 <= i < h.len() ==> #[trigger] h[i] >= 1,
        total(h) <= usize::MAX,
    ensures
        row_at(tops(h), at) < h.len(),
        tops(h)[row_at(tops(h), at) as int] <= at,
        forall|k: int|
            0 <= k < h.len() && #[trigger] tops(h)[k] <= at ==> k <= row_at(tops(h), at),
{
    law_tops_follow_heights(h);
    let starts = row_starts(tops(h));
    lemma_leading(starts, at);
    let n = leading(starts, at);
    assert(starts.len() == h.len());
    assert(starts[0] == 0);
    assert(n >= 1) by {
        if n == 0 {
            assert(starts[n as int] > at);
        }
    }
    assert(starts[n - 1] <= at);
    assert forall|k: int| 0 <= k < h.len() && #[trigger] tops(h)[k] <= at implies k <= n - 1 by {
        assert(starts[k] == tops(h)[k]);
        if k >= n {
            assert(starts[n as int] > at);
            assert(starts[n as int] == tops(h)[n as int]);
        }
    }
}

proof fn lemma_uni_screen(row: URowV, wrap: bool, width: usize, skip: usize, max: usize)
    requires
        skip < uni_height(row, wrap, width as nat) <= usize::MAX,
        max >= 1,
    ensures
        uni_screen(row, wrap, width, 0, usize::MAX).len() == uni_height(row, wrap, width as nat),
        at_most(uni_screen(row, wrap, width, skip, max), max) == window(
            uni_screen(row, wrap, width, 0, usize::MAX),
            skip as nat,
            max as nat,
        ),
{
    let all = uni_screen(row, wrap, width, 0, usize::MAX);
    let part = at_most(uni_screen(row, wrap, width, skip, max), max);
    let w = window(all, skip as nat, max as nat);
    if !row.is_hunk && wrap {
        let ls = wrapped(row.segs, width as nat);
        assert(window(ls, 0, usize::MAX as nat) =~= ls);
    }
    assert(part =~= w);
}

proof fn lemma_sxs_screen(row: SRowV, wrap: bool, width: usize, skip: usize, max: usize)
    requires
        skip < sxs_height(row, wrap, width as nat) <= usize::MAX,
        max >= 1,
    ensures
        sxs_screen(row, wrap, width, 0, usize::MAX).len() == sxs_height(row, wrap, width as nat),
        at_most(sxs_screen(row, wrap, width, skip, max), max) == window(
            sxs_screen(row, wrap, width, 0, usize::MAX),
            skip as nat,
            max as nat,
        ),
{
    let all = sxs_screen(row, wrap, width, 0, usize::MAX);
    let part = at_most(sxs_screen(row, wrap, width, skip, max), max);
    let w = window(all, skip as nat, max as nat);
    if row.header is None && wrap {
        if let Some(h) = row.left {
            let ls = wrapped(h.segs, width as nat);
            assert(window(ls, 0, usize::MAX as nat) =~= ls);
        }
        if let Some(h) = row.right {
            let ls = wrapped(h.segs, width as nat);
            assert(window(ls, 0, usize::MAX as nat) =~= ls);
        }
        assert(part.len() == w.len());
        assert forall|j: int| 0 <= j < part.len() implies part[j] == w[j] by {
            assert(w[j] == all[j + skip]);
        }
    }
    assert(part =~= w);
}

/// Lines out of two stacks of lines, beginning in the upper one.
proof fn lemma_window_over(upper: Seq<LineV>, lower: Seq<LineV>, skip: nat, max: nat)
    requires
        skip < upper.len(),
    ensures
        window(upper + lower, skip, max) == window(upper, skip, max) + window(
            lower,
            0,
            (max - window(upper, skip, max).len()) as nat,
        ),
{
    let u = window(upper, skip, max);
    assert(window(upper + lower, skip, max) =~= u + window(lower, 0, (max - u.len()) as nat));
}

proof fn lemma_uni_body(rows: Seq<URowV>, wrap: bool, width: usize, skip: usize, max: usize)
    requires
        forall|i: int|
            0 <= i < rows.len() ==> #[trigger] uni_height(rows[i], wrap, width as nat)
                <= usize::MAX,
        rows.len() > 0 ==> skip < uni_height(rows[0], wrap, width as nat),
    ensures
        uni_body(rows, wrap, width, skip, max) == window(
            stacked(uni_parts(rows, wrap, width)),
            skip as nat,
            max as nat,
        ),
    decreases rows.len(),
{
    let parts = uni_parts(rows, wrap, width);
    let goal = window(stacked(parts), skip as nat, max as nat);
    if rows.len() == 0 || max == 0 {
        assert(uni_body(rows, wrap, width, skip, max) =~= goal);
    } else {
        let rest = rows.skip(1);
        lemma_uni_screen(rows[0], wrap, width, skip, max);
        let ls = at_most(uni_screen(rows[0], wrap, width, skip, max), max);
        let left = (max - ls.len()) as usize;
        assert forall|i: int| 0 <= i < rest.len() implies #[trigger] uni_height(
            rest[i],
            wrap,
            width as nat,
        ) <= usize::MAX by {
            assert(rest[i] == rows[i + 1]);
        }
        lemma_uni_body(rest, wrap, width, 0, left);
        assert(parts.skip(1) =~= uni_parts(rest, wrap, width));
        let first = uni_screen(rows[0], wrap, width, 0, usize::MAX);
        assert(parts[0] == first);
        lemma_window_over(first, stacked(parts.skip(1)), skip as nat, max as nat);
    }
}

proof fn lemma_sxs_body(rows: Seq<SRowV>, wrap: bool, width: usize, skip: usize, max: usize)
    requires
        forall|i: int|
            0 <= i < rows.len() ==> #[trigger] sxs_height(rows[i], wrap, width as nat)
                <= usize::MAX,
        rows.len() > 0 ==> skip < sxs_height(rows[0], wrap, width as nat),
    ensures
        sxs_body(rows, wrap, width, skip, max) == window(
            stacked(sxs_parts(rows, wrap, width)),
            skip as nat,
            max as nat,
        ),
    decreases rows.len(),
{
    let parts = sxs_parts(rows, wrap, width);
    let goal = window(stacked(parts), skip as nat, max as nat);
    if rows.len() == 0 || max == 0 {
        assert(sxs_body(rows, wrap, width, skip, max) =~= goal);
    } else {
        let rest = rows.skip(1);
        lemma_sxs_screen(rows[0], wrap, width, skip, max);
        let ls = at_most(sxs_screen(rows[0], wrap, width, skip, max), max);
        let left = (max - ls.len()) as usize;
        assert forall|i: int| 0 <= i < rest.len() implies #[trigger] sxs_height(
            rest[i],
            wrap,
            width as nat,
        ) <= usize::MAX by {
            assert(rest[i] == rows[i + 1]);
        }
        lemma_sxs_body(rest, wrap, width, 0, left);
        assert(parts.skip(1) =~= sxs_parts(rest, wrap, width));
        let first = sxs_screen(rows[0], wrap, width, 0, usize::MAX);
        assert(parts[0] == first);
        lemma_window_over(first, stacked(parts.skip(1)), skip as nat, max as nat);
    }
}

proof fn lemma_height_in_total(h: Seq<nat>, i: int)
    requires
        0 <= i < h.len(),
    ensures
        h[i] <= total(h),
    decreases h.len(),
{
    if i < h.len() - 1 {
        lemma_height_in_total(h.drop_last(), i);
    }
}

/// Where a screen line is found: in a row, after some of its lines.
proof fn lemma_find(parts: Seq<Seq<LineV>>, hs: Seq<nat>, at: usize, h: usize)
    requires
        parts.len() == hs.len() > 0,
        forall|i: int| 0 <= i < hs.len() ==> #[trigger] hs[i] == parts[i].len(),
        forall|i: int| 0 <= i < hs.len() ==> #[trigger] hs[i] >= 1,
        total(hs) <= usize::MAX,
        at < total(hs),
    ensures
        ({
            let k = row_at(tops(hs), at) as int;
            let skip = less_by(at, row_starts(tops(hs))[k]);
            &&& 0 <= k < row_starts(tops(hs)).len()
            &&& row_starts(tops(hs)).len() == hs.len()
            &&& skip < hs[k]
            &&& window(stacked(parts), at as nat, h as nat) == window(
                stacked(parts.skip(k)),
                skip as nat,
                h as nat,
            )
        }),
{
    law_tops_follow_heights(hs);
    lemma_row_at(hs, at);
    let k = row_at(tops(hs), at) as int;
    let skip = less_by(at, tops(hs)[k]);
    assert(row_starts(tops(hs))[k] == tops(hs)[k]);
    assert(skip < hs[k]) by {
        if k + 1 < hs.len() {
            assert(tops(hs)[k + 1] > at);
        }
        assert(tops(hs)[k] + hs[k] == tops(hs)[k + 1]);
    }
    lemma_stacked_split(parts, hs, k);
    lemma_total_take(hs, k);
    assert(window(stacked(parts.skip(k)), skip as nat, h as nat) =~= window(
        stacked(parts),
        at as nat,
        h as nat,
    ));
}

proof fn lemma_count(parts: Seq<Seq<LineV>>, hs: Seq<nat>)
    requires
        parts.len() == hs.len(),
        forall|i: int| 0 <= i < hs.len() ==> #[trigger] hs[i] == parts[i].len(),
        forall|i: int| 0 <= i < hs.len() ==> #[trigger] hs[i] >= 1,
        total(hs) <= usize::MAX,
    ensures
        stacked(parts).len() == line_count(tops(hs)),
        line_count(tops(hs)) == total(hs),
        hs.len() > 0 ==> total(hs) > 0,
{
    law_tops_follow_heights(hs);
    lemma_stacked_split(parts, hs, hs.len() as int);
    assert(parts.take(parts.len() as int) =~= parts);
    assert(hs.take(hs.len() as int) =~= hs);
    if hs.len() > 0 {
        lemma_height_in_total(hs, 0);
    }
}

proof fn lemma_uni_scrolled(rows: Seq<URowV>, wrap: bool, width: usize, at: usize, h: usize)
    requires
        total(uni_heights(rows, wrap, width as nat)) <= usize::MAX,
        rows.len() > 0 ==> at < total(uni_heights(rows, wrap, width as nat)),
        rows.len() == 0 ==> at == 0,
    ensures
        ({
            let offsets = tops(uni_heights(rows, wrap, width as nat));
            let all = stacked(uni_parts(rows, wrap, width));
            let start = row_at(offsets, at);
            let starts = row_starts(offsets);
            let skip = if start < starts.len() {
                less_by(at, starts[start as int])
            } else {
                at
            };
            &&& all.len() == line_count(offsets)
            &&& uni_body(from_row(rows, start), wrap, width, skip, h) == window(
                all,
                at as nat,
                h as nat,
            )
        }),
{
    let hs = uni_heights(rows, wrap, width as nat);
    let parts = uni_parts(rows, wrap, width);
    assert forall|i: int| 0 <= i < hs.len() implies 1 <= #[trigger] hs[i] <= usize::MAX by {
        lemma_height_in_total(hs, i);
    }
    assert forall|i: int| 0 <= i < hs.len() implies #[trigger] hs[i] == parts[i].len() by {
        assert(hs[i] == uni_height(rows[i], wrap, width as nat));
        lemma_uni_screen(rows[i], wrap, width, 0, 1);
    }
    lemma_count(parts, hs);
    if rows.len() == 0 {
        assert(tops(hs).len() == 1);
        assert(row_starts(tops(hs)).len() == 0);
        assert(stacked(parts) =~= seq![]);
        assert(from_row(rows, 0) =~= rows);
        assert(window(stacked(parts), 0, h as nat) =~= seq![]);
    } else {
        lemma_find(parts, hs, at, h);
        let k = row_at(tops(hs), at) as int;
        let skip = less_by(at, row_starts(tops(hs))[k]);
        let rest = rows.skip(k);
        assert(parts.skip(k) =~= uni_parts(rest, wrap, width));
        assert forall|i: int| 0 <= i < rest.len() implies #[trigger] uni_height(
            rest[i],
            wrap,
            width as nat,
        ) <= usize::MAX by {
            assert(hs[i + k] <= usize::MAX);
        }
        assert(hs[k] == uni_height(rest[0], wrap, width as nat));
        lemma_uni_body(rest, wrap, width, skip, h);
    }
}

proof fn lemma_sxs_scrolled(rows: Seq<SRowV>, wrap: bool, width: usize, at: usize, h: usize)
    requires
        total(sxs_heights(rows, wrap, width as nat)) <= usize::MAX,
        rows.len() > 0 ==> at < total(sxs_heights(rows, wrap, width as nat)),
        rows.len() == 0 ==> at == 0,
    ensures
        ({
            let offsets = tops(sxs_heights(rows, wrap, width as nat));
            let all = stacked(sxs_parts(rows, wrap, width));
            let start = row_at(offsets, at);
            let starts = row_starts(offsets);
            let skip = if start < starts.len() {
                less_by(at, starts[start as int])
            } else {
                at
            };
            &&& all.len() == line_count(offsets)
            &&& sxs_body(from_row(rows, start), wrap, width, skip, h) == window(
                all,
                at as nat,
                h as nat,
            )
        }),
{
    let hs = sxs_heights(rows, wrap, width as nat);
    let parts = sxs_parts(rows, wrap, width);
    assert forall|i: int| 0 <= i < hs.len() implies 1 <= #[trigger] hs[i] <= usize::MAX by {
        lemma_height_in_total(hs, i);
    }
    assert forall|i: int| 0 <= i < hs.len() implies #[trigger] hs[i] == parts[i].len() by {
        assert(hs[i] == sxs_height(rows[i], wrap, width as nat));
        lemma_sxs_screen(rows[i], wrap, width, 0, 1);
    }
    lemma_count(parts, hs);
    if rows.len() == 0 {
        assert(tops(hs).len() == 1);
        assert(row_starts(tops(hs)).len() == 0);
        assert(stacked(parts) =~= seq![]);
        assert(from_row(rows, 0) =~= rows);
        assert(window(stacked(parts), 0, h as nat) =~= seq![]);
    } else {
        lemma_find(parts, hs, at, h);
        let k = row_at(tops(hs), at) as int;
        let skip = less_by(at, row_starts(tops(hs))[k]);
        let rest = rows.skip(k);
        assert(parts.skip(k) =~= sxs_parts(rest, wrap, width));
        assert forall|i: int| 0 <= i < rest.len() implies #[trigger] sxs_height(
            rest[i],
            wrap,
            width as nat,
        ) <= usize::MAX by {
            assert(hs[i + k] <= usize::MAX);
        }
        assert(hs[k] == sxs_height(rest[0], wrap, width as nat));
        lemma_sxs_body(rest, wrap, width, skip, h);
    }
}

proof fn lemma_total_of_tops(hs: Seq<nat>)
    requires
        total(hs) <= usize::MAX,
        forall|i: int| 0 <= i < hs.len() ==> #[trigger] hs[i] >= 1,
    ensures
        line_count(tops(hs)) == total(hs),
        hs.len() > 0 ==> total(hs) > 0,
        hs.len() == 0 ==> total(hs) == 0,
{
    law_tops_follow_heights(hs);
    if hs.len() > 0 {
        lemma_height_in_total(hs, 0);
    }
}

/// Scrolling shows the whole diff: with a table made for the document, what is shown is `h` lines
/// out of all its screen lines, from the line that the diff is scrolled to, and the table counts
/// all of them.
pub proof fn law_scroll_shows_all(a: AppV, doc: DocV, width: u16, h: usize)
    requires
        a.row_offsets == a.table(doc, width),
        total(a.heights(doc, a.wrap, width)) <= usize::MAX,
    ensures
        a.all_lines(doc, width).len() == line_count(a.row_offsets),
        a.diff_body(doc, width, h) == window(
            a.all_lines(doc, width),
            lesser(a.diff_scroll, less_by(line_count(a.row_offsets), 1)) as nat,
            h as nat,
        ),
{
    let at = lesser(a.diff_scroll, less_by(line_count(a.row_offsets), 1));
    let hs = a.heights(doc, a.wrap, width);
    assert forall|i: int| 0 <= i < hs.len() implies #[trigger] hs[i] >= 1 by {}
    lemma_total_of_tops(hs);
    if a.effective_sxs {
        lemma_sxs_scrolled(doc.sxs, a.wrap, side_width(width), at, h);
    } else {
        lemma_uni_scrolled(doc.unified, a.wrap, text_width(width), at, h);
    }
}

proof fn lemma_total_take(h: Seq<nat>, k: int)
    requires
        0 <= k <= h.len(),
        total(h) <= usize::MAX,
    ensures
        tops(h)[k] == total(h.take(k)),
    decreases h.len(),
{
    if k < h.len() {
        lemma_total_take(h.drop_last(), k);
        assert(h.drop_last().take(k) =~= h.take(k));
    } else {
        assert(h.take(k) =~= h);
    }
}

/// Changing the width or the wrapping keeps the row that is shown first: after a new table was
/// made for the same document in the same view, the diff is scrolled to the first line of the row
/// that it was scrolled to before.
pub proof fn law_layout_keeps_row(a: AppV, doc: DocV, width: u16, wrap0: bool, width0: u16)
    requires
        a.layout_key == Some((a.cur_doc_gen, width0, wrap0, a.effective_sxs)),
        a.layout_key != Some(a.wanted_layout(width)),
        a.row_offsets == tops(a.heights(doc, wrap0, width0)),
        a.heights(doc, wrap0, width0).len() > 0,
        total(a.heights(doc, wrap0, width0)) <= usize::MAX,
        total(a.heights(doc, a.wrap, width)) <= usize::MAX,
    ensures
        ({
            let b = a.lay_out(doc, width);
            let row = row_at(a.row_offsets, a.diff_scroll);
            &&& row_at(b.row_offsets, b.diff_scroll) == row
            &&& b.diff_scroll == b.row_offsets[row as int]
            &&& b.row_offsets == a.table(doc, width)
            &&& b.layout_key == Some(a.wanted_layout(width))
        }),
{
    reveal(AppV::lay_out);
    reveal(AppV::with_scroll);
    reveal(AppV::with_offsets);
    reveal(AppV::with_layout_key);
    let h0 = a.heights(doc, wrap0, width0);
    let h1 = a.heights(doc, a.wrap, width);
    assert(h0.len() == h1.len());
    assert forall|i: int| 0 <= i < h0.len() implies #[trigger] h0[i] >= 1 by {}
    assert forall|i: int| 0 <= i < h1.len() implies #[trigger] h1[i] >= 1 by {}
    law_tops_follow_heights(h0);
    law_tops_follow_heights(h1);
    lemma_row_at(h0, a.diff_scroll);
    let row = row_at(a.row_offsets, a.diff_scroll);
    let at = tops(h1)[row as int];
    lemma_row_at(h1, at);
    let r1 = row_at(tops(h1), at);
    if row < r1 {
        assert(tops(h1)[row as int] < tops(h1)[r1 as int]);
    }
}

/// The diff is never scrolled past its last line, and scrolling stops where its last lines fill
/// the pane.
pub proof fn law_scroll_in_range(a: AppV, h: usize)
    ensures
        ({
            let b = a.settle(h);
            let n = line_count(a.row_offsets);
            &&& n > 0 ==> b.diff_scroll < n
            &&& n == 0 ==> b.diff_scroll == 0
            &&& a.diff_scroll < n ==> b.diff_scroll == a.diff_scroll
            &&& n >= h ==> b.diff_max_scroll + h == n
            &&& n < h ==> b.diff_max_scroll == 0
        }),
{
    reveal(AppV::settle);
    reveal(AppV::with_scroll);
    reveal(AppV::with_max_scroll);
}

} // verus!
