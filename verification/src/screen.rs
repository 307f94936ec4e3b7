//! Places on the screen and what is drawn there.

use crate::style::{hex, inked, plain, rgb, segs_view, Color, Seg, SegV, Style};
use vstd::prelude::*;
use vstd::string::*;

verus! {

// ---- Colors ----------------------------------------------------------------------

pub const ACCENT: u32 = 0xbd93f9;

pub const ACCENT_FG: u32 = 0x282a36;

pub const INACTIVE_SEL: u32 = 0x6272a4;

pub const FG_MAIN: u32 = 0xf8f8f2;

pub const FG_DIM: u32 = 0x9a9db2;

pub const CURSOR_BG_UNFOCUS: u32 = 0x44475a;

pub const GREEN: u32 = 0x50fa7b;

pub const RED: u32 = 0xff5555;

pub const YELLOW: u32 = 0xf1fa8c;

pub const MAGENTA: u32 = 0xff79c6;

pub const CYAN: u32 = 0x8be9fd;

/// A color in plain style.
pub open spec fn ink(c: u32) -> Style {
    inked(hex(c))
}

/// A color in bold.
pub open spec fn bold(c: u32) -> Style {
    Style { bold: true, ..inked(hex(c)) }
}

/// A piece of text in a color.
pub open spec fn inked_seg(c: u32, text: Seq<char>) -> SegV {
    SegV { style: ink(c), text }
}

/// A piece of text in the plain style.
pub open spec fn raw_seg(text: Seq<char>) -> SegV {
    SegV { style: plain(), text }
}

/// A piece of text in a color.
pub fn inked_text(c: u32, text: &str) -> (r: Seg)
    ensures
        r@ == inked_seg(c, text@),
{
    Seg::new(Style::ink(rgb(c)), text)
}

/// A piece of text in the plain style.
pub fn raw_text(text: &str) -> (r: Seg)
    ensures
        r@ == raw_seg(text@),
{
    Seg::new(Style::plain(), text)
}

/// Append a piece.
pub fn add_seg(out: &mut Vec<Seg>, seg: Seg)
    ensures
        segs_view(final(out)@) == segs_view(old(out)@).push(seg@),
{
    let ghost before = out@;
    out.push(seg);
    assert(segs_view(out@) =~= segs_view(before).push(seg@));
}

// ---- Lines -----------------------------------------------------------------------

/// A line of text, and the color behind all of it, if any.
#[derive(Debug)]
pub struct TextLine {
    pub spans: Vec<Seg>,
    pub bg: Option<Color>,
}

/// A line of text, as a mathematical value.
#[verifier::ext_equal]
pub struct LineV {
    pub spans: Seq<SegV>,
    pub bg: Option<Color>,
}

impl View for TextLine {
    type V = LineV;

    open spec fn view(&self) -> LineV {
        LineV { spans: segs_view(self.spans@), bg: self.bg }
    }
}

/// A line of text with nothing behind it.
pub open spec fn line(spans: Seq<SegV>) -> LineV {
    LineV { spans, bg: None }
}

/// The values of lines.
pub open spec fn text_view(v: Seq<TextLine>) -> Seq<LineV> {
    v.map_values(|l: TextLine| l@)
}

/// A line of text with nothing behind it.
pub fn text_line(spans: Vec<Seg>) -> (r: TextLine)
    ensures
        r@ == line(segs_view(spans@)),
{
    TextLine { spans, bg: None }
}

/// A line of one piece.
pub fn one_seg_line(seg: Seg) -> (r: TextLine)
    ensures
        r@ == line(seq![seg@]),
{
    let mut spans: Vec<Seg> = Vec::new();
    spans.push(seg);
    assert(segs_view(spans@) =~= seq![seg@]);
    TextLine { spans, bg: None }
}

/// Append a line.
pub fn add_line(out: &mut Vec<TextLine>, l: TextLine)
    ensures
        text_view(final(out)@) == text_view(old(out)@).push(l@),
{
    let ghost before = out@;
    out.push(l);
    assert(text_view(out@) =~= text_view(before).push(l@));
}

/// Append lines.
pub fn add_lines(out: &mut Vec<TextLine>, more: Vec<TextLine>)
    ensures
        text_view(final(out)@) == text_view(old(out)@) + text_view(more@),
{
    let ghost before = out@;
    let mut more = more;
    let ghost m = more@;
    out.append(&mut more);
    assert(text_view(out@) =~= text_view(before) + text_view(m));
}

// ---- Places ----------------------------------------------------------------------

/// A rectangle on the screen.
#[derive(Clone, Copy, Debug, PartialEq, Eq, Structural)]
pub struct Rect {
    pub x: u16,
    pub y: u16,
    pub width: u16,
    pub height: u16,
}

/// The lesser of two numbers.
pub open spec fn min16(a: u16, b: u16) -> u16 {
    if a < b {
        a
    } else {
        b
    }
}

/// `a + b`, or the largest number where that is larger.
pub open spec fn plus16(a: u16, b: u16) -> u16 {
    if a + b > u16::MAX {
        u16::MAX
    } else {
        (a + b) as u16
    }
}

/// `a - b`, or 0 where `b` is larger.
pub open spec fn minus16(a: u16, b: u16) -> u16 {
    if a < b {
        0
    } else {
        (a - b) as u16
    }
}

/// What a frame around a rectangle leaves of it.
pub open spec fn framed(r: Rect) -> Rect {
    Rect {
        x: min16(plus16(r.x, 1), plus16(r.x, r.width)),
        y: min16(plus16(r.y, 1), plus16(r.y, r.height)),
        width: minus16(minus16(r.width, 1), 1),
        height: minus16(minus16(r.height, 1), 1),
    }
}

/// `Block::inner` of a block with all borders: one column or line less on each side. The corner
/// moves by one, but not past the far edge.
#[verifier::external_body]
pub(crate) fn inside_frame(r: Rect) -> (inner: Rect)
    ensures
        inner == framed(r),
{
    let area = ratatui::layout::Rect { x: r.x, y: r.y, width: r.width, height: r.height };
    let block = ratatui::widgets::Block::default().borders(ratatui::widgets::Borders::ALL);
    let i = block.inner(area);
    Rect { x: i.x, y: i.y, width: i.width, height: i.height }
}

/// How much of a side a part of the screen asks for.
#[derive(Clone, Copy, Debug, PartialEq, Eq, Structural)]
pub enum Share {
    /// So many columns or lines
    Length(u16),
    /// At least so many
    AtLeast(u16),
    /// So many percent
    Percent(u16),
}

/// Whether a rectangle lies in an area.
pub open spec fn inside(r: Rect, area: Rect) -> bool {
    &&& area.x <= r.x
    &&& r.x + r.width <= area.x + area.width
    &&& area.y <= r.y
    &&& r.y + r.height <= area.y + area.height
}

/// Whether parts lie in an area and are as wide as it is.
pub open spec fn rows_in(parts: Seq<Rect>, area: Rect) -> bool {
    forall|i: int|
        0 <= i < parts.len() ==> (#[trigger] parts[i]).x == area.x && parts[i].width == area.width
            && inside(parts[i], area)
}

/// Whether parts lie in an area and are as high as it is.
pub open spec fn columns_in(parts: Seq<Rect>, area: Rect) -> bool {
    forall|i: int|
        0 <= i < parts.len() ==> (#[trigger] parts[i]).y == area.y && parts[i].height
            == area.height && inside(parts[i], area)
}

/// `Layout::vertical` and its `split`: one part for each share, each in the area and as wide as
/// it is. Where each begins and how high it is, a solver finds with floating point numbers, walking hash maps
/// that each process seeds; that is left unsaid.
#[verifier::external_body]
pub(crate) fn split_rows(area: Rect, shares: &Vec<Share>) -> (r: Vec<Rect>)
    ensures
        r@.len() == shares@.len(),
        rows_in(r@, area),
{
    let full = ratatui::layout::Rect { x: area.x, y: area.y, width: area.width, height: area.height };
    let asked = shares.iter().map(|s| match s {
        Share::Length(n) => ratatui::layout::Constraint::Length(*n),
        Share::AtLeast(n) => ratatui::layout::Constraint::Min(*n),
        Share::Percent(n) => ratatui::layout::Constraint::Percentage(*n),
    });
    let parts = ratatui::layout::Layout::vertical(asked).split(full);
    parts.iter().map(|p| Rect { x: p.x, y: p.y, width: p.width, height: p.height }).collect()
}

/// `Layout::horizontal` and its `split`: one part for each share, each in the area and as high
/// as it is. Where each begins and how wide it is, a solver finds with floating point numbers, walking hash
/// maps that each process seeds; that is left unsaid.
#[verifier::external_body]
pub(crate) fn split_columns(area: Rect, shares: &Vec<Share>) -> (r: Vec<Rect>)
    ensures
        r@.len() == shares@.len(),
        columns_in(r@, area),
{
    let full = ratatui::layout::Rect { x: area.x, y: area.y, width: area.width, height: area.height };
    let asked = shares.iter().map(|s| match s {
        Share::Length(n) => ratatui::layout::Constraint::Length(*n),
        Share::AtLeast(n) => ratatui::layout::Constraint::Min(*n),
        Share::Percent(n) => ratatui::layout::Constraint::Percentage(*n),
    });
    let parts = ratatui::layout::Layout::horizontal(asked).split(full);
    parts.iter().map(|p| Rect { x: p.x, y: p.y, width: p.width, height: p.height }).collect()
}

/// Something to draw.
#[derive(Debug)]
pub enum Draw {
    /// A frame in a color, with a title
    Frame(Rect, Color, String),
    /// Lines of text
    Text(Rect, Vec<TextLine>),
    /// Lines of text, to the right
    Right(Rect, Vec<TextLine>),
    /// Nothing, in place of what is there
    Clear(Rect),
}

/// Something to draw, as a mathematical value.
pub enum DrawV {
    Frame(Rect, Color, Seq<char>),
    Text(Rect, Seq<LineV>),
    Right(Rect, Seq<LineV>),
    Clear(Rect),
}

impl View for Draw {
    type V = DrawV;

    open spec fn view(&self) -> DrawV {
        match self {
            Draw::Frame(r, c, t) => DrawV::Frame(*r, *c, t@),
            Draw::Text(r, l) => DrawV::Text(*r, text_view(l@)),
            Draw::Right(r, l) => DrawV::Right(*r, text_view(l@)),
            Draw::Clear(r) => DrawV::Clear(*r),
        }
    }
}

/// The values of things to draw.
pub open spec fn draws_view(v: Seq<Draw>) -> Seq<DrawV> {
    v.map_values(|d: Draw| d@)
}

/// Append something to draw.
pub fn add_draw(out: &mut Vec<Draw>, d: Draw)
    ensures
        draws_view(final(out)@) == draws_view(old(out)@).push(d@),
{
    let ghost before = out@;
    out.push(d);
    assert(draws_view(out@) =~= draws_view(before).push(d@));
}

/// One line to draw.
pub fn one_line(l: TextLine) -> (r: Vec<TextLine>)
    ensures
        text_view(r@) == seq![l@],
{
    let mut v: Vec<TextLine> = Vec::new();
    v.push(l);
    assert(text_view(v@) =~= seq![l@]);
    v
}

} // verus!
