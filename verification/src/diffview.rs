//! Unified diff text, turned into rows for display: one column, or old and new side by side.

use crate::bytes::{
    byte_len, chars_reaching, count_bytes, count_char_bytes, law_bytes_join, lemma_more_bytes,
    lemma_no_bytes, lemma_push_bytes, lemma_reached, lemma_reaching,
};
use crate::highlight::{ext_of, painted, pieces_text, pieces_view, Highlighter, Piece, Side};
use crate::parse::{
    all_with_marks, parse, phunks, plines, sanitized, law_sanitized_is_clean, scan_line, scan_lines,
    scan_start, with_line, Kind, PHunkV, PLine, PLineV, Scan, MAX_LINES,
};
use crate::style::{
    hex, inked, joined, lemma_joined_add, plain, rgb, segs_view, Color, Seg, SegV, Style,
};
use crate::text::{begins, capped, cat, chars_of, dec, decimal, lines_of, opt_str, string_of};
use vstd::prelude::*;
use vstd::string::*;

verus! {

pub const BG_ADD: u32 = 0x123a1c;

pub const BG_ADD_EMPH: u32 = 0x1c642e;

pub const BG_DEL: u32 = 0x461c1c;

pub const BG_DEL_EMPH: u32 = 0x7a2c2c;

pub const FG_HUNK: u32 = 0x61afef;

// ---- Rows ------------------------------------------------------------------------

/// A row of the one-column view.
#[derive(Debug)]
pub struct URow {
    pub old_no: Option<u32>,
    pub new_no: Option<u32>,
    pub segs: Vec<Seg>,
    pub bg: Option<Color>,
    pub is_hunk: bool,
}

/// One side of a row of the side-by-side view.
#[derive(Debug)]
pub struct Half {
    pub no: u32,
    pub segs: Vec<Seg>,
    pub bg: Option<Color>,
}

/// A row of the side-by-side view.
#[derive(Debug)]
pub struct SRow {
    pub left: Option<Half>,
    pub right: Option<Half>,
    /// A hunk header is drawn as one line across both halves
    pub header: Option<String>,
}

/// A diff, ready for display.
#[derive(Debug)]
pub struct DiffDoc {
    pub note: Option<String>,
    pub unified: Vec<URow>,
    pub sxs: Vec<SRow>,
    /// Index of each hunk's first row in the one-column view
    pub hunks_u: Vec<usize>,
    /// Index of each hunk's first row in the side-by-side view
    pub hunks_s: Vec<usize>,
    pub first_new_line: Option<u32>,
}

/// A row of the one-column view, as a mathematical value.
#[verifier::ext_equal]
pub struct URowV {
    pub old_no: Option<u32>,
    pub new_no: Option<u32>,
    pub segs: Seq<SegV>,
    pub bg: Option<Color>,
    pub is_hunk: bool,
}

/// One side of a row, as a mathematical value.
#[verifier::ext_equal]
pub struct HalfV {
    pub no: u32,
    pub segs: Seq<SegV>,
    pub bg: Option<Color>,
}

/// A row of the side-by-side view, as a mathematical value.
#[verifier::ext_equal]
pub struct SRowV {
    pub left: Option<HalfV>,
    pub right: Option<HalfV>,
    pub header: Option<Seq<char>>,
}

/// A diff, ready for display, as a mathematical value.
#[verifier::ext_equal]
pub struct DocV {
    pub note: Option<Seq<char>>,
    pub unified: Seq<URowV>,
    pub sxs: Seq<SRowV>,
    pub hunks_u: Seq<usize>,
    pub hunks_s: Seq<usize>,
    pub first_new_line: Option<u32>,
}

impl View for URow {
    type V = URowV;

    open spec fn view(&self) -> URowV {
        URowV {
            old_no: self.old_no,
            new_no: self.new_no,
            segs: segs_view(self.segs@),
            bg: self.bg,
            is_hunk: self.is_hunk,
        }
    }
}

impl View for Half {
    type V = HalfV;

    open spec fn view(&self) -> HalfV {
        HalfV { no: self.no, segs: segs_view(self.segs@), bg: self.bg }
    }
}

/// The value of one side of a row.
pub open spec fn half_view(h: Option<Half>) -> Option<HalfV> {
    match h {
        Some(h) => Some(h@),
        None => None,
    }
}

impl View for SRow {
    type V = SRowV;

    open spec fn view(&self) -> SRowV {
        SRowV {
            left: half_view(self.left),
            right: half_view(self.right),
            header: opt_str(self.header),
        }
    }
}

/// The values of one-column rows.
pub open spec fn urows(v: Seq<URow>) -> Seq<URowV> {
    v.map_values(|r: URow| r@)
}

/// The values of side-by-side rows.
pub open spec fn srows(v: Seq<SRow>) -> Seq<SRowV> {
    v.map_values(|r: SRow| r@)
}

/// The values of halves.
pub open spec fn halves(v: Seq<Half>) -> Seq<HalfV> {
    v.map_values(|h: Half| h@)
}

impl View for DiffDoc {
    type V = DocV;

    open spec fn view(&self) -> DocV {
        DocV {
            note: opt_str(self.note),
            unified: urows(self.unified@),
            sxs: srows(self.sxs@),
            hunks_u: self.hunks_u@,
            hunks_s: self.hunks_s@,
            first_new_line: self.first_new_line,
        }
    }
}

impl Clone for URow {
    fn clone(&self) -> (r: Self)
        ensures
            r@ == self@,
    {
        let r = URow {
            old_no: self.old_no,
            new_no: self.new_no,
            segs: self.segs.clone(),
            bg: self.bg,
            is_hunk: self.is_hunk,
        };
        assert(segs_view(r.segs@) =~= segs_view(self.segs@));
        r
    }
}

impl Clone for SRow {
    fn clone(&self) -> (r: Self)
        ensures
            r@ == self@,
    {
        let left = match &self.left {
            Some(h) => Some(h.clone()),
            None => None,
        };
        let right = match &self.right {
            Some(h) => Some(h.clone()),
            None => None,
        };
        let header = match &self.header {
            Some(h) => Some(h.clone()),
            None => None,
        };
        SRow { left, right, header }
    }
}

impl Clone for Half {
    fn clone(&self) -> (r: Self)
        ensures
            r@ == self@,
    {
        Half { no: self.no, segs: self.segs.clone(), bg: self.bg }
    }
}

// ---- Styled text -----------------------------------------------------------------

/// The values of the colored pieces of a line.
pub type PieceV = ((u8, u8, u8), Seq<char>);

/// `s` without a newline at its end.
pub open spec fn without_nl(s: Seq<char>) -> Seq<char> {
    if s.len() > 0 && s.last() == '\n' {
        s.drop_last()
    } else {
        s
    }
}

/// The chunks of a line that each have one style before emphasis: its colored pieces, or all of
/// it in the plain style where it is not colored.
pub open spec fn chunks_of(pieces: Option<Seq<PieceV>>, text: Seq<char>) -> Seq<(Style, Seq<char>)> {
    match pieces {
        None => seq![(plain(), text)],
        Some(ps) => ps.map_values(
            |p: PieceV| (inked(Color::Rgb(p.0.0, p.0.1, p.0.2)), without_nl(p.1)),
        ),
    }
}

/// Whether byte `at` is emphasised.
pub open spec fn emphasised(emph: Seq<(usize, usize)>, at: int) -> bool {
    exists|i: int| 0 <= i < emph.len() && (#[trigger] emph[i]).0 <= at < emph[i].1
}

/// The first end of an emphasised range that lies strictly between `at` and `limit`; else
/// `limit`.
pub open spec fn next_cut(emph: Seq<(usize, usize)>, at: int, limit: int) -> int
    decreases emph.len(),
{
    if emph.len() == 0 {
        limit
    } else {
        let e = next_cut(emph.drop_last(), at, limit);
        let s = emph.last().0 as int;
        let t = emph.last().1 as int;
        let e1 = if at < s < e {
            s
        } else {
            e
        };
        if at < t < e1 {
            t
        } else {
            e1
        }
    }
}

/// The colors of a line's background: where it is emphasised and where it is not.
pub struct Backs {
    pub base: Option<Color>,
    pub emph: Option<Color>,
}

/// The style of a piece: on the background that applies, and bold where emphasised.
pub open spec fn seg_style(style: Style, backs: Backs, marked: bool) -> Style {
    let bg = if marked {
        backs.emph
    } else {
        backs.base
    };
    Style {
        fg: style.fg,
        bg: if bg is Some {
            bg
        } else {
            style.bg
        },
        bold: style.bold || marked,
    }
}

/// The end of the piece of a chunk that begins at character `pos`: where the emphasis next begins
/// or ends, or after the character that this is in the middle of; else the end of the chunk.
/// `offset` is the byte of the line at which the chunk starts.
#[verifier::opaque]
pub open spec fn piece_end(chunk: Seq<char>, offset: int, pos: int, emph: Seq<(usize, usize)>) -> int {
    let at = offset + byte_len(chunk.take(pos));
    chars_reaching(chunk, next_cut(emph, at, offset + byte_len(chunk)) - offset) as int
}

/// A chunk from character `pos` on, cut at the ends of the emphasised ranges. `offset` is the
/// byte of the line at which the chunk starts.
pub open spec fn cut_chunk(
    chunk: Seq<char>,
    offset: int,
    pos: int,
    style: Style,
    emph: Seq<(usize, usize)>,
    backs: Backs,
) -> Seq<SegV>
    decreases chunk.len() - pos,
    via cut_chunk_shrinks
{
    if pos < 0 || pos >= chunk.len() {
        seq![]
    } else {
        let end = piece_end(chunk, offset, pos, emph);
        seq![
            SegV {
                style: seg_style(
                    style,
                    backs,
                    emphasised(emph, offset + byte_len(chunk.take(pos))),
                ),
                text: chunk.subrange(pos, end),
            },
        ] + cut_chunk(chunk, offset, end, style, emph, backs)
    }
}

proof fn lemma_next_cut(emph: Seq<(usize, usize)>, at: int, limit: int)
    requires
        at < limit,
    ensures
        at < next_cut(emph, at, limit) <= limit,
    decreases emph.len(),
{
    if emph.len() > 0 {
        lemma_next_cut(emph.drop_last(), at, limit);
    }
}

proof fn lemma_piece_end(chunk: Seq<char>, offset: int, pos: int, emph: Seq<(usize, usize)>)
    requires
        0 <= pos < chunk.len(),
    ensures
        pos < piece_end(chunk, offset, pos, emph) <= chunk.len(),
{
    reveal(piece_end);
    let at = offset + byte_len(chunk.take(pos));
    let limit = offset + byte_len(chunk);
    let end = next_cut(emph, at, limit) - offset;
    lemma_more_bytes(chunk, pos, chunk.len() as int);
    assert(chunk.take(chunk.len() as int) =~= chunk);
    lemma_next_cut(emph, at, limit);
    lemma_reaching(chunk, end);
    let k = chars_reaching(chunk, end) as int;
    if k <= pos {
        lemma_more_bytes(chunk, k, pos);
    }
}

#[via_fn]
proof fn cut_chunk_shrinks(
    chunk: Seq<char>,
    offset: int,
    pos: int,
    style: Style,
    emph: Seq<(usize, usize)>,
    backs: Backs,
) {
    if 0 <= pos < chunk.len() {
        lemma_piece_end(chunk, offset, pos, emph);
    }
}

/// The chunks of a line, cut at the ends of the emphasised ranges.
pub open spec fn cut_chunks(
    chunks: Seq<(Style, Seq<char>)>,
    offset: int,
    emph: Seq<(usize, usize)>,
    backs: Backs,
) -> Seq<SegV>
    decreases chunks.len(),
{
    if chunks.len() == 0 {
        seq![]
    } else {
        cut_chunk(chunks[0].1, offset, 0, chunks[0].0, emph, backs) + cut_chunks(
            chunks.skip(1),
            offset + byte_len(chunks[0].1),
            emph,
            backs,
        )
    }
}

/// The styled pieces of a line; a line without text is one empty piece.
#[verifier::opaque]
pub open spec fn styled(
    pieces: Option<Seq<PieceV>>,
    text: Seq<char>,
    emph: Seq<(usize, usize)>,
    backs: Backs,
) -> Seq<SegV> {
    let segs = cut_chunks(chunks_of(pieces, text), 0, emph, backs);
    if segs.len() == 0 {
        seq![SegV { style: plain(), text: seq![] }]
    } else {
        segs
    }
}

/// The text of the chunks, joined.
pub open spec fn chunks_text(chunks: Seq<(Style, Seq<char>)>) -> Seq<char>
    decreases chunks.len(),
{
    if chunks.len() == 0 {
        seq![]
    } else {
        chunks[0].1 + chunks_text(chunks.skip(1))
    }
}

fn in_emph(emph: &Vec<(usize, usize)>, at: usize) -> (r: bool)
    ensures
        r == emphasised(emph@, at as int),
{
    let mut i: usize = 0;
    while i < emph.len()
        invariant
            i <= emph@.len(),
            forall|k: int| 0 <= k < i ==> !((#[trigger] emph@[k]).0 <= at < emph@[k].1),
        decreases emph@.len() - i,
    {
        let (s, e) = emph[i];
        if s <= at && at < e {
            assert(emph@[i as int].0 <= at < emph@[i as int].1);
            return true;
        }
        i += 1;
    }
    false
}

fn next_boundary(emph: &Vec<(usize, usize)>, at: usize, limit: usize) -> (r: usize)
    requires
        at < limit,
    ensures
        r == next_cut(emph@, at as int, limit as int),
        at < r <= limit,
{
    let mut end: usize = limit;
    let mut i: usize = 0;
    while i < emph.len()
        invariant
            at < limit,
            i <= emph@.len(),
            end == next_cut(emph@.take(i as int), at as int, limit as int),
            at < end <= limit,
        decreases emph@.len() - i,
    {
        let (s, e) = emph[i];
        assert(emph@.take(i + 1).drop_last() =~= emph@.take(i as int));
        assert(emph@.take(i + 1).last() == emph@[i as int]);
        if s > at && s < end {
            end = s;
        }
        if e > at && e < end {
            end = e;
        }
        i += 1;
    }
    assert(emph@.take(emph@.len() as int) =~= emph@);
    end
}

fn cut_into(
    out: &mut Vec<Seg>,
    chunk: &Vec<char>,
    len: usize,
    offset: usize,
    style: Style,
    emph: &Vec<(usize, usize)>,
    backs: &Backs,
)
    requires
        len == byte_len(chunk@),
        offset + len <= usize::MAX,
    ensures
        segs_view(final(out)@) == segs_view(old(out)@) + cut_chunk(
            chunk@,
            offset as int,
            0,
            style,
            emph@,
            *backs,
        ),
{
    let mut pos: usize = 0;
    let mut at: usize = 0;
    let ghost before = segs_view(out@);
    proof {
        lemma_no_bytes();
        assert(chunk@.take(0) =~= Seq::<char>::empty());
    }
    while pos < chunk.len()
        invariant
            len == byte_len(chunk@),
            offset + len <= usize::MAX,
            pos <= chunk@.len(),
            at == byte_len(chunk@.take(pos as int)),
            segs_view(out@) + cut_chunk(chunk@, offset as int, pos as int, style, emph@, *backs)
                =~= before + cut_chunk(chunk@, offset as int, 0, style, emph@, *backs),
        decreases chunk@.len() - pos,
    {
        proof {
            lemma_more_bytes(chunk@, pos as int, chunk@.len() as int);
            assert(chunk@.take(chunk@.len() as int) =~= chunk@);
        }
        let marked = in_emph(emph, offset + at);
        let cut = next_boundary(emph, offset + at, offset + len) - offset;
        let mut end: usize = pos;
        let mut end_at: usize = at;
        while end < chunk.len() && end_at < cut
            invariant
                len == byte_len(chunk@),
                at < cut <= len,
                pos <= end <= chunk@.len(),
                end_at == byte_len(chunk@.take(end as int)),
                pos == end ==> end_at == at,
                pos < end ==> byte_len(chunk@.take(end - 1)) < cut,
            decreases chunk@.len() - end,
        {
            proof {
                lemma_push_bytes(chunk@.take(end as int), chunk@[end as int]);
                assert(chunk@.take(end + 1) =~= chunk@.take(end as int).push(chunk@[end as int]));
                lemma_more_bytes(chunk@, end + 1, chunk@.len() as int);
                assert(chunk@.take(chunk@.len() as int) =~= chunk@);
            }
            end_at = end_at + count_char_bytes(chunk[end]);
            end += 1;
        }
        proof {
            if end == chunk@.len() {
                assert(chunk@.take(end as int) =~= chunk@);
            }
            lemma_reached(chunk@, cut as int, end as int);
            assert(end == piece_end(chunk@, offset as int, pos as int, emph@)) by {
                reveal(piece_end);
            }
        }
        let bg = if marked {
            backs.emph
        } else {
            backs.base
        };
        let st = Style {
            fg: style.fg,
            bg: if bg.is_some() {
                bg
            } else {
                style.bg
            },
            bold: style.bold || marked,
        };
        let seg = Seg { style: st, text: string_of(chunk, pos, end) };
        let ghost out0 = out@;
        out.push(seg);
        assert(segs_view(out@) =~= segs_view(out0).push(seg@));
        pos = end;
        at = end_at;
    }
}

/// Turn a line into styled pieces: its colored pieces (or all of it, plain, where it is not
/// colored), cut at the ends of the emphasised byte ranges.
pub fn styled_segs(
    pieces: &Option<Vec<Piece>>,
    text: &str,
    emph: &Vec<(usize, usize)>,
    backs: &Backs,
) -> (r: Vec<Seg>)
    requires
        pieces matches Some(ps) ==> byte_len(pieces_text(pieces_view(ps@))) <= usize::MAX,
    ensures
        segs_view(r@) == styled(opt_pieces(*pieces), text@, emph@, *backs),
        r@.len() > 0,
{
    reveal(styled);
    let mut segs: Vec<Seg> = Vec::new();
    assert(segs_view(segs@) =~= Seq::<SegV>::empty());
    match pieces {
        None => {
            let chunk = chars_of(text);
            cut_into(&mut segs, &chunk, count_bytes(text), 0, Style::plain(), emph, backs);
            proof {
                reveal_with_fuel(cut_chunks, 2);
                let cs = chunks_of(None, text@);
                assert(cs.skip(1) =~= Seq::<(Style, Seq<char>)>::empty());
                assert(segs_view(segs@) =~= cut_chunks(cs, 0, emph@, *backs));
            }
        },
        Some(ps) => {
            let ghost cs = chunks_of(opt_pieces(*pieces), text@);
            let mut offset: usize = 0;
            let mut i: usize = 0;
            assert(cs.skip(0) =~= cs);
            while i < ps.len()
                invariant
                    i <= ps@.len(),
                    cs == chunks_of(Some(pieces_view(ps@)), text@),
                    byte_len(pieces_text(pieces_view(ps@))) <= usize::MAX,
                    offset <= byte_len(pieces_text(pieces_view(ps@).take(i as int))),
                    segs_view(segs@) + cut_chunks(cs.skip(i as int), offset as int, emph@, *backs)
                        =~= cut_chunks(cs, 0, emph@, *backs),
                decreases ps@.len() - i,
            {
                let (rgb, t) = &ps[i];
                let mut chunk = chars_of(t.as_str());
                let mut len = count_bytes(t.as_str());
                let ghost full = chunk@;
                if chunk.len() > 0 && chunk[chunk.len() - 1] == '\n' {
                    proof {
                        lemma_push_bytes(full.drop_last(), '\n');
                        assert(full.drop_last().push('\n') =~= full);
                    }
                    len = len - count_char_bytes('\n');
                    chunk.pop();
                }
                assert(chunk@ =~= without_nl(full));
                proof {
                    assert(cs.skip(i as int)[0] == cs[i as int]);
                    assert(pieces_view(ps@)[i as int] == (ps@[i as int].0, ps@[i as int].1@));
                    assert(cs[i as int].1 == chunk@);
                    assert(cs.skip(i as int).skip(1) =~= cs.skip(i + 1));
                    let pv = pieces_view(ps@);
                    assert(pv.take(i + 1).drop_last() =~= pv.take(i as int));
                    lemma_pieces_prefix(pv, i + 1);
                    law_bytes_join(pieces_text(pv.take(i as int)), full);
                }
                let style = Style::ink(Color::Rgb(rgb.0, rgb.1, rgb.2));
                cut_into(&mut segs, &chunk, len, offset, style, emph, backs);
                offset = offset + len;
                i += 1;
            }
        },
    }
    if segs.len() == 0 {
        let seg = Seg::new(Style::plain(), "");
        segs.push(seg);
        proof {
            reveal_strlit("");
            assert(seg@.text =~= Seq::<char>::empty());
            assert(segs_view(segs@) =~= seq![SegV { style: plain(), text: seq![] }]);
        }
    }
    segs
}

/// The values of optional pieces.
pub open spec fn opt_pieces(p: Option<Vec<Piece>>) -> Option<Seq<PieceV>> {
    match p {
        Some(v) => Some(pieces_view(v@)),
        None => None,
    }
}

proof fn lemma_pieces_prefix(v: Seq<PieceV>, k: int)
    requires
        0 <= k <= v.len(),
    ensures
        byte_len(pieces_text(v.take(k))) <= byte_len(pieces_text(v)),
    decreases v.len(),
{
    if k == v.len() {
        assert(v.take(k) =~= v);
    } else {
        lemma_pieces_prefix(v.drop_last(), k);
        assert(v.drop_last().take(k) =~= v.take(k));
        law_bytes_join(pieces_text(v.drop_last()), v.last().1);
    }
}

// ---- The document ----------------------------------------------------------------

/// Whether and how a document is colored.
#[derive(Clone, Copy)]
pub enum Hl<'a> {
    /// With syntax colors
    On(&'a Highlighter),
    /// Plain for now; a colored version will take its place
    Pending,
    /// Plain for good, and a note says so
    Off,
}

/// What the lines of a document are colored with: a theme, if any, and the file extension that
/// names the syntax.
pub struct Brush {
    pub theme: Option<Seq<char>>,
    pub ext: Option<Seq<char>>,
}

/// The brush for a file.
pub open spec fn brush(hl: Hl, path: Seq<char>) -> Brush {
    Brush {
        theme: match hl {
            Hl::On(hi) => Some(hi.theme_name()),
            _ => None,
        },
        ext: ext_of(path),
    }
}

/// The lines that the highlighter of one side has seen: all but those of kind `other`, each
/// with its newline.
pub open spec fn fed(ls: Seq<PLineV>, other: Kind) -> Seq<Seq<char>>
    decreases ls.len(),
{
    if ls.len() == 0 {
        seq![]
    } else if ls.last().kind == other {
        fed(ls.drop_last(), other)
    } else {
        fed(ls.drop_last(), other).push(ls.last().text.push('\n'))
    }
}

/// The colored pieces of a line after the lines `before`, on the side that lines of kind
/// `other` do not belong to; `None` without a theme.
pub open spec fn paint(br: Brush, before: Seq<PLineV>, other: Kind, text: Seq<char>) -> Option<
    Seq<PieceV>,
> {
    match br.theme {
        None => None,
        Some(t) => Some(painted(t, br.ext, fed(before, other), text.push('\n'))),
    }
}

/// The background colors of a line.
pub open spec fn backs_of(kind: Kind) -> Backs {
    match kind {
        Kind::Ctx => Backs { base: None, emph: None },
        Kind::Add => Backs { base: Some(hex(BG_ADD)), emph: Some(hex(BG_ADD_EMPH)) },
        Kind::Del => Backs { base: Some(hex(BG_DEL)), emph: Some(hex(BG_DEL_EMPH)) },
    }
}

/// The styled pieces of a line on the side that lines of kind `other` do not belong to.
pub open spec fn side_segs(br: Brush, before: Seq<PLineV>, other: Kind, l: PLineV) -> Seq<SegV> {
    styled(
        paint(br, before, other, l.text),
        l.text,
        if l.kind == Kind::Ctx {
            seq![]
        } else {
            l.emph
        },
        backs_of(l.kind),
    )
}

/// The number of a line, or 0.
pub open spec fn number(no: Option<u32>) -> u32 {
    match no {
        Some(n) => n,
        None => 0,
    }
}

/// The half of a row that shows a line of the old version.
pub open spec fn old_half(br: Brush, before: Seq<PLineV>, l: PLineV) -> HalfV {
    HalfV {
        no: number(l.old_no),
        segs: side_segs(br, before, Kind::Add, l),
        bg: backs_of(l.kind).base,
    }
}

/// The half of a row that shows a line of the new version.
pub open spec fn new_half(br: Brush, before: Seq<PLineV>, l: PLineV) -> HalfV {
    HalfV {
        no: number(l.new_no),
        segs: side_segs(br, before, Kind::Del, l),
        bg: backs_of(l.kind).base,
    }
}

/// The one-column row of a line: removed lines as the old side has them, others as the new side
/// has them.
pub open spec fn uni_row(br: Brush, before: Seq<PLineV>, l: PLineV) -> URowV {
    URowV {
        old_no: if l.kind == Kind::Add {
            None
        } else {
            l.old_no
        },
        new_no: if l.kind == Kind::Del {
            None
        } else {
            l.new_no
        },
        segs: if l.kind == Kind::Del {
            side_segs(br, before, Kind::Add, l)
        } else {
            side_segs(br, before, Kind::Del, l)
        },
        bg: backs_of(l.kind).base,
        is_hunk: false,
    }
}

/// The one-column rows of lines that follow the lines `before`.
pub open spec fn uni_rows(br: Brush, before: Seq<PLineV>, ls: Seq<PLineV>) -> Seq<URowV>
    decreases ls.len(),
{
    if ls.len() == 0 {
        seq![]
    } else {
        uni_rows(br, before, ls.drop_last()).push(
            uni_row(br, before + ls.drop_last(), ls.last()),
        )
    }
}

/// Rows with `l` on the left and `r` on the right, in order.
pub open spec fn zip_rows(l: Seq<HalfV>, r: Seq<HalfV>) -> Seq<SRowV> {
    let n = if l.len() > r.len() {
        l.len()
    } else {
        r.len()
    };
    Seq::new(
        n,
        |k: int|
            SRowV {
                left: if k < l.len() {
                    Some(l[k])
                } else {
                    None
                },
                right: if k < r.len() {
                    Some(r[k])
                } else {
                    None
                },
                header: None,
            },
    )
}

/// How far the pairing of old and new lines has come: finished rows, and the removed and added
/// lines since the last line that is in both.
#[verifier::ext_equal]
pub struct Pairing {
    pub rows: Seq<SRowV>,
    pub left: Seq<HalfV>,
    pub right: Seq<HalfV>,
}

/// The rows, with what was pending.
pub open spec fn flushed(p: Pairing) -> Seq<SRowV> {
    p.rows + zip_rows(p.left, p.right)
}

/// The pairing after lines that follow the lines `before`.
pub open spec fn pairing(br: Brush, before: Seq<PLineV>, ls: Seq<PLineV>) -> Pairing
    decreases ls.len(),
{
    if ls.len() == 0 {
        Pairing { rows: seq![], left: seq![], right: seq![] }
    } else {
        let p = pairing(br, before, ls.drop_last());
        let seen = before + ls.drop_last();
        let l = ls.last();
        match l.kind {
            Kind::Ctx => Pairing {
                rows: flushed(p).push(
                    SRowV {
                        left: Some(old_half(br, seen, l)),
                        right: Some(new_half(br, seen, l)),
                        header: None,
                    },
                ),
                left: seq![],
                right: seq![],
            },
            Kind::Del => Pairing { left: p.left.push(old_half(br, seen, l)), ..p },
            Kind::Add => Pairing { right: p.right.push(new_half(br, seen, l)), ..p },
        }
    }
}

/// The header row of a hunk in the one-column view.
pub open spec fn uni_header(header: Seq<char>) -> URowV {
    URowV {
        old_no: None,
        new_no: None,
        segs: seq![SegV { style: inked(hex(FG_HUNK)), text: header }],
        bg: None,
        is_hunk: true,
    }
}

/// The header row of a hunk in the side-by-side view.
pub open spec fn sxs_header(header: Seq<char>) -> SRowV {
    SRowV { left: None, right: None, header: Some(header) }
}

/// The rows of hunks, where each hunk begins in them, and all their lines.
#[verifier::ext_equal]
pub struct Layout {
    pub unified: Seq<URowV>,
    pub sxs: Seq<SRowV>,
    pub hunks_u: Seq<usize>,
    pub hunks_s: Seq<usize>,
    pub seen: Seq<PLineV>,
}

/// The rows of hunks: for each its header and then its lines.
pub open spec fn layout(br: Brush, hunks: Seq<PHunkV>) -> Layout
    decreases hunks.len(),
{
    if hunks.len() == 0 {
        Layout { unified: seq![], sxs: seq![], hunks_u: seq![], hunks_s: seq![], seen: seq![] }
    } else {
        let a = layout(br, hunks.drop_last());
        let h = hunks.last();
        Layout {
            unified: a.unified.push(uni_header(h.header)) + uni_rows(br, a.seen, h.lines),
            sxs: a.sxs.push(sxs_header(h.header)) + flushed(pairing(br, a.seen, h.lines)),
            hunks_u: a.hunks_u.push(a.unified.len() as usize),
            hunks_s: a.hunks_s.push(a.sxs.len() as usize),
            seen: a.seen + h.lines,
        }
    }
}

/// The number of the first added line, if any.
pub open spec fn first_added(ls: Seq<PLineV>) -> Option<u32>
    decreases ls.len(),
{
    if ls.len() == 0 {
        None
    } else if first_added(ls.drop_last()) is Some {
        first_added(ls.drop_last())
    } else if ls.last().kind == Kind::Add {
        ls.last().new_no
    } else {
        None
    }
}

/// The line to open the new version at: the first added line, else where the first hunk begins.
pub open spec fn line_to_open(hunks: Seq<PHunkV>, seen: Seq<PLineV>) -> Option<u32> {
    if first_added(seen) is Some {
        first_added(seen)
    } else if hunks.len() > 0 && hunks[0].lines.len() > 0 {
        hunks[0].lines[0].new_no
    } else {
        None
    }
}

/// The note above a document.
pub open spec fn doc_note(binary: bool, hunks: nat, total: nat, off: bool) -> Option<Seq<char>> {
    if binary {
        Some("binary file (no diff)"@)
    } else if hunks == 0 {
        Some("no diff"@)
    } else if total > MAX_LINES && off {
        Some(
            "… truncated after "@ + decimal(MAX_LINES as nat)
                + " lines · syntax off (large diff)"@,
        )
    } else if total > MAX_LINES {
        Some("… truncated after "@ + decimal(MAX_LINES as nat) + " lines"@)
    } else if off {
        Some("syntax off (large diff)"@)
    } else {
        None
    }
}

/// The hunks that a diff text holds, with the emphasis of their lines.
pub open spec fn hunks_in(diff: Seq<char>) -> Seq<PHunkV> {
    all_with_marks(scan_lines(scan_start(), lines_of(diff)).hunks)
}

/// The document that shows a diff text.
pub open spec fn doc_of(diff: Seq<char>, br: Brush, off: bool) -> DocV {
    let a = layout(br, hunks_in(diff));
    DocV {
        note: doc_note(
            scan_lines(scan_start(), lines_of(diff)).binary,
            hunks_in(diff).len(),
            a.seen.len(),
            off,
        ),
        unified: a.unified,
        sxs: a.sxs,
        hunks_u: a.hunks_u,
        hunks_s: a.hunks_s,
        first_new_line: line_to_open(hunks_in(diff), a.seen),
    }
}

/// The highlighters of the old and the new side.
struct Sides<'a> {
    old: Side<'a>,
    new: Side<'a>,
}

impl<'a> Sides<'a> {
    /// Whether the highlighters have a brush and have seen some lines.
    spec fn are(&self, br: Brush, seen: Seq<PLineV>) -> bool {
        &&& br.theme == Some(self.old.theme())
        &&& br.theme == Some(self.new.theme())
        &&& br.ext == self.old.ext()
        &&& br.ext == self.new.ext()
        &&& self.old.fed() == fed(seen, Kind::Add)
        &&& self.new.fed() == fed(seen, Kind::Del)
    }
}

/// Whether the highlighters, if any, have a brush and have seen some lines.
spec fn sides_are(sides: Option<Sides>, br: Brush, seen: Seq<PLineV>) -> bool {
    match sides {
        Some(s) => s.are(br, seen),
        None => br.theme is None,
    }
}

/// What one line adds to the document: its pieces on the sides that it belongs to.
struct LineSegs {
    old: Option<Vec<Seg>>,
    new: Option<Vec<Seg>>,
}

fn with_newline(text: &str) -> (r: String)
    ensures
        r@ == text@.push('\n'),
{
    let mut s = text.to_string();
    s.push('\n');
    s
}

fn paint_line<'a>(
    sides: Option<Sides<'a>>,
    line: &PLine,
    Ghost(br): Ghost<Brush>,
    Ghost(seen): Ghost<Seq<PLineV>>,
) -> (r: (Option<Sides<'a>>, LineSegs))
    requires
        sides_are(sides, br, seen),
    ensures
        sides_are(r.0, br, seen.push(line@)),
        line.kind != Kind::Add <==> r.1.old is Some,
        line.kind != Kind::Del <==> r.1.new is Some,
        r.1.old matches Some(v) ==> segs_view(v@) == side_segs(br, seen, Kind::Add, line@),
        r.1.new matches Some(v) ==> segs_view(v@) == side_segs(br, seen, Kind::Del, line@),
{
    let text = line.text.as_str();
    let full = with_newline(text);
    let no_emph: Vec<(usize, usize)> = Vec::new();
    let backs = match line.kind {
        Kind::Ctx => Backs { base: None, emph: None },
        Kind::Add => Backs { base: Some(rgb(BG_ADD)), emph: Some(rgb(BG_ADD_EMPH)) },
        Kind::Del => Backs { base: Some(rgb(BG_DEL)), emph: Some(rgb(BG_DEL_EMPH)) },
    };
    let emph = match line.kind {
        Kind::Ctx => &no_emph,
        _ => &line.emph,
    };
    let len = count_bytes(full.as_str());
    proof {
        assert(seen.push(line@).drop_last() =~= seen);
        assert(seen.push(line@).last() == line@);
        assert(no_emph@ =~= Seq::<(usize, usize)>::empty());
    }
    let mut sides = sides;
    let mut old_pieces: Option<Vec<Piece>> = None;
    let mut new_pieces: Option<Vec<Piece>> = None;
    match sides {
        None => {},
        Some(mut s) => {
            if line.kind != Kind::Add {
                old_pieces = Some(s.old.paint(full.as_str()));
            }
            if line.kind != Kind::Del {
                new_pieces = Some(s.new.paint(full.as_str()));
            }
            sides = Some(s);
        },
    }
    proof {
        if opt_pieces(old_pieces) is Some {
            let t = pieces_text(opt_pieces(old_pieces)->0);
            lemma_more_bytes(full@, t.len() as int, full@.len() as int);
        }
        if opt_pieces(new_pieces) is Some {
            let t = pieces_text(opt_pieces(new_pieces)->0);
            lemma_more_bytes(full@, t.len() as int, full@.len() as int);
        }
    }
    let old = if line.kind != Kind::Add {
        Some(styled_segs(&old_pieces, text, emph, &backs))
    } else {
        None
    };
    let new = if line.kind != Kind::Del {
        Some(styled_segs(&new_pieces, text, emph, &backs))
    } else {
        None
    };
    (sides, LineSegs { old, new })
}

/// Move the pending halves into rows.
fn flush_sxs(rows: &mut Vec<SRow>, left: &Vec<Half>, right: &Vec<Half>)
    ensures
        srows(final(rows)@) == srows(old(rows)@) + zip_rows(halves(left@), halves(right@)),
{
    let n = if left.len() > right.len() {
        left.len()
    } else {
        right.len()
    };
    let ghost before = srows(rows@);
    let ghost zip = zip_rows(halves(left@), halves(right@));
    let mut k: usize = 0;
    while k < n
        invariant
            k <= n,
            n == zip.len(),
            zip == zip_rows(halves(left@), halves(right@)),
            srows(rows@) =~= before + zip.take(k as int),
        decreases n - k,
    {
        let l = if k < left.len() {
            Some(left[k].clone())
        } else {
            None
        };
        let r = if k < right.len() {
            Some(right[k].clone())
        } else {
            None
        };
        let row = SRow { left: l, right: r, header: None };
        let ghost rows0 = rows@;
        rows.push(row);
        assert(srows(rows@) =~= srows(rows0).push(row@));
        assert(row@ =~= zip[k as int]);
        assert(zip.take(k + 1) =~= zip.take(k as int).push(zip[k as int]));
        k += 1;
    }
    assert(zip.take(n as int) =~= zip);
}

fn number_of(no: Option<u32>) -> (r: u32)
    ensures
        r == number(no),
{
    match no {
        Some(n) => n,
        None => 0,
    }
}

/// The rows of hunks while they are built.
struct Rows {
    unified: Vec<URow>,
    sxs: Vec<SRow>,
    first_added: Option<u32>,
    total: usize,
}

/// Append the rows of one hunk's lines.
fn add_lines<'a>(
    rows: &mut Rows,
    sides: Option<Sides<'a>>,
    lines: &Vec<PLine>,
    Ghost(br): Ghost<Brush>,
    Ghost(seen): Ghost<Seq<PLineV>>,
) -> (r: Option<Sides<'a>>)
    requires
        sides_are(sides, br, seen),
        old(rows).first_added == first_added(seen),
    ensures
        sides_are(r, br, seen + plines(lines@)),
        urows(final(rows).unified@) == urows(old(rows).unified@) + uni_rows(br, seen, plines(lines@)),
        srows(final(rows).sxs@) == srows(old(rows).sxs@) + flushed(pairing(br, seen, plines(lines@))),
        final(rows).first_added == first_added(seen + plines(lines@)),
        final(rows).total == old(rows).total,
{
    let mut left: Vec<Half> = Vec::new();
    let mut right: Vec<Half> = Vec::new();
    let mut sides = sides;
    let mut i: usize = 0;
    let ghost ls = plines(lines@);
    let ghost u0 = urows(rows.unified@);
    let ghost s0 = srows(rows.sxs@);
    proof {
        assert(ls.take(0) =~= Seq::<PLineV>::empty());
        assert(seen + ls.take(0) =~= seen);
        assert(halves(left@) =~= Seq::<HalfV>::empty());
        assert(halves(right@) =~= Seq::<HalfV>::empty());
        assert(u0 + uni_rows(br, seen, ls.take(0)) =~= u0);
        assert(s0 + pairing(br, seen, ls.take(0)).rows =~= s0);
    }
    while i < lines.len()
        invariant
            ls == plines(lines@),
            i <= lines@.len(),
            sides_are(sides, br, seen + ls.take(i as int)),
            urows(rows.unified@) == u0 + uni_rows(br, seen, ls.take(i as int)),
            srows(rows.sxs@) == s0 + pairing(br, seen, ls.take(i as int)).rows,
            halves(left@) == pairing(br, seen, ls.take(i as int)).left,
            halves(right@) == pairing(br, seen, ls.take(i as int)).right,
            rows.first_added == first_added(seen + ls.take(i as int)),
            rows.total == old(rows).total,
        decreases lines@.len() - i,
    {
        let line = &lines[i];
        let ghost now = seen + ls.take(i as int);
        let ghost p = pairing(br, seen, ls.take(i as int));
        let ghost rows0 = *rows;
        let ghost left0 = left@;
        let ghost right0 = right@;
        proof {
            assert(ls[i as int] == line@);
            assert(ls.take(i + 1).drop_last() =~= ls.take(i as int));
            assert(ls.take(i + 1).last() == line@);
            assert(seen + ls.take(i + 1) =~= now.push(line@));
            assert(now.push(line@).drop_last() =~= now);
        }
        let (after, segs) = paint_line(sides, line, Ghost(br), Ghost(now));
        sides = after;
        match line.kind {
            Kind::Ctx => {
                let old_segs = segs.old.unwrap();
                let new_segs = segs.new.unwrap();
                let shown = new_segs.clone();
                assert(segs_view(shown@) =~= segs_view(new_segs@));
                flush_sxs(&mut rows.sxs, &left, &right);
                left = Vec::new();
                right = Vec::new();
                let ghost sxs1 = rows.sxs@;
                let row = SRow {
                    left: Some(Half { no: number_of(line.old_no), segs: old_segs, bg: None }),
                    right: Some(Half { no: number_of(line.new_no), segs: new_segs, bg: None }),
                    header: None,
                };
                rows.sxs.push(row);
                let urow = URow {
                    old_no: line.old_no,
                    new_no: line.new_no,
                    segs: shown,
                    bg: None,
                    is_hunk: false,
                };
                rows.unified.push(urow);
                proof {
                    assert(srows(rows.sxs@) =~= srows(sxs1).push(row@));
                    assert(row@.left == Some(old_half(br, now, line@)));
                    assert(row@.right == Some(new_half(br, now, line@)));
                    assert(urow@ =~= uni_row(br, now, line@));
                    assert(urows(rows.unified@) =~= urows(rows0.unified@).push(urow@));
                    assert(halves(left@) =~= Seq::<HalfV>::empty());
                    assert(halves(right@) =~= Seq::<HalfV>::empty());
                    assert(srows(rows.sxs@) =~= s0 + flushed(p).push(row@));
                }
            },
            Kind::Del => {
                let old_segs = segs.old.unwrap();
                let shown = old_segs.clone();
                assert(segs_view(shown@) =~= segs_view(old_segs@));
                let urow = URow {
                    old_no: line.old_no,
                    new_no: None,
                    segs: shown,
                    bg: Some(rgb(BG_DEL)),
                    is_hunk: false,
                };
                rows.unified.push(urow);
                let half = Half {
                    no: number_of(line.old_no),
                    segs: old_segs,
                    bg: Some(rgb(BG_DEL)),
                };
                left.push(half);
                proof {
                    assert(urow@ =~= uni_row(br, now, line@));
                    assert(urows(rows.unified@) =~= urows(rows0.unified@).push(urow@));
                    assert(half@ =~= old_half(br, now, line@));
                    assert(halves(left@) =~= halves(left0).push(half@));
                }
            },
            Kind::Add => {
                if rows.first_added.is_none() {
                    rows.first_added = line.new_no;
                }
                let new_segs = segs.new.unwrap();
                let shown = new_segs.clone();
                assert(segs_view(shown@) =~= segs_view(new_segs@));
                let urow = URow {
                    old_no: None,
                    new_no: line.new_no,
                    segs: shown,
                    bg: Some(rgb(BG_ADD)),
                    is_hunk: false,
                };
                rows.unified.push(urow);
                let half = Half {
                    no: number_of(line.new_no),
                    segs: new_segs,
                    bg: Some(rgb(BG_ADD)),
                };
                right.push(half);
                proof {
                    assert(urow@ =~= uni_row(br, now, line@));
                    assert(urows(rows.unified@) =~= urows(rows0.unified@).push(urow@));
                    assert(half@ =~= new_half(br, now, line@));
                    assert(halves(right@) =~= halves(right0).push(half@));
                }
            },
        }
        assert(urows(rows.unified@) =~= u0 + uni_rows(br, seen, ls.take(i + 1)));
        i += 1;
    }
    assert(ls.take(ls.len() as int) =~= ls);
    flush_sxs(&mut rows.sxs, &left, &right);
    assert(srows(rows.sxs@) =~= s0 + flushed(pairing(br, seen, ls)));
    sides
}

fn note_of(binary: bool, hunks: usize, many: bool, off: bool, Ghost(total): Ghost<nat>) -> (r:
    Option<String>)
    requires
        many == (total > MAX_LINES),
    ensures
        opt_str(r) == doc_note(binary, hunks as nat, total, off),
{
    if binary {
        Some("binary file (no diff)".to_string())
    } else if hunks == 0 {
        Some("no diff".to_string())
    } else if many {
        let mut s = cat("… truncated after ", dec(MAX_LINES as u64).as_str());
        if off {
            s.append(" lines · syntax off (large diff)");
        } else {
            s.append(" lines");
        }
        Some(s)
    } else if off {
        Some("syntax off (large diff)".to_string())
    } else {
        None
    }
}

/// Turn unified diff text into a document. `path` names the file, for its syntax.
pub fn build_doc(diff: &str, path: &str, hl: Hl) -> (r: DiffDoc)
    ensures
        r@ == doc_of(diff@, brush(hl, path@), hl is Off),
{
    let (hunks, binary) = parse(diff);
    let off = match hl {
        Hl::Off => true,
        _ => false,
    };
    let ghost br = brush(hl, path@);
    let ghost hs = phunks(hunks@);
    let mut sides: Option<Sides> = match hl {
        Hl::On(hi) => Some(Sides { old: Side::open(hi, path), new: Side::open(hi, path) }),
        _ => None,
    };
    let mut rows = Rows { unified: Vec::new(), sxs: Vec::new(), first_added: None, total: 0 };
    let mut hunks_u: Vec<usize> = Vec::new();
    let mut hunks_s: Vec<usize> = Vec::new();
    let mut i: usize = 0;
    proof {
        assert(hs.take(0) =~= Seq::<PHunkV>::empty());
        assert(urows(rows.unified@) =~= Seq::<URowV>::empty());
        assert(srows(rows.sxs@) =~= Seq::<SRowV>::empty());
    }
    while i < hunks.len()
        invariant
            hs == phunks(hunks@),
            i <= hunks@.len(),
            sides_are(sides, br, layout(br, hs.take(i as int)).seen),
            urows(rows.unified@) == layout(br, hs.take(i as int)).unified,
            srows(rows.sxs@) == layout(br, hs.take(i as int)).sxs,
            hunks_u@ == layout(br, hs.take(i as int)).hunks_u,
            hunks_s@ == layout(br, hs.take(i as int)).hunks_s,
            rows.first_added == first_added(layout(br, hs.take(i as int)).seen),
            rows.total as nat == capped(layout(br, hs.take(i as int)).seen.len()),
        decreases hunks@.len() - i,
    {
        let hunk = &hunks[i];
        let ghost a = layout(br, hs.take(i as int));
        proof {
            assert(hs[i as int] == hunk@);
            assert(hs.take(i + 1).drop_last() =~= hs.take(i as int));
            assert(hs.take(i + 1).last() == hunk@);
        }
        hunks_u.push(rows.unified.len());
        hunks_s.push(rows.sxs.len());
        let mut segs: Vec<Seg> = Vec::new();
        segs.push(Seg::new(Style::ink(rgb(FG_HUNK)), hunk.header.as_str()));
        let urow = URow { old_no: None, new_no: None, segs, bg: None, is_hunk: true };
        let srow = SRow { left: None, right: None, header: Some(hunk.header.clone()) };
        let ghost rows0 = rows;
        rows.unified.push(urow);
        rows.sxs.push(srow);
        proof {
            assert(urow@.segs =~= uni_header(hunk.header@).segs);
            assert(urow@ =~= uni_header(hunk.header@));
            assert(urows(rows.unified@) =~= urows(rows0.unified@).push(urow@));
            assert(srow@ =~= sxs_header(hunk.header@));
            assert(srows(rows.sxs@) =~= srows(rows0.sxs@).push(srow@));
        }
        sides = add_lines(&mut rows, sides, &hunk.lines, Ghost(br), Ghost(a.seen));
        rows.total = rows.total.saturating_add(hunk.lines.len());
        i += 1;
    }
    assert(hs.take(hs.len() as int) =~= hs);
    let ghost seen = layout(br, hs).seen;
    let note = note_of(binary, hunks.len(), rows.total > MAX_LINES, off, Ghost(seen.len()));
    let mut first_new_line = rows.first_added;
    if first_new_line.is_none() && hunks.len() > 0 && hunks[0].lines.len() > 0 {
        assert(hs[0] == hunks@[0]@);
        assert(hs[0].lines[0] == hunks@[0].lines@[0]@);
        first_new_line = hunks[0].lines[0].new_no;
    }
    proof {
        if hunks@.len() > 0 {
            assert(hs[0] == hunks@[0]@);
        }
    }
    DiffDoc {
        note,
        unified: rows.unified,
        sxs: rows.sxs,
        hunks_u,
        hunks_s,
        first_new_line,
    }
}

// ---- Laws ------------------------------------------------------------------------

proof fn lemma_cut_chunk_text(
    chunk: Seq<char>,
    offset: int,
    pos: int,
    style: Style,
    emph: Seq<(usize, usize)>,
    backs: Backs,
)
    requires
        0 <= pos <= chunk.len(),
    ensures
        joined(cut_chunk(chunk, offset, pos, style, emph, backs)) == chunk.skip(pos),
    decreases chunk.len() - pos,
{
    let segs = cut_chunk(chunk, offset, pos, style, emph, backs);
    if pos < chunk.len() {
        lemma_piece_end(chunk, offset, pos, emph);
        let end = piece_end(chunk, offset, pos, emph);
        let first = SegV {
            style: seg_style(style, backs, emphasised(emph, offset + byte_len(chunk.take(pos)))),
            text: chunk.subrange(pos, end),
        };
        let rest = cut_chunk(chunk, offset, end, style, emph, backs);
        lemma_cut_chunk_text(chunk, offset, end, style, emph, backs);
        lemma_joined_add(seq![first], rest);
        reveal_with_fuel(joined, 2);
        assert(seq![first].drop_last() =~= Seq::<SegV>::empty());
        assert(joined(seq![first]) =~= first.text);
        assert(first.text + chunk.skip(end) =~= chunk.skip(pos));
    } else {
        assert(chunk.skip(pos) =~= Seq::<char>::empty());
    }
}

proof fn lemma_cut_chunks_text(
    chunks: Seq<(Style, Seq<char>)>,
    offset: int,
    emph: Seq<(usize, usize)>,
    backs: Backs,
)
    ensures
        joined(cut_chunks(chunks, offset, emph, backs)) == chunks_text(chunks),
    decreases chunks.len(),
{
    if chunks.len() > 0 {
        let c = chunks[0];
        let head = cut_chunk(c.1, offset, 0, c.0, emph, backs);
        let rest = cut_chunks(chunks.skip(1), offset + byte_len(c.1), emph, backs);
        lemma_cut_chunk_text(c.1, offset, 0, c.0, emph, backs);
        lemma_cut_chunks_text(chunks.skip(1), offset + byte_len(c.1), emph, backs);
        lemma_joined_add(head, rest);
        assert(c.1.skip(0) =~= c.1);
    }
}

proof fn lemma_chunks_text_push(chunks: Seq<(Style, Seq<char>)>)
    requires
        chunks.len() > 0,
    ensures
        chunks_text(chunks) == chunks_text(chunks.drop_last()) + chunks.last().1,
    decreases chunks.len(),
{
    if chunks.len() == 1 {
        reveal_with_fuel(chunks_text, 2);
        assert(chunks.drop_last() =~= Seq::<(Style, Seq<char>)>::empty());
        assert(chunks.skip(1) =~= Seq::<(Style, Seq<char>)>::empty());
        assert(chunks_text(chunks) =~= chunks.last().1);
        assert(chunks_text(chunks.drop_last()) + chunks.last().1 =~= chunks.last().1);
    } else {
        lemma_chunks_text_push(chunks.skip(1));
        assert(chunks.skip(1).drop_last() =~= chunks.drop_last().skip(1));
        assert(chunks.drop_last()[0] == chunks[0]);
        let mid = chunks_text(chunks.drop_last().skip(1));
        assert(chunks[0].1 + (mid + chunks.last().1) =~= (chunks[0].1 + mid) + chunks.last().1);
    }
}

proof fn lemma_styled_text(
    pieces: Option<Seq<PieceV>>,
    text: Seq<char>,
    emph: Seq<(usize, usize)>,
    backs: Backs,
)
    ensures
        joined(styled(pieces, text, emph, backs)) == chunks_text(chunks_of(pieces, text)),
{
    reveal(styled);
    let chunks = chunks_of(pieces, text);
    lemma_cut_chunks_text(chunks, 0, emph, backs);
    let segs = cut_chunks(chunks, 0, emph, backs);
    if segs.len() == 0 {
        let one = seq![SegV { style: plain(), text: seq![] }];
        reveal_with_fuel(joined, 2);
        assert(one.drop_last() =~= Seq::<SegV>::empty());
        assert(joined(one) =~= Seq::<char>::empty());
        assert(joined(segs) =~= Seq::<char>::empty());
    }
}

/// Whether a text has no line feed.
pub open spec fn one_line(text: Seq<char>) -> bool {
    forall|i: int| 0 <= i < text.len() ==> #[trigger] text[i] != '\n'
}

proof fn lemma_pieces_chunks(ps: Seq<PieceV>, text: Seq<char>)
    requires
        one_line(text),
        begins(text.push('\n'), pieces_text(ps)),
    ensures
        chunks_text(chunks_of(Some(ps), text)) == without_nl(pieces_text(ps)),
    decreases ps.len(),
{
    let chunks = chunks_of(Some(ps), text);
    let line = text.push('\n');
    if ps.len() > 0 {
        let head = ps.drop_last();
        let a = pieces_text(head);
        let p = ps.last().1;
        let t = pieces_text(ps);
        assert(t == a + p);
        assert(a =~= line.take(a.len() as int)) by {
            assert(t =~= line.take(t.len() as int));
            assert(a =~= t.take(a.len() as int));
        }
        lemma_pieces_chunks(head, text);
        assert(chunks_of(Some(head), text) =~= chunks.drop_last());
        lemma_chunks_text_push(chunks);
        assert(chunks.last().1 == without_nl(p));
        if a.len() == line.len() {
            assert(p =~= Seq::<char>::empty());
            assert(t =~= a);
            assert(without_nl(a) + without_nl(p) =~= without_nl(t));
        } else {
            if a.len() > 0 {
                assert(a.last() == text[a.len() - 1]);
            }
            assert(without_nl(a) == a);
            if p.len() > 0 {
                assert(t.last() == p.last());
            } else {
                assert(t =~= a);
            }
            assert(a + without_nl(p) =~= without_nl(t));
        }
    } else {
        assert(pieces_text(ps) =~= Seq::<char>::empty());
    }
}

/// A row that is not colored shows its line, whatever is emphasised in it.
pub proof fn law_plain_rows_show_text(
    text: Seq<char>,
    emph: Seq<(usize, usize)>,
    backs: Backs,
)
    ensures
        joined(styled(None, text, emph, backs)) == text,
{
    lemma_styled_text(None, text, emph, backs);
    let chunks = chunks_of(None, text);
    reveal_with_fuel(chunks_text, 2);
    assert(chunks.skip(1) =~= Seq::<(Style, Seq<char>)>::empty());
    assert(chunks_text(chunks) =~= text);
}

/// A colored row shows the part of its line that the highlighter gave back, without the line
/// feed that it was fed with: all of the line where it gave back all.
pub proof fn law_colored_rows_show_text(
    ps: Seq<PieceV>,
    text: Seq<char>,
    emph: Seq<(usize, usize)>,
    backs: Backs,
)
    requires
        one_line(text),
        begins(text.push('\n'), pieces_text(ps)),
    ensures
        joined(styled(Some(ps), text, emph, backs)).is_prefix_of(text),
        pieces_text(ps) == text.push('\n') ==> joined(styled(Some(ps), text, emph, backs)) == text,
{
    lemma_styled_text(Some(ps), text, emph, backs);
    lemma_pieces_chunks(ps, text);
    let t = pieces_text(ps);
    assert(t =~= text.push('\n').take(t.len() as int));
    if t.len() > 0 && t.len() < text.push('\n').len() {
        assert(t.last() == text[t.len() - 1]);
    }
    assert(without_nl(t).is_prefix_of(text));
    if t == text.push('\n') {
        assert(without_nl(t) =~= text);
    }
}

proof fn lemma_uni_rows_len(br: Brush, before: Seq<PLineV>, ls: Seq<PLineV>)
    ensures
        uni_rows(br, before, ls).len() == ls.len(),
        forall|i: int| 0 <= i < ls.len() ==> !(#[trigger] uni_rows(br, before, ls)[i]).is_hunk,
    decreases ls.len(),
{
    if ls.len() > 0 {
        lemma_uni_rows_len(br, before, ls.drop_last());
    }
}

proof fn lemma_pairing_no_header(br: Brush, before: Seq<PLineV>, ls: Seq<PLineV>)
    ensures
        forall|i: int|
            0 <= i < pairing(br, before, ls).rows.len() ==> (#[trigger] pairing(
                br,
                before,
                ls,
            ).rows[i]).header is None,
    decreases ls.len(),
{
    if ls.len() > 0 {
        lemma_pairing_no_header(br, before, ls.drop_last());
    }
}

/// The recorded hunk starts are, in order, exactly the rows that show a hunk's header, in both
/// views.
pub proof fn law_hunk_starts(br: Brush, hunks: Seq<PHunkV>)
    requires
        layout(br, hunks).unified.len() <= usize::MAX,
        layout(br, hunks).sxs.len() <= usize::MAX,
    ensures
        ({
            let a = layout(br, hunks);
            &&& a.hunks_u.len() == hunks.len()
            &&& a.hunks_s.len() == hunks.len()
            &&& forall|k: int|
                0 <= k < hunks.len() ==> (#[trigger] a.hunks_u[k]) < a.unified.len()
                    && a.unified[a.hunks_u[k] as int] == uni_header(hunks[k].header)
            &&& forall|k: int|
                0 <= k < hunks.len() ==> (#[trigger] a.hunks_s[k]) < a.sxs.len()
                    && a.sxs[a.hunks_s[k] as int] == sxs_header(hunks[k].header)
            &&& forall|j: int, k: int|
                0 <= j < k < hunks.len() ==> a.hunks_u[j] < a.hunks_u[k]
            &&& forall|j: int, k: int|
                0 <= j < k < hunks.len() ==> a.hunks_s[j] < a.hunks_s[k]
            &&& forall|i: int|
                0 <= i < a.unified.len() && (#[trigger] a.unified[i]).is_hunk
                    ==> a.hunks_u.contains(i as usize)
            &&& forall|i: int|
                0 <= i < a.sxs.len() && (#[trigger] a.sxs[i]).header is Some
                    ==> a.hunks_s.contains(i as usize)
        }),
    decreases hunks.len(),
{
    if hunks.len() > 0 {
        let b = layout(br, hunks.drop_last());
        let a = layout(br, hunks);
        let h = hunks.last();
        law_hunk_starts(br, hunks.drop_last());
        lemma_uni_rows_len(br, b.seen, h.lines);
        lemma_pairing_no_header(br, b.seen, h.lines);
        let u = uni_rows(br, b.seen, h.lines);
        let f = flushed(pairing(br, b.seen, h.lines));
        assert(a.unified =~= b.unified.push(uni_header(h.header)) + u);
        assert(a.sxs =~= b.sxs.push(sxs_header(h.header)) + f);
        assert forall|k: int| 0 <= k < hunks.len() implies (#[trigger] a.hunks_u[k])
            < a.unified.len() && a.unified[a.hunks_u[k] as int] == uni_header(hunks[k].header) by {
            if k < hunks.len() - 1 {
                assert(a.hunks_u[k] == b.hunks_u[k]);
                assert(hunks.drop_last()[k] == hunks[k]);
            }
        }
        assert forall|k: int| 0 <= k < hunks.len() implies (#[trigger] a.hunks_s[k]) < a.sxs.len()
            && a.sxs[a.hunks_s[k] as int] == sxs_header(hunks[k].header) by {
            if k < hunks.len() - 1 {
                assert(a.hunks_s[k] == b.hunks_s[k]);
                assert(hunks.drop_last()[k] == hunks[k]);
            }
        }
        let last = hunks.len() - 1;
        assert forall|i: int|
            0 <= i < a.unified.len() && (#[trigger] a.unified[i]).is_hunk implies a.hunks_u.contains(
            i as usize,
        ) by {
            if i < b.unified.len() {
                assert(a.unified[i] == b.unified[i]);
                let j = choose|j: int| 0 <= j < b.hunks_u.len() && b.hunks_u[j] == i as usize;
                assert(a.hunks_u[j] == i as usize);
            } else if i == b.unified.len() {
                assert(a.hunks_u[last] == i as usize);
            } else {
                assert(a.unified[i] == u[i - b.unified.len() - 1]);
            }
        }
        assert forall|i: int|
            0 <= i < a.sxs.len() && (#[trigger] a.sxs[i]).header is Some implies a.hunks_s.contains(
            i as usize,
        ) by {
            if i < b.sxs.len() {
                assert(a.sxs[i] == b.sxs[i]);
                let j = choose|j: int| 0 <= j < b.hunks_s.len() && b.hunks_s[j] == i as usize;
                assert(a.hunks_s[j] == i as usize);
            } else if i == b.sxs.len() {
                assert(a.hunks_s[last] == i as usize);
            } else {
                assert(a.sxs[i] == f[i - b.sxs.len() - 1]);
            }
        }
    }
}

/// All lines of hunks, in order.
pub open spec fn lines_in(hunks: Seq<PHunkV>) -> Seq<PLineV>
    decreases hunks.len(),
{
    if hunks.len() == 0 {
        seq![]
    } else {
        lines_in(hunks.drop_last()) + hunks.last().lines
    }
}

/// The one-column view has one row for each hunk and one for each line.
pub proof fn law_one_row_per_line(br: Brush, hunks: Seq<PHunkV>)
    ensures
        layout(br, hunks).unified.len() == hunks.len() + lines_in(hunks).len(),
        layout(br, hunks).seen == lines_in(hunks),
    decreases hunks.len(),
{
    if hunks.len() > 0 {
        law_one_row_per_line(br, hunks.drop_last());
        lemma_uni_rows_len(br, layout(br, hunks.drop_last()).seen, hunks.last().lines);
    }
}

/// The left halves of rows, in order.
pub open spec fn lefts(rows: Seq<SRowV>) -> Seq<HalfV>
    decreases rows.len(),
{
    if rows.len() == 0 {
        seq![]
    } else {
        match rows.last().left {
            Some(h) => lefts(rows.drop_last()).push(h),
            None => lefts(rows.drop_last()),
        }
    }
}

/// The right halves of rows, in order.
pub open spec fn rights(rows: Seq<SRowV>) -> Seq<HalfV>
    decreases rows.len(),
{
    if rows.len() == 0 {
        seq![]
    } else {
        match rows.last().right {
            Some(h) => rights(rows.drop_last()).push(h),
            None => rights(rows.drop_last()),
        }
    }
}

/// The halves that show the lines of the old version, in order.
pub open spec fn old_halves(br: Brush, before: Seq<PLineV>, ls: Seq<PLineV>) -> Seq<HalfV>
    decreases ls.len(),
{
    if ls.len() == 0 {
        seq![]
    } else {
        let v = old_halves(br, before, ls.drop_last());
        if ls.last().kind == Kind::Add {
            v
        } else {
            v.push(old_half(br, before + ls.drop_last(), ls.last()))
        }
    }
}

/// The halves that show the lines of the new version, in order.
pub open spec fn new_halves(br: Brush, before: Seq<PLineV>, ls: Seq<PLineV>) -> Seq<HalfV>
    decreases ls.len(),
{
    if ls.len() == 0 {
        seq![]
    } else {
        let v = new_halves(br, before, ls.drop_last());
        if ls.last().kind == Kind::Del {
            v
        } else {
            v.push(new_half(br, before + ls.drop_last(), ls.last()))
        }
    }
}

proof fn lemma_sides_add(a: Seq<SRowV>, b: Seq<SRowV>)
    ensures
        lefts(a + b) == lefts(a) + lefts(b),
        rights(a + b) == rights(a) + rights(b),
    decreases b.len(),
{
    if b.len() == 0 {
        assert(a + b =~= a);
        assert(lefts(a) + lefts(b) =~= lefts(a));
        assert(rights(a) + rights(b) =~= rights(a));
    } else {
        lemma_sides_add(a, b.drop_last());
        assert((a + b).drop_last() =~= a + b.drop_last());
        assert(lefts(a + b) =~= lefts(a) + lefts(b));
        assert(rights(a + b) =~= rights(a) + rights(b));
    }
}

proof fn lemma_sides_zip(l: Seq<HalfV>, r: Seq<HalfV>, k: int)
    requires
        0 <= k <= zip_rows(l, r).len(),
    ensures
        lefts(zip_rows(l, r).take(k)) == (if k < l.len() {
            l.take(k)
        } else {
            l
        }),
        rights(zip_rows(l, r).take(k)) == (if k < r.len() {
            r.take(k)
        } else {
            r
        }),
    decreases k,
{
    let z = zip_rows(l, r);
    if k > 0 {
        lemma_sides_zip(l, r, k - 1);
        assert(z.take(k).drop_last() =~= z.take(k - 1));
        assert(z.take(k).last() == z[k - 1]);
        assert(k <= l.len() ==> l.take(k - 1).push(l[k - 1]) =~= l.take(k));
        assert(k <= r.len() ==> r.take(k - 1).push(r[k - 1]) =~= r.take(k));
        assert(k == l.len() ==> l.take(k) =~= l);
        assert(k == r.len() ==> r.take(k) =~= r);
    } else {
        assert(l.take(0) =~= Seq::<HalfV>::empty());
        assert(r.take(0) =~= Seq::<HalfV>::empty());
        assert(l.len() == 0 ==> l =~= Seq::<HalfV>::empty());
        assert(r.len() == 0 ==> r =~= Seq::<HalfV>::empty());
    }
}

proof fn lemma_sides_flushed(p: Pairing)
    ensures
        lefts(flushed(p)) == lefts(p.rows) + p.left,
        rights(flushed(p)) == rights(p.rows) + p.right,
{
    let z = zip_rows(p.left, p.right);
    lemma_sides_zip(p.left, p.right, z.len() as int);
    assert(z.take(z.len() as int) =~= z);
    lemma_sides_add(p.rows, z);
    assert(p.left.take(p.left.len() as int) =~= p.left);
    assert(p.right.take(p.right.len() as int) =~= p.right);
}

proof fn lemma_pairing_sides(br: Brush, before: Seq<PLineV>, ls: Seq<PLineV>)
    ensures
        lefts(pairing(br, before, ls).rows) + pairing(br, before, ls).left == old_halves(
            br,
            before,
            ls,
        ),
        rights(pairing(br, before, ls).rows) + pairing(br, before, ls).right == new_halves(
            br,
            before,
            ls,
        ),
    decreases ls.len(),
{
    let q = pairing(br, before, ls);
    if ls.len() > 0 {
        let p = pairing(br, before, ls.drop_last());
        lemma_pairing_sides(br, before, ls.drop_last());
        lemma_sides_flushed(p);
        if ls.last().kind == Kind::Ctx {
            assert(q.rows.drop_last() =~= flushed(p));
        }
    }
    assert(lefts(q.rows) + q.left =~= old_halves(br, before, ls));
    assert(rights(q.rows) + q.right =~= new_halves(br, before, ls));
}

proof fn lemma_halves_add(br: Brush, a: Seq<PLineV>, b: Seq<PLineV>)
    ensures
        old_halves(br, seq![], a + b) == old_halves(br, seq![], a) + old_halves(br, a, b),
        new_halves(br, seq![], a + b) == new_halves(br, seq![], a) + new_halves(br, a, b),
    decreases b.len(),
{
    if b.len() == 0 {
        assert(a + b =~= a);
        assert(old_halves(br, seq![], a) + old_halves(br, a, b) =~= old_halves(br, seq![], a));
        assert(new_halves(br, seq![], a) + new_halves(br, a, b) =~= new_halves(br, seq![], a));
    } else {
        lemma_halves_add(br, a, b.drop_last());
        assert((a + b).drop_last() =~= a + b.drop_last());
        assert(Seq::<PLineV>::empty() + (a + b.drop_last()) =~= a + b.drop_last());
        assert(old_halves(br, seq![], a + b) =~= old_halves(br, seq![], a) + old_halves(br, a, b));
        assert(new_halves(br, seq![], a + b) =~= new_halves(br, seq![], a) + new_halves(br, a, b));
    }
}

/// Side by side, the left halves from top to bottom are the lines of the old version, and the
/// right halves are those of the new version: each once, in order.
pub proof fn law_sides_in_order(br: Brush, hunks: Seq<PHunkV>)
    ensures
        lefts(layout(br, hunks).sxs) == old_halves(br, seq![], lines_in(hunks)),
        rights(layout(br, hunks).sxs) == new_halves(br, seq![], lines_in(hunks)),
    decreases hunks.len(),
{
    law_one_row_per_line(br, hunks);
    if hunks.len() > 0 {
        let b = layout(br, hunks.drop_last());
        let h = hunks.last();
        law_one_row_per_line(br, hunks.drop_last());
        law_sides_in_order(br, hunks.drop_last());
        let p = pairing(br, b.seen, h.lines);
        let top = b.sxs.push(sxs_header(h.header));
        assert(top.drop_last() =~= b.sxs);
        lemma_sides_add(top, flushed(p));
        lemma_sides_flushed(p);
        lemma_pairing_sides(br, b.seen, h.lines);
        lemma_halves_add(br, b.seen, h.lines);
    }
}

/// Of a long diff no more than `MAX_LINES` lines and one are shown.
pub proof fn law_lines_bounded(diff: Seq<char>)
    ensures
        lines_in(hunks_in(diff)).len() <= MAX_LINES + 1,
{
    let st = scan_lines(scan_start(), lines_of(diff));
    lemma_scan_bounded(scan_start(), lines_of(diff));
    lemma_marks_keep_len(st.hunks);
}

proof fn lemma_with_line(hunks: Seq<PHunkV>, l: PLineV)
    requires
        hunks.len() > 0,
    ensures
        lines_in(with_line(hunks, l)) == lines_in(hunks).push(l),
{
    let v = with_line(hunks, l);
    assert(v.drop_last() =~= hunks.drop_last());
    let head = lines_in(hunks.drop_last());
    assert(head + hunks.last().lines.push(l) =~= (head + hunks.last().lines).push(l));
}

proof fn lemma_scan_bounded(st: Scan, rest: Seq<Seq<char>>)
    requires
        lines_in(st.hunks).len() <= st.count <= MAX_LINES + 1,
    ensures
        lines_in(scan_lines(st, rest).hunks).len() <= scan_lines(st, rest).count <= MAX_LINES + 1,
    decreases rest.len(),
{
    if rest.len() > 0 && st.count <= MAX_LINES {
        let line = rest[0];
        let next = scan_line(st, line);
        assert(lines_in(next.hunks).len() <= next.count <= MAX_LINES + 1) by {
            if st.hunks.len() > 0 && next.hunks.len() == st.hunks.len() {
                if begins(line, "+"@) || begins(line, "-"@) || begins(line, " "@) {
                    lemma_with_line(st.hunks, next.hunks.last().lines.last());
                }
            } else if next.hunks.len() > st.hunks.len() {
                assert(next.hunks.drop_last() =~= st.hunks);
                assert(lines_in(st.hunks) + Seq::<PLineV>::empty() =~= lines_in(st.hunks));
            }
        }
        lemma_scan_bounded(next, rest.skip(1));
    }
}

proof fn lemma_marks_keep_len(hunks: Seq<PHunkV>)
    ensures
        lines_in(all_with_marks(hunks)).len() == lines_in(hunks).len(),
    decreases hunks.len(),
{
    if hunks.len() > 0 {
        lemma_marks_keep_len(hunks.drop_last());
        assert(all_with_marks(hunks).drop_last() =~= all_with_marks(hunks.drop_last()));
    }
}

proof fn lemma_scan_one_line(st: Scan, rest: Seq<Seq<char>>)
    requires
        forall|i: int|
            0 <= i < lines_in(st.hunks).len() ==> one_line(
                (#[trigger] lines_in(st.hunks)[i]).text,
            ),
    ensures
        ({
            let ls = lines_in(scan_lines(st, rest).hunks);
            forall|i: int| 0 <= i < ls.len() ==> one_line((#[trigger] ls[i]).text)
        }),
    decreases rest.len(),
{
    if rest.len() > 0 && st.count <= MAX_LINES {
        let line = rest[0];
        let next = scan_line(st, line);
        let ls = lines_in(next.hunks);
        assert forall|i: int| 0 <= i < ls.len() implies one_line((#[trigger] ls[i]).text) by {
            if st.hunks.len() > 0 && next.hunks.len() == st.hunks.len() {
                if next.hunks != st.hunks {
                    let l = next.hunks.last().lines.last();
                    lemma_with_line(st.hunks, l);
                    law_sanitized_is_clean(line.skip(1));
                    assert(l.text == sanitized(line.skip(1)));
                }
            } else if next.hunks.len() > st.hunks.len() {
                assert(next.hunks.drop_last() =~= st.hunks);
                assert(lines_in(st.hunks) + Seq::<PLineV>::empty() =~= lines_in(st.hunks));
            }
        }
        lemma_scan_one_line(next, rest.skip(1));
    }
}

proof fn lemma_marks_keep_text(hunks: Seq<PHunkV>)
    ensures
        lines_in(all_with_marks(hunks)).len() == lines_in(hunks).len(),
        forall|i: int|
            0 <= i < lines_in(hunks).len() ==> (#[trigger] lines_in(all_with_marks(hunks))[i]).text
                == lines_in(hunks)[i].text,
    decreases hunks.len(),
{
    if hunks.len() > 0 {
        lemma_marks_keep_text(hunks.drop_last());
        assert(all_with_marks(hunks).drop_last() =~= all_with_marks(hunks.drop_last()));
    }
}

/// The text of a line that is shown holds no line feed.
pub proof fn law_lines_are_lines(diff: Seq<char>)
    ensures
        forall|i: int|
            0 <= i < lines_in(hunks_in(diff)).len() ==> one_line(
                (#[trigger] lines_in(hunks_in(diff))[i]).text,
            ),
{
    let st = scan_lines(scan_start(), lines_of(diff));
    lemma_scan_one_line(scan_start(), lines_of(diff));
    lemma_marks_keep_text(st.hunks);
}

/// Whether a brush shows a line that follows the lines `before` in full, on each side that it
/// belongs to.
pub open spec fn shows(br: Brush, before: Seq<PLineV>, l: PLineV) -> bool {
    &&& l.kind != Kind::Add ==> joined(side_segs(br, before, Kind::Add, l)) == l.text
    &&& l.kind != Kind::Del ==> joined(side_segs(br, before, Kind::Del, l)) == l.text
}

/// Whether a brush shows every line in full.
pub open spec fn shows_all(br: Brush, ls: Seq<PLineV>) -> bool {
    forall|i: int| 0 <= i < ls.len() ==> shows(br, ls.take(i), #[trigger] ls[i])
}

/// Whether the highlighter gave back all of a line that follows the lines `before`, on each side
/// that it belongs to.
pub open spec fn colored_whole(br: Brush, before: Seq<PLineV>, l: PLineV) -> bool {
    &&& l.kind != Kind::Add ==> (paint(br, before, Kind::Add, l.text) matches Some(ps) ==>
        pieces_text(ps) == l.text.push('\n'))
    &&& l.kind != Kind::Del ==> (paint(br, before, Kind::Del, l.text) matches Some(ps) ==>
        pieces_text(ps) == l.text.push('\n'))
}

/// Without colors every line is shown in full; with colors, where the highlighter gave back all
/// of every line.
pub proof fn law_lines_shown_in_full(br: Brush, diff: Seq<char>)
    requires
        br.theme is Some ==> forall|i: int|
            0 <= i < lines_in(hunks_in(diff)).len() ==> colored_whole(
                br,
                lines_in(hunks_in(diff)).take(i),
                #[trigger] lines_in(hunks_in(diff))[i],
            ),
    ensures
        shows_all(br, lines_in(hunks_in(diff))),
{
    let ls = lines_in(hunks_in(diff));
    law_lines_are_lines(diff);
    assert forall|i: int| 0 <= i < ls.len() implies shows(br, ls.take(i), #[trigger] ls[i]) by {
        let l = ls[i];
        let emph = if l.kind == Kind::Ctx {
            seq![]
        } else {
            l.emph
        };
        if br.theme is None {
            law_plain_rows_show_text(l.text, emph, backs_of(l.kind));
        } else {
            let full = l.text.push('\n');
            assert(full.take(full.len() as int) =~= full);
            if l.kind != Kind::Add {
                law_colored_rows_show_text(
                    paint(br, ls.take(i), Kind::Add, l.text)->0,
                    l.text,
                    emph,
                    backs_of(l.kind),
                );
            }
            if l.kind != Kind::Del {
                law_colored_rows_show_text(
                    paint(br, ls.take(i), Kind::Del, l.text)->0,
                    l.text,
                    emph,
                    backs_of(l.kind),
                );
            }
        }
    }
}

/// What of a one-column row decides its height: whether it is a header, and its text.
pub open spec fn uni_text(r: URowV) -> (bool, Seq<char>) {
    (r.is_hunk, joined(r.segs))
}

/// The text of one side of a row.
pub open spec fn half_text(h: Option<HalfV>) -> Option<Seq<char>> {
    match h {
        Some(h) => Some(joined(h.segs)),
        None => None,
    }
}

/// What of a side-by-side row decides its height: whether it is a header, and its texts.
pub open spec fn sxs_text(r: SRowV) -> (bool, Option<Seq<char>>, Option<Seq<char>>) {
    (r.header is Some, half_text(r.left), half_text(r.right))
}

/// Whether two sequences of halves show the same texts.
spec fn same_halves(a: Seq<HalfV>, b: Seq<HalfV>) -> bool {
    a.len() == b.len() && forall|i: int|
        0 <= i < a.len() ==> joined((#[trigger] a[i]).segs) == joined(b[i].segs)
}

/// Whether two sequences of one-column rows show the same texts.
pub open spec fn same_uni(a: Seq<URowV>, b: Seq<URowV>) -> bool {
    a.len() == b.len() && forall|i: int|
        0 <= i < a.len() ==> uni_text(#[trigger] a[i]) == uni_text(b[i])
}

/// Whether two sequences of side-by-side rows show the same texts.
pub open spec fn same_sxs(a: Seq<SRowV>, b: Seq<SRowV>) -> bool {
    a.len() == b.len() && forall|i: int|
        0 <= i < a.len() ==> sxs_text(#[trigger] a[i]) == sxs_text(b[i])
}

proof fn lemma_same_lines(a: Brush, b: Brush, before: Seq<PLineV>, ls: Seq<PLineV>)
    requires
        shows_all(a, before + ls),
        shows_all(b, before + ls),
    ensures
        same_uni(uni_rows(a, before, ls), uni_rows(b, before, ls)),
        same_sxs(pairing(a, before, ls).rows, pairing(b, before, ls).rows),
        same_halves(pairing(a, before, ls).left, pairing(b, before, ls).left),
        same_halves(pairing(a, before, ls).right, pairing(b, before, ls).right),
        same_sxs(flushed(pairing(a, before, ls)), flushed(pairing(b, before, ls))),
    decreases ls.len(),
{
    if ls.len() > 0 {
        let head = ls.drop_last();
        let all = before + ls;
        let k = all.len() - 1;
        assert(before + head =~= all.drop_last());
        assert(shows_all(a, before + head)) by {
            assert forall|i: int| 0 <= i < (before + head).len() implies shows(
                a,
                (before + head).take(i),
                #[trigger] (before + head)[i],
            ) by {
                assert((before + head).take(i) =~= all.take(i));
                assert(shows(a, all.take(i), all[i]));
            }
        }
        assert(shows_all(b, before + head)) by {
            assert forall|i: int| 0 <= i < (before + head).len() implies shows(
                b,
                (before + head).take(i),
                #[trigger] (before + head)[i],
            ) by {
                assert((before + head).take(i) =~= all.take(i));
                assert(shows(b, all.take(i), all[i]));
            }
        }
        lemma_same_lines(a, b, before, head);
        assert(all.take(k) =~= before + head);
        assert(shows(a, all.take(k), all[k]));
        assert(shows(b, all.take(k), all[k]));
        assert(all[k] == ls.last());
    }
}

/// Two brushes that show every line in full give documents of one shape: the same rows with the
/// same texts, and the same hunk starts.
pub proof fn law_colors_keep_shape(a: Brush, b: Brush, hunks: Seq<PHunkV>)
    requires
        shows_all(a, lines_in(hunks)),
        shows_all(b, lines_in(hunks)),
    ensures
        same_uni(layout(a, hunks).unified, layout(b, hunks).unified),
        same_sxs(layout(a, hunks).sxs, layout(b, hunks).sxs),
        layout(a, hunks).hunks_u == layout(b, hunks).hunks_u,
        layout(a, hunks).hunks_s == layout(b, hunks).hunks_s,
        layout(a, hunks).seen == layout(b, hunks).seen,
    decreases hunks.len(),
{
    if hunks.len() > 0 {
        let head = hunks.drop_last();
        let all = lines_in(hunks);
        law_one_row_per_line(a, head);
        law_one_row_per_line(b, head);
        let seen = lines_in(head);
        assert forall|i: int| 0 <= i < seen.len() implies shows(a, seen.take(i), #[trigger] seen[i])
            && shows(b, seen.take(i), seen[i]) by {
            assert(seen.take(i) =~= all.take(i));
            assert(shows(a, all.take(i), all[i]));
            assert(shows(b, all.take(i), all[i]));
        }
        law_colors_keep_shape(a, b, head);
        lemma_same_lines(a, b, seen, hunks.last().lines);
    }
}

} // verus!
