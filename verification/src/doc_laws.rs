//! What the rows of a document show of a diff.

use crate::bytes::{byte_len, lemma_more_bytes};
use crate::diffview::{
    chunks_of, cut_chunk, cut_chunks, doc_note, emphasised, first_added, flushed, law_hunk_starts,
    law_one_row_per_line, law_sides_in_order, layout, lefts, line_to_open, lines_in, new_half,
    new_halves, next_cut, old_half, old_halves, pairing, piece_end, rights, shows, shows_all,
    styled, uni_header, uni_row, uni_rows, zip_rows, Backs, Brush, SRowV,
};
use crate::parse::{Kind, PHunkV, PLineV};
use crate::style::{hex, joined, plain, Color, SegV, Style};
use crate::text::decimal;
use vstd::prelude::*;

verus! {

/// Whether lines have the numbers that they can have: an added line no old one, a removed line no
/// new one.
pub open spec fn numbered(ls: Seq<PLineV>) -> bool {
    forall|i: int|
        0 <= i < ls.len() ==> {
            &&& (#[trigger] ls[i]).kind == Kind::Add <==> ls[i].old_no is None
            &&& ls[i].kind == Kind::Del <==> ls[i].new_no is None
        }
}

/// The background of a line: green where it was added, red where it was removed, none else.
pub open spec fn ground(kind: Kind) -> Option<Color> {
    match kind {
        Kind::Ctx => None,
        Kind::Add => Some(hex(0x123a1c)),
        Kind::Del => Some(hex(0x461c1c)),
    }
}

// ---- One column ------------------------------------------------------------------

proof fn lemma_uni_rows_at(br: Brush, before: Seq<PLineV>, ls: Seq<PLineV>, k: int)
    requires
        0 <= k < ls.len(),
    ensures
        uni_rows(br, before, ls).len() == ls.len(),
        uni_rows(br, before, ls)[k] == uni_row(br, before + ls.take(k), ls[k]),
    decreases ls.len(),
{
    let h = ls.drop_last();
    if k < h.len() {
        lemma_uni_rows_at(br, before, h, k);
        assert(h.take(k) =~= ls.take(k));
    } else {
        if h.len() > 0 {
            lemma_uni_rows_at(br, before, h, 0);
        }
        assert(h =~= ls.take(k));
    }
}

proof fn lemma_lines_at(hunks: Seq<PHunkV>, i: int, k: int) -> (at: int)
    requires
        0 <= i < hunks.len(),
        0 <= k < hunks[i].lines.len(),
    ensures
        at == lines_in(hunks.take(i)).len() + k,
        0 <= at < lines_in(hunks).len(),
        lines_in(hunks)[at] == hunks[i].lines[k],
        lines_in(hunks).take(at) == lines_in(hunks.take(i)) + hunks[i].lines.take(k),
    decreases hunks.len(),
{
    let h = hunks.drop_last();
    let all = lines_in(hunks);
    if i < h.len() {
        let at = lemma_lines_at(h, i, k);
        assert(h.take(i) =~= hunks.take(i));
        assert(all.take(at) =~= lines_in(h).take(at));
        at
    } else {
        assert(h =~= hunks.take(i));
        let at = lines_in(h).len() + k;
        assert(all.take(at) =~= lines_in(h) + hunks[i].lines.take(k));
        at
    }
}

proof fn lemma_unified_at(br: Brush, hunks: Seq<PHunkV>, i: int, k: int)
    requires
        0 <= i < hunks.len(),
        0 <= k < hunks[i].lines.len(),
        layout(br, hunks).unified.len() <= usize::MAX,
    ensures
        ({
            let a = layout(br, hunks);
            let at = a.hunks_u[i] + 1 + k;
            &&& i < a.hunks_u.len()
            &&& at < a.unified.len()
            &&& a.unified[at] == uni_row(
                br,
                lines_in(hunks.take(i)) + hunks[i].lines.take(k),
                hunks[i].lines[k],
            )
        }),
    decreases hunks.len(),
{
    let h = hunks.drop_last();
    let b = layout(br, h);
    let a = layout(br, hunks);
    law_one_row_per_line(br, h);
    law_one_row_per_line(br, hunks);
    lemma_starts_len(br, h);
    if i < h.len() {
        lemma_unified_at(br, h, i, k);
        assert(h.take(i) =~= hunks.take(i));
        assert(a.hunks_u[i] == b.hunks_u[i]);
        assert(a.unified[b.hunks_u[i] + 1 + k] == b.unified[b.hunks_u[i] + 1 + k]);
    } else {
        assert(h =~= hunks.take(i));
        lemma_uni_rows_at(br, b.seen, hunks[i].lines, k);
        assert(a.hunks_u[i] == b.unified.len());
    }
}

proof fn lemma_starts_len(br: Brush, hunks: Seq<PHunkV>)
    ensures
        layout(br, hunks).hunks_u.len() == hunks.len(),
    decreases hunks.len(),
{
    if hunks.len() > 0 {
        lemma_starts_len(br, hunks.drop_last());
    }
}

/// In one column, the rows behind the header of a hunk are its lines, in order: each with its old
/// and its new number, where it has them, on the ground of its kind, and with its whole text where
/// the text is shown in full.
pub proof fn law_unified_rows(br: Brush, hunks: Seq<PHunkV>, i: int, k: int)
    requires
        0 <= i < hunks.len(),
        0 <= k < hunks[i].lines.len(),
        numbered(hunks[i].lines),
        layout(br, hunks).unified.len() <= usize::MAX,
    ensures
        ({
            let a = layout(br, hunks);
            let at = a.hunks_u[i] + 1 + k;
            let l = hunks[i].lines[k];
            &&& at < a.unified.len()
            &&& a.unified[at].old_no == l.old_no
            &&& a.unified[at].new_no == l.new_no
            &&& a.unified[at].bg == ground(l.kind)
            &&& !a.unified[at].is_hunk
            &&& shows_all(br, lines_in(hunks)) ==> joined(a.unified[at].segs) == l.text
        }),
{
    lemma_unified_at(br, hunks, i, k);
    let at = lemma_lines_at(hunks, i, k);
    if shows_all(br, lines_in(hunks)) {
        assert(shows(br, lines_in(hunks).take(at), lines_in(hunks)[at]));
    }
}

/// The header row of a hunk shows its header, in both views.
pub proof fn law_header_rows(br: Brush, hunks: Seq<PHunkV>, i: int)
    requires
        0 <= i < hunks.len(),
        layout(br, hunks).unified.len() <= usize::MAX,
        layout(br, hunks).sxs.len() <= usize::MAX,
    ensures
        ({
            let a = layout(br, hunks);
            let u = a.unified[a.hunks_u[i] as int];
            let s = a.sxs[a.hunks_s[i] as int];
            &&& u.is_hunk && joined(u.segs) == hunks[i].header && u.old_no is None && u.new_no
                is None
            &&& s.header == Some(hunks[i].header) && s.left is None && s.right is None
        }),
{
    law_hunk_starts(br, hunks);
    let a = layout(br, hunks);
    assert(a.hunks_u[i] < a.unified.len());
    assert(a.hunks_s[i] < a.sxs.len());
    let u = uni_header(hunks[i].header);
    reveal_with_fuel(joined, 2);
    assert(u.segs.drop_last() =~= Seq::<SegV>::empty());
    assert(joined(u.segs) =~= hunks[i].header);
}

// ---- Side by side ----------------------------------------------------------------

proof fn lemma_halves_at(br: Brush, ls: Seq<PLineV>)
    requires
        numbered(ls),
    ensures
        ({
            let olds = ls.filter(|l: PLineV| l.kind != Kind::Add);
            let news = ls.filter(|l: PLineV| l.kind != Kind::Del);
            let l = old_halves(br, seq![], ls);
            let r = new_halves(br, seq![], ls);
            &&& l.len() == olds.len()
            &&& r.len() == news.len()
            &&& forall|i: int|
                0 <= i < l.len() ==> {
                    &&& olds[i].old_no == Some((#[trigger] l[i]).no)
                    &&& l[i].bg == ground(olds[i].kind)
                    &&& shows_all(br, ls) ==> joined(l[i].segs) == olds[i].text
                }
            &&& forall|i: int|
                0 <= i < r.len() ==> {
                    &&& news[i].new_no == Some((#[trigger] r[i]).no)
                    &&& r[i].bg == ground(news[i].kind)
                    &&& shows_all(br, ls) ==> joined(r[i].segs) == news[i].text
                }
        }),
    decreases ls.len(),
{
    reveal(Seq::filter);
    if ls.len() > 0 {
        let h = ls.drop_last();
        let x = ls.last();
        assert forall|i: int| 0 <= i < h.len() implies #[trigger] h[i] == ls[i] by {}
        lemma_halves_at(br, h);
        assert(ls[ls.len() - 1] == x);
        assert(Seq::<PLineV>::empty() + h =~= h);
        assert(ls.take(ls.len() - 1) =~= h);
        if shows_all(br, ls) {
            assert(shows_all(br, h)) by {
                assert forall|i: int| 0 <= i < h.len() implies shows(
                    br,
                    h.take(i),
                    #[trigger] h[i],
                ) by {
                    assert(h.take(i) =~= ls.take(i));
                    assert(shows(br, ls.take(i), ls[i]));
                }
            }
            assert(shows(br, ls.take(ls.len() - 1), ls[ls.len() - 1]));
        }
    }
}

/// Side by side, the left halves from top to bottom are the lines of the old version, all but the
/// added ones, each with its old number and its text; the right halves are those of the new
/// version, all but the removed ones, each with its new number and its text.
pub proof fn law_side_rows(br: Brush, hunks: Seq<PHunkV>)
    requires
        numbered(lines_in(hunks)),
    ensures
        ({
            let ls = lines_in(hunks);
            let olds = ls.filter(|l: PLineV| l.kind != Kind::Add);
            let news = ls.filter(|l: PLineV| l.kind != Kind::Del);
            let l = lefts(layout(br, hunks).sxs);
            let r = rights(layout(br, hunks).sxs);
            &&& l.len() == olds.len()
            &&& r.len() == news.len()
            &&& forall|i: int|
                0 <= i < l.len() ==> {
                    &&& olds[i].old_no == Some((#[trigger] l[i]).no)
                    &&& l[i].bg == ground(olds[i].kind)
                    &&& shows_all(br, ls) ==> joined(l[i].segs) == olds[i].text
                }
            &&& forall|i: int|
                0 <= i < r.len() ==> {
                    &&& news[i].new_no == Some((#[trigger] r[i]).no)
                    &&& r[i].bg == ground(news[i].kind)
                    &&& shows_all(br, ls) ==> joined(r[i].segs) == news[i].text
                }
        }),
{
    law_sides_in_order(br, hunks);
    lemma_halves_at(br, lines_in(hunks));
}

proof fn lemma_run(br: Brush, before: Seq<PLineV>, ls: Seq<PLineV>, n: int)
    requires
        0 <= n <= ls.len(),
        forall|i: int| 0 <= i < n ==> (#[trigger] ls[i]).kind == Kind::Del,
        forall|i: int| n <= i < ls.len() ==> (#[trigger] ls[i]).kind == Kind::Add,
    ensures
        ({
            let p = pairing(br, before, ls);
            &&& p.rows.len() == 0
            &&& p.left.len() == n
            &&& p.right.len() == ls.len() - n
            &&& forall|i: int|
                0 <= i < n ==> #[trigger] p.left[i] == old_half(br, before + ls.take(i), ls[i])
            &&& forall|i: int|
                0 <= i < ls.len() - n ==> #[trigger] p.right[i] == new_half(
                    br,
                    before + ls.take(n + i),
                    ls[n + i],
                )
        }),
    decreases ls.len(),
{
    if ls.len() > 0 {
        let h = ls.drop_last();
        let m = if n < ls.len() {
            n
        } else {
            n - 1
        };
        assert forall|i: int| 0 <= i < h.len() implies #[trigger] h[i] == ls[i] by {}
        lemma_run(br, before, h, m);
        assert forall|i: int| 0 <= i <= h.len() implies #[trigger] h.take(i) == ls.take(i) by {
            assert(h.take(i) =~= ls.take(i));
        }
        assert(h.take(h.len() as int) =~= h);
        assert(ls[ls.len() - 1] == ls.last());
    }
}

/// Removed lines and the added lines that follow them stand side by side in order: the first with
/// the first, and so on; what is left over stands alone. A line that is in both versions has a row
/// of its own, in which it is on both sides, behind all rows of the lines before it.
pub proof fn law_runs_side_by_side(
    br: Brush,
    before: Seq<PLineV>,
    dels: Seq<PLineV>,
    adds: Seq<PLineV>,
    ctx: PLineV,
)
    requires
        numbered(dels),
        numbered(adds),
        numbered(seq![ctx]),
        forall|i: int| 0 <= i < dels.len() ==> (#[trigger] dels[i]).kind == Kind::Del,
        forall|i: int| 0 <= i < adds.len() ==> (#[trigger] adds[i]).kind == Kind::Add,
        ctx.kind == Kind::Ctx,
    ensures
        ({
            let rows = flushed(pairing(br, before, dels + adds));
            let more = flushed(pairing(br, before, (dels + adds).push(ctx)));
            &&& rows.len() == if dels.len() > adds.len() {
                dels.len()
            } else {
                adds.len()
            }
            &&& forall|k: int|
                0 <= k < rows.len() ==> {
                    &&& (#[trigger] rows[k]).left is Some <==> k < dels.len()
                    &&& rows[k].right is Some <==> k < adds.len()
                    &&& k < dels.len() ==> dels[k].old_no == Some(rows[k].left->0.no)
                    &&& k < adds.len() ==> adds[k].new_no == Some(rows[k].right->0.no)
                }
            &&& more.len() == rows.len() + 1
            &&& more.drop_last() == rows
            &&& more.last().left is Some && ctx.old_no == Some(more.last().left->0.no)
            &&& more.last().right is Some && ctx.new_no == Some(more.last().right->0.no)
        }),
{
    let ls = dels + adds;
    let n = dels.len() as int;
    assert forall|i: int| 0 <= i < n implies (#[trigger] ls[i]).kind == Kind::Del by {
        assert(ls[i] == dels[i]);
    }
    assert forall|i: int| n <= i < ls.len() implies (#[trigger] ls[i]).kind == Kind::Add by {
        assert(ls[i] == adds[i - n]);
    }
    lemma_run(br, before, ls, n);
    let p = pairing(br, before, ls);
    let rows = flushed(p);
    let z = zip_rows(p.left, p.right);
    assert(rows =~= z);
    assert forall|k: int| 0 <= k < rows.len() implies {
        &&& (#[trigger] rows[k]).left is Some <==> k < dels.len()
        &&& rows[k].right is Some <==> k < adds.len()
        &&& k < dels.len() ==> dels[k].old_no == Some(rows[k].left->0.no)
        &&& k < adds.len() ==> adds[k].new_no == Some(rows[k].right->0.no)
    } by {
        if k < dels.len() {
            assert(p.left[k] == old_half(br, before + ls.take(k), ls[k]));
            assert(dels[k].kind == Kind::Del);
            assert(ls[k] == dels[k]);
        }
        if k < adds.len() {
            assert(p.right[k] == new_half(br, before + ls.take(n + k), ls[n + k]));
            assert(adds[k].kind == Kind::Add);
            assert(ls[n + k] == adds[k]);
        }
    }
    let all = ls.push(ctx);
    assert(all.drop_last() =~= ls);
    assert(seq![ctx][0] == ctx);
    let q = pairing(br, before, all);
    let more = flushed(q);
    assert(zip_rows(q.left, q.right) =~= Seq::<SRowV>::empty());
    assert(more =~= q.rows);
    assert(more.drop_last() =~= rows);
}

// ---- Where to open a file, and notes ---------------------------------------------

proof fn lemma_first_added(ls: Seq<PLineV>, i: int)
    requires
        numbered(ls),
    ensures
        0 <= i < ls.len() && ls[i].kind == Kind::Add && (forall|j: int|
            0 <= j < i ==> (#[trigger] ls[j]).kind != Kind::Add) ==> first_added(ls)
            == ls[i].new_no,
        (forall|j: int| 0 <= j < ls.len() ==> (#[trigger] ls[j]).kind != Kind::Add) ==> first_added(
            ls,
        ) is None,
    decreases ls.len(),
{
    if ls.len() > 0 {
        let h = ls.drop_last();
        assert forall|j: int| 0 <= j < h.len() implies #[trigger] h[j] == ls[j] by {}
        lemma_first_added(h, i);
        lemma_first_added(h, 0);
        assert(ls[ls.len() - 1] == ls.last());
    }
}

/// A file is opened at its first added line; where nothing was added, at the line at which the
/// first hunk begins.
pub proof fn law_line_to_open(hunks: Seq<PHunkV>, i: int)
    requires
        numbered(lines_in(hunks)),
    ensures
        ({
            let ls = lines_in(hunks);
            &&& 0 <= i < ls.len() && ls[i].kind == Kind::Add && (forall|j: int|
                0 <= j < i ==> (#[trigger] ls[j]).kind != Kind::Add) ==> line_to_open(hunks, ls)
                == ls[i].new_no
            &&& (forall|j: int| 0 <= j < ls.len() ==> (#[trigger] ls[j]).kind != Kind::Add)
                && hunks.len() > 0 && hunks[0].lines.len() > 0 ==> line_to_open(hunks, ls)
                == hunks[0].lines[0].new_no
            &&& hunks.len() == 0 ==> line_to_open(hunks, ls) is None
        }),
{
    let ls = lines_in(hunks);
    lemma_first_added(ls, i);
    if 0 <= i < ls.len() && ls[i].kind == Kind::Add {
        assert(ls[i].new_no is Some);
    }
}

/// A document has a note exactly where it is of a binary file, without a hunk, too long, or not
/// colored for good; the note says so.
pub proof fn law_notes(binary: bool, hunks: nat, total: nat, off: bool)
    ensures
        doc_note(binary, hunks, total, off) is None <==> !binary && hunks > 0 && total <= 4000
            && !off,
        binary ==> doc_note(binary, hunks, total, off) == Some("binary file (no diff)"@),
        !binary && hunks == 0 ==> doc_note(binary, hunks, total, off) == Some("no diff"@),
        !binary && hunks > 0 && total <= 4000 && off ==> doc_note(binary, hunks, total, off)
            == Some("syntax off (large diff)"@),
        !binary && hunks > 0 && total > 4000 && !off ==> doc_note(binary, hunks, total, off)
            == Some("… truncated after "@ + decimal(4000) + " lines"@),
        !binary && hunks > 0 && total > 4000 && off ==> doc_note(binary, hunks, total, off)
            == Some(
            "… truncated after "@ + decimal(4000) + " lines · syntax off (large diff)"@,
        ),
{
}

// ---- Emphasis --------------------------------------------------------------------

/// Which characters of pieces are bold.
pub open spec fn bolds(segs: Seq<SegV>) -> Seq<bool>
    decreases segs.len(),
{
    if segs.len() == 0 {
        seq![]
    } else {
        Seq::new(segs[0].text.len(), |i: int| segs[0].style.bold) + bolds(segs.skip(1))
    }
}

/// The grounds of the characters of pieces.
pub open spec fn grounds(segs: Seq<SegV>) -> Seq<Option<Color>>
    decreases segs.len(),
{
    if segs.len() == 0 {
        seq![]
    } else {
        Seq::new(segs[0].text.len(), |i: int| segs[0].style.bg) + grounds(segs.skip(1))
    }
}

/// Whether the ends of marked ranges are between characters.
pub open spec fn between_characters(text: Seq<char>, offset: int, emph: Seq<(usize, usize)>) -> bool {
    forall|m: int, k: int|
        0 <= m < emph.len() && 0 <= k < text.len() ==> {
            let a = offset + #[trigger] byte_len(text.take(k));
            let b = offset + byte_len(text.take(k + 1));
            &&& !(a < (#[trigger] emph[m]).0 < b)
            &&& !(a < emph[m].1 < b)
        }
}

proof fn lemma_no_cut_before(emph: Seq<(usize, usize)>, at: int, limit: int, m: int)
    requires
        0 <= m < emph.len(),
        at < limit,
    ensures
        emph[m].0 <= at || emph[m].0 >= next_cut(emph, at, limit),
        emph[m].1 <= at || emph[m].1 >= next_cut(emph, at, limit),
        next_cut(emph, at, limit) <= limit,
    decreases emph.len(),
{
    let h = emph.drop_last();
    lemma_cut_limit(h, at, limit);
    if m < h.len() {
        lemma_no_cut_before(h, at, limit, m);
        assert(h[m] == emph[m]);
    }
}

proof fn lemma_cut_limit(emph: Seq<(usize, usize)>, at: int, limit: int)
    requires
        at < limit,
    ensures
        at < next_cut(emph, at, limit) <= limit,
    decreases emph.len(),
{
    if emph.len() > 0 {
        lemma_cut_limit(emph.drop_last(), at, limit);
    }
}

proof fn lemma_same_emphasis(
    chunk: Seq<char>,
    offset: int,
    pos: int,
    k: int,
    emph: Seq<(usize, usize)>,
)
    requires
        0 <= pos <= k < piece_end(chunk, offset, pos, emph),
        pos < chunk.len(),
        piece_end(chunk, offset, pos, emph) <= chunk.len(),
        between_characters(chunk, offset, emph),
    ensures
        emphasised(emph, offset + byte_len(chunk.take(k))) == emphasised(
            emph,
            offset + byte_len(chunk.take(pos)),
        ),
{
    let at = offset + byte_len(chunk.take(pos));
    let here = offset + byte_len(chunk.take(k));
    let limit = offset + byte_len(chunk);
    let cut = next_cut(emph, at, limit);
    lemma_more_bytes(chunk, pos, chunk.len() as int);
    lemma_more_bytes(chunk, pos, k);
    assert(chunk.take(chunk.len() as int) =~= chunk);
    assert(here < cut) by {
        reveal(piece_end);
        lemma_reach_after(chunk, cut - offset, k);
    }
    assert forall|m: int| 0 <= m < emph.len() implies (emph[m].0 <= here < emph[m].1) == ((
    #[trigger] emph[m]).0 <= at < emph[m].1) by {
        lemma_no_cut_before(emph, at, limit, m);
    }
    if emphasised(emph, here) {
        let m = choose|m: int| 0 <= m < emph.len() && (#[trigger] emph[m]).0 <= here < emph[m].1;
        assert(emph[m].0 <= at < emph[m].1);
    }
    if emphasised(emph, at) {
        let m = choose|m: int| 0 <= m < emph.len() && (#[trigger] emph[m]).0 <= at < emph[m].1;
        assert(emph[m].0 <= here < emph[m].1);
    }
}

/// Fewer characters than reach `n` bytes take fewer.
proof fn lemma_reach_after(s: Seq<char>, n: int, k: int)
    requires
        0 <= k < crate::bytes::chars_reaching(s, n),
        k < s.len(),
    ensures
        byte_len(s.take(k)) < n,
    decreases s.len(),
{
    if byte_len(s.drop_last()) < n {
        lemma_more_bytes(s, k, s.len() - 1);
        assert(s.take(s.len() - 1) =~= s.drop_last());
    } else {
        lemma_reach_len(s.drop_last(), n);
        lemma_reach_after(s.drop_last(), n, k);
        assert(s.drop_last().take(k) =~= s.take(k));
    }
}

proof fn lemma_reach_len(s: Seq<char>, n: int)
    ensures
        crate::bytes::chars_reaching(s, n) <= s.len(),
    decreases s.len(),
{
    if s.len() > 0 && byte_len(s.drop_last()) >= n {
        lemma_reach_len(s.drop_last(), n);
    }
}

proof fn lemma_end_in_chunk(chunk: Seq<char>, offset: int, pos: int, emph: Seq<(usize, usize)>)
    requires
        0 <= pos < chunk.len(),
    ensures
        pos < piece_end(chunk, offset, pos, emph) <= chunk.len(),
{
    reveal(piece_end);
    let at = offset + byte_len(chunk.take(pos));
    let limit = offset + byte_len(chunk);
    lemma_more_bytes(chunk, pos, chunk.len() as int);
    assert(chunk.take(chunk.len() as int) =~= chunk);
    lemma_cut_limit(emph, at, limit);
    let n = next_cut(emph, at, limit) - offset;
    lemma_reach_len(chunk, n);
    crate::bytes::lemma_reaching(chunk, n);
    let k = crate::bytes::chars_reaching(chunk, n) as int;
    if k <= pos {
        lemma_more_bytes(chunk, k, pos);
    }
}

proof fn lemma_chunk_bolds(
    chunk: Seq<char>,
    offset: int,
    pos: int,
    style: Style,
    emph: Seq<(usize, usize)>,
    backs: Backs,
)
    requires
        0 <= pos <= chunk.len(),
        !style.bold,
        style.bg is None,
        between_characters(chunk, offset, emph),
    ensures
        ({
            let segs = cut_chunk(chunk, offset, pos, style, emph, backs);
            &&& bolds(segs).len() == chunk.len() - pos
            &&& grounds(segs).len() == chunk.len() - pos
            &&& forall|k: int|
                pos <= k < chunk.len() ==> #[trigger] bolds(segs)[k - pos] == emphasised(
                    emph,
                    offset + byte_len(chunk.take(k)),
                )
            &&& forall|k: int|
                pos <= k < chunk.len() ==> #[trigger] grounds(segs)[k - pos] == if emphasised(
                    emph,
                    offset + byte_len(chunk.take(k)),
                ) {
                    backs.emph
                } else {
                    backs.base
                }
        }),
    decreases chunk.len() - pos,
{
    let segs = cut_chunk(chunk, offset, pos, style, emph, backs);
    if pos < chunk.len() {
        let end = piece_end(chunk, offset, pos, emph);
        lemma_end_in_chunk(chunk, offset, pos, emph);
        lemma_chunk_bolds(chunk, offset, end, style, emph, backs);
        let rest = cut_chunk(chunk, offset, end, style, emph, backs);
        assert(segs.skip(1) =~= rest);
        assert forall|k: int| pos <= k < chunk.len() implies #[trigger] bolds(segs)[k - pos]
            == emphasised(emph, offset + byte_len(chunk.take(k))) by {
            if k < end {
                lemma_same_emphasis(chunk, offset, pos, k, emph);
            } else {
                assert(bolds(segs)[k - pos] == bolds(rest)[k - end]);
            }
        }
        assert forall|k: int| pos <= k < chunk.len() implies #[trigger] grounds(segs)[k - pos]
            == if emphasised(emph, offset + byte_len(chunk.take(k))) {
            backs.emph
        } else {
            backs.base
        } by {
            if k < end {
                lemma_same_emphasis(chunk, offset, pos, k, emph);
            } else {
                assert(grounds(segs)[k - pos] == grounds(rest)[k - end]);
            }
        }
    }
}

/// Of a line that is not colored exactly the characters in the marked ranges are bold and on the
/// ground for emphasis; all others are on the ground of the line.
pub proof fn law_marked_is_emphasised(
    text: Seq<char>,
    emph: Seq<(usize, usize)>,
    backs: Backs,
    k: int,
)
    requires
        0 <= k < text.len(),
        between_characters(text, 0, emph),
    ensures
        ({
            let segs = styled(None, text, emph, backs);
            let at = byte_len(text.take(k));
            let marked = exists|m: int|
                0 <= m < emph.len() && (#[trigger] emph[m]).0 <= at < emph[m].1;
            &&& bolds(segs).len() == text.len()
            &&& bolds(segs)[k] == marked
            &&& grounds(segs).len() == text.len()
            &&& grounds(segs)[k] == if marked {
                backs.emph
            } else {
                backs.base
            }
        }),
{
    reveal(styled);
    let cs = chunks_of(None, text);
    let segs = cut_chunk(text, 0, 0, plain(), emph, backs);
    reveal_with_fuel(cut_chunks, 2);
    assert(cs.skip(1) =~= Seq::<(Style, Seq<char>)>::empty());
    assert(cut_chunks(cs, 0, emph, backs) =~= segs);
    lemma_chunk_bolds(text, 0, 0, plain(), emph, backs);
    if segs.len() == 0 {
        assert(bolds(segs).len() == 0);
    }
    assert(bolds(segs)[k - 0] == emphasised(emph, 0 + byte_len(text.take(k)) as int));
    assert(grounds(segs)[k - 0] == if emphasised(emph, 0 + byte_len(text.take(k)) as int) {
        backs.emph
    } else {
        backs.base
    });
}

} // verus!
