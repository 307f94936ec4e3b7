//! Fitting styled text into columns: clipping, wrapping, padding, and the table from rows to
//! screen lines.

use crate::diffview::{
    colored_whole, doc_of, half_view, hunks_in, law_colors_keep_shape, law_lines_shown_in_full,
    layout, lines_in, srows, sxs_text, uni_text, urows, Brush, Half, HalfV, SRow, SRowV, URow,
    URowV,
};
use crate::style::{joined, lemma_joined_add, segs_view, Color, Seg, SegV, Style};
use crate::text::{blanks, capped, chars_of, spaces, string_of};
use crate::width::{cell, cell_width, str_columns, str_width};
use vstd::prelude::*;
use vstd::string::*;

verus! {

// ---- Wrapping --------------------------------------------------------------------

/// The values of the lines of a text.
pub open spec fn lines_view(v: Seq<Vec<Seg>>) -> Seq<Seq<SegV>> {
    v.map_values(|l: Vec<Seg>| segs_view(l@))
}

/// Text on its way into lines: the finished lines, the line at hand, and the columns used in it.
#[verifier::ext_equal]
pub struct Wrap {
    pub lines: Seq<Seq<SegV>>,
    pub cur: Seq<SegV>,
    pub used: nat,
}

/// Nothing wrapped yet.
pub open spec fn unwrapped() -> Wrap {
    Wrap { lines: seq![], cur: seq![], used: 0 }
}

/// Whether a character needs a new line: the line at hand holds something and has no room.
pub open spec fn breaks(used: nat, c: char, avail: nat) -> bool {
    used > 0 && used + cell(c) > avail
}

/// Put one character of a piece on the line at hand, or on a new one. The first character of a
/// piece starts a new piece of the line; so does the first one on a line.
pub open spec fn put(w: Wrap, style: Style, c: char, first: bool, avail: nat) -> Wrap {
    if breaks(w.used, c, avail) {
        Wrap {
            lines: w.lines.push(w.cur),
            cur: seq![SegV { style, text: seq![c] }],
            used: cell(c),
        }
    } else if first {
        Wrap { cur: w.cur.push(SegV { style, text: seq![c] }), used: w.used + cell(c), ..w }
    } else {
        Wrap {
            cur: w.cur.drop_last().push(SegV { style, text: w.cur.last().text.push(c) }),
            used: w.used + cell(c),
            ..w
        }
    }
}

/// Put the first `k` characters of a piece.
pub open spec fn put_chars(w: Wrap, seg: SegV, k: int, avail: nat) -> Wrap
    decreases k,
{
    if k <= 0 {
        w
    } else {
        put(put_chars(w, seg, k - 1, avail), seg.style, seg.text[k - 1], k == 1, avail)
    }
}

/// Put all pieces.
pub open spec fn put_segs(segs: Seq<SegV>, avail: nat) -> Wrap
    decreases segs.len(),
{
    if segs.len() == 0 {
        unwrapped()
    } else {
        put_chars(
            put_segs(segs.drop_last(), avail),
            segs.last(),
            segs.last().text.len() as int,
            avail,
        )
    }
}

/// The width to wrap at: at least one column.
pub open spec fn room(avail: nat) -> nat {
    if avail == 0 {
        1
    } else {
        avail
    }
}

/// All lines of wrapped text; at least one.
pub open spec fn wrapped(segs: Seq<SegV>, avail: nat) -> Seq<Seq<SegV>> {
    let w = put_segs(segs, room(avail));
    w.lines.push(w.cur)
}

/// At most `max` elements of `s`, after the first `skip`.
pub open spec fn window<T>(s: Seq<T>, skip: nat, max: nat) -> Seq<T> {
    let t = if skip > s.len() {
        seq![]
    } else {
        s.skip(skip as int)
    };
    if t.len() <= max {
        t
    } else {
        t.take(max as int)
    }
}

proof fn lemma_put_chars_keeps(w: Wrap, seg: SegV, j: int, k: int, avail: nat)
    requires
        0 <= j <= k <= seg.text.len(),
    ensures
        put_chars(w, seg, j, avail).lines.is_prefix_of(put_chars(w, seg, k, avail).lines),
    decreases k,
{
    if j < k {
        lemma_put_chars_keeps(w, seg, j, k - 1, avail);
    }
}

proof fn lemma_put_segs_keeps(segs: Seq<SegV>, j: int, avail: nat)
    requires
        0 <= j <= segs.len(),
    ensures
        put_segs(segs.take(j), avail).lines.is_prefix_of(put_segs(segs, avail).lines),
    decreases segs.len(),
{
    if j == segs.len() {
        assert(segs.take(j) =~= segs);
    } else {
        lemma_put_segs_keeps(segs.drop_last(), j, avail);
        assert(segs.drop_last().take(j) =~= segs.take(j));
        let seg = segs.last();
        lemma_put_chars_keeps(
            put_segs(segs.drop_last(), avail),
            seg,
            0,
            seg.text.len() as int,
            avail,
        );
    }
}

/// Wrap pieces at `avail` columns and give at most `max` lines after the first `skip`. A wide
/// character without room at the end of a line goes whole to the next one. Only the lines asked
/// for are built.
pub fn wrap_segs_window(segs: &Vec<Seg>, avail: usize, skip: usize, max: usize) -> (r: Vec<
    Vec<Seg>,
>)
    ensures
        lines_view(r@) == window(wrapped(segs_view(segs@), avail as nat), skip as nat, max as nat),
{
    let ghost sv = segs_view(segs@);
    let ghost all = wrapped(sv, avail as nat);
    let width: usize = if avail == 0 {
        1
    } else {
        avail
    };
    let mut lines: Vec<Vec<Seg>> = Vec::new();
    if max == 0 {
        assert(lines_view(lines@) =~= window(all, skip as nat, 0));
        return lines;
    }
    let mut cur: Vec<Seg> = Vec::new();
    let mut used: usize = 0;
    let mut line_no: usize = 0;
    let mut i: usize = 0;
    proof {
        assert(sv.take(0) =~= Seq::<SegV>::empty());
        assert(segs_view(cur@) =~= Seq::<SegV>::empty());
        assert(lines_view(lines@) =~= Seq::<Seq<SegV>>::empty());
        assert(Seq::<Seq<SegV>>::empty().skip(0) =~= Seq::<Seq<SegV>>::empty());
    }
    while i < segs.len()
        invariant
            sv == segs_view(segs@),
            i <= segs@.len(),
            width >= 1,
            all == wrapped(sv, avail as nat),
            all == put_segs(sv, width as nat).lines.push(put_segs(sv, width as nat).cur),
            max > 0,
            lines@.len() < max,
            building(put_segs(sv.take(i as int), width as nat), lines@, cur@, used, line_no, skip),
            used <= width || used <= 3,
        decreases segs@.len() - i,
    {
        let seg = &segs[i];
        let chars = chars_of(seg.text.as_str());
        let mut acc = String::new();
        let ghost w0 = put_segs(sv.take(i as int), width as nat);
        let mut k: usize = 0;
        proof {
            assert(sv[i as int] == seg@);
            assert(sv.take(i + 1).drop_last() =~= sv.take(i as int));
            assert(sv.take(i + 1).last() == seg@);
        }
        while k < chars.len()
            invariant
                i < segs@.len(),
                sv == segs_view(segs@),
                seg == segs@[i as int],
                chars@ == seg.text@,
                k <= chars@.len(),
                width >= 1,
                all == wrapped(sv, avail as nat),
            all == put_segs(sv, width as nat).lines.push(put_segs(sv, width as nat).cur),
                put_segs(sv.take(i + 1), width as nat) == put_chars(
                    w0,
                    seg@,
                    chars@.len() as int,
                    width as nat,
                ),
                max > 0,
                lines@.len() < max,
                within_seg(
                    put_chars(w0, seg@, k as int, width as nat),
                    seg.style,
                    k as int,
                    lines@,
                    cur@,
                    acc@,
                    used,
                    line_no,
                    skip,
                ),
                used <= width || used <= 3,
            decreases chars@.len() - k,
        {
            let c = chars[k];
            let cw = cell_width(c);
            let ghost w = put_chars(w0, seg@, k as int, width as nat);
            let ghost w2 = put_chars(w0, seg@, k + 1, width as nat);
            assert(w2 == put(w, seg.style, c, k == 0, width as nat));
            if used > 0 && (used > width || cw > width - used) {
                if line_no >= skip {
                    if acc.as_str().unicode_len() > 0 {
                        let piece = Seg { style: seg.style, text: acc };
                        let ghost cur0 = cur@;
                        cur.push(piece);
                        assert(segs_view(cur@) =~= segs_view(cur0).push(piece@));
                        acc = String::new();
                    }
                    assert(segs_view(cur@) == w.cur);
                    let ghost lines0 = lines@;
                    lines.push(cur);
                    assert(lines_view(lines@) =~= lines_view(lines0).push(w.cur));
                    cur = Vec::new();
                    assert(segs_view(cur@) =~= Seq::<SegV>::empty());
                    assert(w2.lines.skip(skip as int) =~= w.lines.skip(skip as int).push(w.cur));
                    if lines.len() >= max {
                        proof {
                            lemma_put_chars_keeps(
                                w0,
                                seg@,
                                k + 1,
                                chars@.len() as int,
                                width as nat,
                            );
                            lemma_put_segs_keeps(sv, i + 1, width as nat);
                            let end = put_segs(sv, width as nat).lines;
                            assert(w2.lines.is_prefix_of(end)) by {
                                let mid = put_segs(sv.take(i + 1), width as nat).lines;
                                assert(w2.lines =~= mid.subrange(0, w2.lines.len() as int));
                                assert(mid =~= end.subrange(0, mid.len() as int));
                                assert(w2.lines =~= end.subrange(0, w2.lines.len() as int));
                            }
                            assert(lines_view(lines@) =~= window(all, skip as nat, max as nat));
                        }
                        return lines;
                    }
                } else {
                    assert(w2.lines.len() >= skip ==> w2.lines.skip(skip as int) =~= Seq::<
                        Seq<SegV>,
                    >::empty());
                }
                line_no = line_no.saturating_add(1);
                used = 0;
            }
            if line_no >= skip {
                let ghost acc0 = acc@;
                acc.push(c);
                assert(acc@ =~= acc0.push(c));
                proof {
                    if w2.lines == w.lines {
                        assert(w.cur.drop_last().push(
                            SegV { style: seg.style, text: w.cur.last().text.push(c) },
                        ) =~= segs_view(cur@).push(SegV { style: seg.style, text: acc@ }) || k == 0);
                        if k == 0 {
                            assert(acc@ =~= seq![c]);
                        }
                    } else {
                        assert(acc@ =~= seq![c]);
                    }
                    assert(w2.cur =~= with_acc(segs_view(cur@), seg.style, acc@));
                }
            }
            used = used + cw;
            assert(w2.lines.len() >= skip ==> lines_view(lines@) =~= w2.lines.skip(skip as int));
            k += 1;
        }
        if line_no >= skip && acc.as_str().unicode_len() > 0 {
            let piece = Seg { style: seg.style, text: acc };
            let ghost cur0 = cur@;
            cur.push(piece);
            assert(segs_view(cur@) =~= segs_view(cur0).push(piece@));
        }
        i += 1;
    }
    assert(sv.take(sv.len() as int) =~= sv);
    let ghost w = put_segs(sv, width as nat);
    if line_no >= skip {
        let ghost lines0 = lines@;
        lines.push(cur);
        assert(lines_view(lines@) =~= lines_view(lines0).push(w.cur));
        assert(all.skip(skip as int) =~= w.lines.skip(skip as int).push(w.cur));
        assert(lines_view(lines@) =~= window(all, skip as nat, max as nat));
    } else {
        assert(lines_view(lines@) =~= window(all, skip as nat, max as nat));
    }
    lines
}

/// The pieces of a line with what has been gathered of the last one.
spec fn with_acc(cur: Seq<SegV>, style: Style, acc: Seq<char>) -> Seq<SegV> {
    if acc.len() == 0 {
        cur
    } else {
        cur.push(SegV { style, text: acc })
    }
}

/// Whether the lines built so far are those of `w` after the first `skip`.
spec fn building(
    w: Wrap,
    lines: Seq<Vec<Seg>>,
    cur: Seq<Seg>,
    used: usize,
    line_no: usize,
    skip: usize,
) -> bool {
    &&& used == w.used
    &&& line_no == capped(w.lines.len())
    &&& if w.lines.len() >= skip {
        lines_view(lines) == w.lines.skip(skip as int) && segs_view(cur) == w.cur
    } else {
        lines.len() == 0 && cur.len() == 0
    }
}

/// The same in the middle of a piece of which `acc` has been gathered.
spec fn within_seg(
    w: Wrap,
    style: Style,
    k: int,
    lines: Seq<Vec<Seg>>,
    cur: Seq<Seg>,
    acc: Seq<char>,
    used: usize,
    line_no: usize,
    skip: usize,
) -> bool {
    &&& used == w.used
    &&& line_no == capped(w.lines.len())
    &&& k == 0 ==> acc.len() == 0
    &&& if w.lines.len() >= skip {
        &&& lines_view(lines) == w.lines.skip(skip as int)
        &&& with_acc(segs_view(cur), style, acc) == w.cur
        &&& k > 0 ==> acc.len() > 0
    } else {
        lines.len() == 0 && cur.len() == 0 && acc.len() == 0
    }
}

/// The number of lines that wrapping at `avail` columns gives.
pub fn wrap_height(segs: &Vec<Seg>, avail: usize) -> (r: usize)
    ensures
        r == capped(wrapped(segs_view(segs@), avail as nat).len()),
{
    let ghost sv = segs_view(segs@);
    let avail: usize = if avail == 0 {
        1
    } else {
        avail
    };
    let mut lines: usize = 1;
    let mut used: usize = 0;
    let mut i: usize = 0;
    assert(sv.take(0) =~= Seq::<SegV>::empty());
    while i < segs.len()
        invariant
            sv == segs_view(segs@),
            i <= segs@.len(),
            avail >= 1,
            used == put_segs(sv.take(i as int), avail as nat).used,
            lines == capped(put_segs(sv.take(i as int), avail as nat).lines.len() + 1),
            used <= avail || used <= 3,
        decreases segs@.len() - i,
    {
        let seg = &segs[i];
        let chars = chars_of(seg.text.as_str());
        let ghost w0 = put_segs(sv.take(i as int), avail as nat);
        proof {
            assert(sv[i as int] == seg@);
            assert(sv.take(i + 1).drop_last() =~= sv.take(i as int));
            assert(sv.take(i + 1).last() == seg@);
        }
        let mut k: usize = 0;
        while k < chars.len()
            invariant
                chars@ == seg.text@,
                k <= chars@.len(),
                avail >= 1,
                used == put_chars(w0, seg@, k as int, avail as nat).used,
                lines == capped(put_chars(w0, seg@, k as int, avail as nat).lines.len() + 1),
                used <= avail || used <= 3,
            decreases chars@.len() - k,
        {
            let cw = cell_width(chars[k]);
            if used > 0 && (used > avail || cw > avail - used) {
                lines = lines.saturating_add(1);
                used = 0;
            }
            used = used + cw;
            k += 1;
        }
        i += 1;
    }
    assert(sv.take(sv.len() as int) =~= sv);
    lines
}

// ---- Laws of wrapping ------------------------------------------------------------

/// The columns that a text takes, character by character.
pub open spec fn columns(s: Seq<char>) -> nat
    decreases s.len(),
{
    if s.len() == 0 {
        0
    } else {
        columns(s.drop_last()) + cell(s.last())
    }
}

/// The text of lines, joined.
pub open spec fn lines_text(v: Seq<Seq<SegV>>) -> Seq<char>
    decreases v.len(),
{
    if v.len() == 0 {
        seq![]
    } else {
        lines_text(v.drop_last()) + joined(v.last())
    }
}

/// Whether a line keeps to `avail` columns, or is wider only for one character that alone is as
/// wide as the whole line.
pub open spec fn fits(s: Seq<char>, avail: nat) -> bool {
    columns(s) <= avail || exists|k: int| 0 <= k < s.len() && cell(#[trigger] s[k]) == columns(s)
}

/// The number of finished lines, and the columns used in the next one, after wrapping a text.
pub open spec fn flow(s: Seq<char>, avail: nat) -> (nat, nat)
    decreases s.len(),
{
    if s.len() == 0 {
        (0, 0)
    } else {
        let (n, used) = flow(s.drop_last(), avail);
        if breaks(used, s.last(), avail) {
            (n + 1, cell(s.last()))
        } else {
            (n, used + cell(s.last()))
        }
    }
}

/// What holds of a text on its way into lines: nothing of it is lost, the lines fit, and how far
/// it has come depends on its characters alone.
spec fn sound(w: Wrap, text: Seq<char>, avail: nat) -> bool {
    &&& lines_text(w.lines) + joined(w.cur) == text
    &&& w.used == columns(joined(w.cur))
    &&& fits(joined(w.cur), avail)
    &&& forall|i: int| 0 <= i < w.lines.len() ==> fits(joined(#[trigger] w.lines[i]), avail)
    &&& flow(text, avail) == (w.lines.len(), w.used)
}

proof fn lemma_put_sound(w: Wrap, text: Seq<char>, style: Style, c: char, first: bool, avail: nat)
    requires
        sound(w, text, avail),
        first || w.cur.len() > 0,
    ensures
        sound(put(w, style, c, first, avail), text.push(c), avail),
{
    let w2 = put(w, style, c, first, avail);
    let line = joined(w.cur);
    assert(text.push(c).drop_last() =~= text);
    if breaks(w.used, c, avail) {
        reveal_with_fuel(joined, 2);
        assert(w2.lines.drop_last() =~= w.lines);
        assert(w2.cur.drop_last() =~= Seq::<SegV>::empty());
        assert(joined(w2.cur) =~= seq![c]);
        assert(lines_text(w2.lines) == text);
        assert(text + seq![c] =~= text.push(c));
        reveal_with_fuel(columns, 2);
        assert(seq![c].drop_last() =~= Seq::<char>::empty());
        assert(columns(seq![c]) == cell(c));
        assert(seq![c][0] == c);
    } else {
        assert(joined(w2.cur) =~= line.push(c)) by {
            if first {
                assert(w2.cur.drop_last() =~= w.cur);
                assert(line + seq![c] =~= line.push(c));
            } else {
                assert(w2.cur.drop_last() =~= w.cur.drop_last());
                let head = joined(w.cur.drop_last());
                assert(head + w.cur.last().text.push(c) =~= (head + w.cur.last().text).push(c));
            }
        }
        assert(line.push(c).drop_last() =~= line);
        assert(lines_text(w.lines) + line.push(c) =~= text.push(c));
        if w.used == 0 {
            assert(line.push(c)[line.len() as int] == c);
            assert(cell(line.push(c)[line.len() as int]) == columns(line.push(c)));
        }
    }
}

proof fn lemma_put_chars_sound(w: Wrap, text: Seq<char>, seg: SegV, k: int, avail: nat)
    requires
        sound(w, text, avail),
        0 <= k <= seg.text.len(),
    ensures
        sound(put_chars(w, seg, k, avail), text + seg.text.take(k), avail),
        k > 0 ==> put_chars(w, seg, k, avail).cur.len() > 0,
    decreases k,
{
    if k == 0 {
        assert(text + seg.text.take(0) =~= text);
    } else {
        lemma_put_chars_sound(w, text, seg, k - 1, avail);
        lemma_put_sound(
            put_chars(w, seg, k - 1, avail),
            text + seg.text.take(k - 1),
            seg.style,
            seg.text[k - 1],
            k == 1,
            avail,
        );
        assert(text + seg.text.take(k) =~= (text + seg.text.take(k - 1)).push(seg.text[k - 1]));
    }
}

proof fn lemma_put_segs_sound(segs: Seq<SegV>, avail: nat)
    ensures
        sound(put_segs(segs, avail), joined(segs), avail),
    decreases segs.len(),
{
    if segs.len() == 0 {
        assert(lines_text(seq![]) + joined(seq![]) =~= joined(segs));
    } else {
        lemma_put_segs_sound(segs.drop_last(), avail);
        let seg = segs.last();
        lemma_put_chars_sound(
            put_segs(segs.drop_last(), avail),
            joined(segs.drop_last()),
            seg,
            seg.text.len() as int,
            avail,
        );
        assert(seg.text.take(seg.text.len() as int) =~= seg.text);
    }
}

/// No character is lost by wrapping, and none is added.
pub proof fn law_wrap_keeps_text(segs: Seq<SegV>, avail: nat)
    ensures
        lines_text(wrapped(segs, avail)) == joined(segs),
{
    lemma_put_segs_sound(segs, room(avail));
    let w = put_segs(segs, room(avail));
    assert(wrapped(segs, avail).drop_last() =~= w.lines);
}

/// No line is wider than the room for it, but for a line where one character has all the
/// columns.
pub proof fn law_wrap_fits(segs: Seq<SegV>, avail: nat)
    ensures
        forall|i: int|
            0 <= i < wrapped(segs, avail).len() ==> fits(
                joined(#[trigger] wrapped(segs, avail)[i]),
                room(avail),
            ),
{
    lemma_put_segs_sound(segs, room(avail));
}

/// How many lines a text takes depends on its characters alone: neither on their styles nor on
/// how they are split into pieces.
pub proof fn law_height_of_text(a: Seq<SegV>, b: Seq<SegV>, avail: nat)
    requires
        joined(a) == joined(b),
    ensures
        wrapped(a, avail).len() == wrapped(b, avail).len(),
{
    lemma_put_segs_sound(a, room(avail));
    lemma_put_segs_sound(b, room(avail));
}

/// Windows of wrapped text put side by side are the text: what one leaves off, the next takes
/// up.
pub proof fn law_windows_join(segs: Seq<SegV>, avail: nat, skip: nat, a: nat, b: nat)
    ensures
        window(wrapped(segs, avail), skip, a + b) == window(wrapped(segs, avail), skip, a)
            + window(wrapped(segs, avail), skip + a, b),
{
    let all = wrapped(segs, avail);
    assert(window(all, skip, a + b) =~= window(all, skip, a) + window(all, skip + a, b));
}

/// A window of wrapped text is cut out of the whole output: the first `skip` lines of that are
/// dropped, and at most `max` of the others taken.
pub proof fn law_window_of_all(segs: Seq<SegV>, avail: nat, skip: nat, max: nat)
    requires
        wrapped(segs, avail).len() <= usize::MAX,
    ensures
        window(wrapped(segs, avail), 0, usize::MAX as nat) == wrapped(segs, avail),
        window(wrapped(segs, avail), skip, max) == window(
            window(wrapped(segs, avail), 0, usize::MAX as nat),
            skip,
            max,
        ),
        max == 0 || skip >= wrapped(segs, avail).len() ==> window(
            wrapped(segs, avail),
            skip,
            max,
        ).len() == 0,
{
    let all = wrapped(segs, avail);
    assert(window(all, 0, usize::MAX as nat) =~= all);
}

// ---- Clipping and padding --------------------------------------------------------

/// How many leading characters of `s` fit between `used` and `max` columns.
pub open spec fn fit(s: Seq<char>, used: nat, max: nat) -> int
    decreases s.len(),
{
    if s.len() == 0 || used + str_columns(seq![s[0]]) > max {
        0
    } else {
        1 + fit(s.skip(1), used + str_columns(seq![s[0]]) as nat, max)
    }
}

/// The pieces that fit between `used` and `max` columns: whole ones, then the part of the next
/// one that fits.
pub open spec fn clipped(segs: Seq<SegV>, used: nat, max: nat) -> Seq<SegV>
    decreases segs.len(),
{
    if segs.len() == 0 || used >= max {
        seq![]
    } else {
        let s = segs[0];
        let sw = str_columns(s.text) as nat;
        if used + sw <= max {
            seq![s] + clipped(segs.skip(1), used + sw, max)
        } else {
            seq![SegV { style: s.style, text: s.text.take(fit(s.text, used, max)) }]
        }
    }
}

proof fn lemma_fit(s: Seq<char>, used: nat, max: nat)
    ensures
        0 <= fit(s, used, max) <= s.len(),
    decreases s.len(),
{
    if s.len() > 0 && used + str_columns(seq![s[0]]) <= max {
        lemma_fit(s.skip(1), used + str_columns(seq![s[0]]) as nat, max);
    }
}

fn char_string(c: char) -> (r: String)
    ensures
        r@ == seq![c],
{
    let mut s = String::new();
    s.push(c);
    assert(s@ =~= seq![c]);
    s
}

fn fitting(chars: &Vec<char>, used: usize, max: usize) -> (r: usize)
    requires
        used <= max,
    ensures
        r == fit(chars@, used as nat, max as nat),
        r <= chars@.len(),
{
    let mut col: usize = used;
    let mut k: usize = 0;
    let ghost goal = fit(chars@, used as nat, max as nat);
    assert(chars@.skip(0) =~= chars@);
    while k < chars.len()
        invariant
            k <= chars@.len(),
            col <= max,
            goal == fit(chars@, used as nat, max as nat),
            goal == k + fit(chars@.skip(k as int), col as nat, max as nat),
        decreases chars@.len() - k,
    {
        let one = char_string(chars[k]);
        let cw = str_width(one.as_str());
        assert(chars@.skip(k as int)[0] == chars@[k as int]);
        if cw > max - col {
            return k;
        }
        assert(chars@.skip(k as int).skip(1) =~= chars@.skip(k + 1));
        col = col + cw;
        k += 1;
    }
    k
}

/// Cut pieces off at `max` columns.
pub fn clip_segs(segs: &Vec<Seg>, max: usize) -> (r: Vec<Seg>)
    ensures
        segs_view(r@) == clipped(segs_view(segs@), 0, max as nat),
{
    let ghost sv = segs_view(segs@);
    let mut out: Vec<Seg> = Vec::new();
    let mut used: usize = 0;
    let mut i: usize = 0;
    assert(sv.skip(0) =~= sv);
    assert(segs_view(out@) =~= Seq::<SegV>::empty());
    while i < segs.len() && used < max
        invariant
            sv == segs_view(segs@),
            i <= segs@.len(),
            used <= max,
            segs_view(out@) + clipped(sv.skip(i as int), used as nat, max as nat) =~= clipped(
                sv,
                0,
                max as nat,
            ),
        decreases segs@.len() - i,
    {
        let seg = &segs[i];
        let sw = str_width(seg.text.as_str());
        let ghost out0 = out@;
        proof {
            assert(sv.skip(i as int)[0] == seg@);
            assert(sv.skip(i as int).skip(1) =~= sv.skip(i + 1));
        }
        if sw <= max - used {
            let piece = seg.clone();
            out.push(piece);
            assert(segs_view(out@) =~= segs_view(out0).push(seg@));
            used = used + sw;
        } else {
            let chars = chars_of(seg.text.as_str());
            let k = fitting(&chars, used, max);
            let piece = Seg { style: seg.style, text: string_of(&chars, 0, k) };
            out.push(piece);
            proof {
                assert(piece@.text =~= seg.text@.take(k as int));
                assert(segs_view(out@) =~= segs_view(out0).push(piece@));
            }
            return out;
        }
        i += 1;
    }
    out
}

/// What is left after clipping is a beginning of the text.
pub proof fn law_clip_keeps_start(segs: Seq<SegV>, used: nat, max: nat)
    ensures
        joined(clipped(segs, used, max)).is_prefix_of(joined(segs)),
    decreases segs.len(),
{
    if segs.len() > 0 && used < max {
        let s = segs[0];
        let sw = str_columns(s.text) as nat;
        let rest = segs.skip(1);
        assert(segs =~= seq![s] + rest);
        lemma_joined_add(seq![s], rest);
        reveal_with_fuel(joined, 2);
        assert(seq![s].drop_last() =~= Seq::<SegV>::empty());
        assert(joined(seq![s]) =~= s.text);
        if used + sw <= max {
            law_clip_keeps_start(rest, used + sw, max);
            lemma_joined_add(seq![s], clipped(rest, used + sw, max));
        } else {
            lemma_fit(s.text, used, max);
            let cut = SegV { style: s.style, text: s.text.take(fit(s.text, used, max)) };
            assert(seq![cut].drop_last() =~= Seq::<SegV>::empty());
            assert(joined(seq![cut]) =~= cut.text);
        }
    }
}

/// The columns that pieces take.
pub open spec fn spread(v: Seq<SegV>) -> nat
    decreases v.len(),
{
    if v.len() == 0 {
        0
    } else {
        spread(v.drop_last()) + str_columns(v.last().text) as nat
    }
}

/// The columns that pieces take, or `max` where they take more.
pub fn spread_upto(spans: &Vec<Seg>, max: usize) -> (r: usize)
    ensures
        r as nat == (if spread(segs_view(spans@)) > max {
            max as nat
        } else {
            spread(segs_view(spans@))
        }),
{
    let ghost sv = segs_view(spans@);
    let mut used: usize = 0;
    let mut i: usize = 0;
    assert(sv.take(0) =~= Seq::<SegV>::empty());
    while i < spans.len()
        invariant
            sv == segs_view(spans@),
            i <= spans@.len(),
            used as nat == (if spread(sv.take(i as int)) > max {
                max as nat
            } else {
                spread(sv.take(i as int))
            }),
        decreases spans@.len() - i,
    {
        let w = str_width(spans[i].text.as_str());
        proof {
            assert(sv[i as int] == spans@[i as int]@);
            assert(sv.take(i + 1).drop_last() =~= sv.take(i as int));
        }
        used = if w > max - used {
            max
        } else {
            used + w
        };
        i += 1;
    }
    assert(sv.take(sv.len() as int) =~= sv);
    used
}

/// The plain style on the background `bg`.
pub open spec fn on(bg: Option<Color>) -> Style {
    Style { fg: None, bg, bold: false }
}

/// Pieces filled up with spaces to `width` columns.
pub open spec fn padded(spans: Seq<SegV>, width: nat, bg: Option<Color>) -> Seq<SegV> {
    if spread(spans) < width {
        spans.push(SegV { style: on(bg), text: blanks((width - spread(spans)) as nat) })
    } else {
        spans
    }
}

/// Fill pieces up with spaces to `width` columns.
pub fn pad_to(spans: &mut Vec<Seg>, width: usize, bg: Option<Color>)
    ensures
        segs_view(final(spans)@) == padded(segs_view(old(spans)@), width as nat, bg),
{
    let used = spread_upto(spans, width);
    if used < width {
        let ghost before = spans@;
        let pad = Seg { style: Style { fg: None, bg, bold: false }, text: spaces(width - used) };
        spans.push(pad);
        assert(segs_view(spans@) =~= segs_view(before).push(pad@));
    }
}

// ---- Rows and screen lines -------------------------------------------------------

/// The sum of heights.
pub open spec fn total(h: Seq<nat>) -> nat
    decreases h.len(),
{
    if h.len() == 0 {
        0
    } else {
        total(h.drop_last()) + h.last()
    }
}

/// Where each row begins, for rows of some heights, and at the end where the last one ends.
pub open spec fn tops(h: Seq<nat>) -> Seq<usize> {
    Seq::new(h.len() + 1, |k: int| capped(total(h.take(k))) as usize)
}

/// The screen lines of a one-column row.
pub open spec fn uni_height(row: URowV, wrap: bool, width: nat) -> nat {
    if row.is_hunk || !wrap {
        1
    } else {
        wrapped(row.segs, width).len()
    }
}

/// The screen lines of one side of a row.
pub open spec fn half_height(h: Option<HalfV>, wrap: bool, width: nat) -> nat {
    match h {
        Some(h) => if wrap {
            wrapped(h.segs, width).len()
        } else {
            1
        },
        None => 1,
    }
}

/// The screen lines of a side-by-side row: those of the higher side.
pub open spec fn sxs_height(row: SRowV, wrap: bool, width: nat) -> nat {
    let l = half_height(row.left, wrap, width);
    let r = half_height(row.right, wrap, width);
    if row.header is Some || !wrap {
        1
    } else if l > r {
        l
    } else {
        r
    }
}

/// The heights of one-column rows.
pub open spec fn uni_heights(rows: Seq<URowV>, wrap: bool, width: nat) -> Seq<nat> {
    rows.map_values(|r: URowV| uni_height(r, wrap, width))
}

/// The heights of side-by-side rows.
pub open spec fn sxs_heights(rows: Seq<SRowV>, wrap: bool, width: nat) -> Seq<nat> {
    rows.map_values(|r: SRowV| sxs_height(r, wrap, width))
}

/// The screen line on which each one-column row begins, and at the end their number.
pub fn build_offsets_uni(rows: &Vec<URow>, wrap: bool, content_w: usize) -> (r: Vec<usize>)
    ensures
        r@ == tops(uni_heights(urows(rows@), wrap, content_w as nat)),
{
    let ghost h = uni_heights(urows(rows@), wrap, content_w as nat);
    let mut offs: Vec<usize> = Vec::new();
    let mut acc: usize = 0;
    let mut i: usize = 0;
    assert(h.take(0) =~= Seq::<nat>::empty());
    while i < rows.len()
        invariant
            h == uni_heights(urows(rows@), wrap, content_w as nat),
            i <= rows@.len(),
            offs@ =~= tops(h).take(i as int),
            acc == capped(total(h.take(i as int))),
        decreases rows@.len() - i,
    {
        offs.push(acc);
        let row = &rows[i];
        let n = if row.is_hunk || !wrap {
            1
        } else {
            wrap_height(&row.segs, content_w)
        };
        proof {
            assert(urows(rows@)[i as int] == row@);
            assert(h[i as int] == uni_height(row@, wrap, content_w as nat));
            assert(h.take(i + 1).drop_last() =~= h.take(i as int));
        }
        acc = acc.saturating_add(n);
        i += 1;
    }
    offs.push(acc);
    assert(offs@ =~= tops(h));
    offs
}

fn height_of(h: &Option<Half>, wrap: bool, width: usize) -> (r: usize)
    ensures
        r == capped(half_height(half_view(*h), wrap, width as nat)),
{
    match h {
        Some(h) => if wrap {
            wrap_height(&h.segs, width)
        } else {
            1
        },
        None => 1,
    }
}

/// The screen line on which each side-by-side row begins, and at the end their number.
pub fn build_offsets_sxs(rows: &Vec<SRow>, wrap: bool, half: usize) -> (r: Vec<usize>)
    ensures
        r@ == tops(sxs_heights(srows(rows@), wrap, half as nat)),
{
    let ghost h = sxs_heights(srows(rows@), wrap, half as nat);
    let mut offs: Vec<usize> = Vec::new();
    let mut acc: usize = 0;
    let mut i: usize = 0;
    assert(h.take(0) =~= Seq::<nat>::empty());
    while i < rows.len()
        invariant
            h == sxs_heights(srows(rows@), wrap, half as nat),
            i <= rows@.len(),
            offs@ =~= tops(h).take(i as int),
            acc == capped(total(h.take(i as int))),
        decreases rows@.len() - i,
    {
        offs.push(acc);
        let row = &rows[i];
        let n: usize = if row.header.is_some() || !wrap {
            1
        } else {
            let l = height_of(&row.left, wrap, half);
            let r = height_of(&row.right, wrap, half);
            if l > r {
                l
            } else {
                r
            }
        };
        proof {
            assert(srows(rows@)[i as int] == row@);
            assert(h[i as int] == sxs_height(row@, wrap, half as nat));
            assert(h.take(i + 1).drop_last() =~= h.take(i as int));
        }
        acc = acc.saturating_add(n);
        i += 1;
    }
    offs.push(acc);
    assert(offs@ =~= tops(h));
    offs
}

proof fn lemma_total_grows(h: Seq<nat>, j: int, k: int)
    requires
        0 <= j <= k <= h.len(),
        forall|i: int| 0 <= i < h.len() ==> #[trigger] h[i] >= 1,
    ensures
        total(h.take(j)) + (k - j) <= total(h.take(k)),
    decreases k,
{
    if j < k {
        lemma_total_grows(h, j, k - 1);
        assert(h.take(k).drop_last() =~= h.take(k - 1));
        assert(h.take(k).last() == h[k - 1]);
    }
}

/// The table starts at line 0 and each row begins where the one before ends; as no row is
/// without a line, the table is strictly increasing.
pub proof fn law_tops_follow_heights(h: Seq<nat>)
    requires
        forall|i: int| 0 <= i < h.len() ==> #[trigger] h[i] >= 1,
        total(h) <= usize::MAX,
    ensures
        tops(h).len() == h.len() + 1,
        tops(h)[0] == 0,
        tops(h).last() == total(h),
        forall|i: int| 0 <= i < h.len() ==> #[trigger] tops(h)[i] + h[i] == tops(h)[i + 1],
        forall|i: int, j: int| 0 <= i < j <= h.len() ==> tops(h)[i] < tops(h)[j],
{
    assert(h.take(0) =~= Seq::<nat>::empty());
    assert(h.take(h.len() as int) =~= h);
    assert forall|i: int, j: int| 0 <= i < j <= h.len() implies tops(h)[i] < tops(h)[j] by {
        lemma_total_grows(h, i, j);
        lemma_total_grows(h, j, h.len() as int);
    }
    assert forall|i: int| 0 <= i < h.len() implies #[trigger] tops(h)[i] + h[i] == tops(h)[i
        + 1] by {
        assert(h.take(i + 1).drop_last() =~= h.take(i));
        lemma_total_grows(h, i, h.len() as int);
        lemma_total_grows(h, i + 1, h.len() as int);
    }
}

/// Without wrapping every row is one screen line.
pub proof fn law_tops_without_wrap(rows: Seq<URowV>, width: nat)
    requires
        rows.len() < usize::MAX,
    ensures
        forall|i: int|
            0 <= i <= rows.len() ==> #[trigger] tops(uni_heights(rows, false, width))[i] == i,
{
    let h = uni_heights(rows, false, width);
    assert forall|i: int| 0 <= i <= rows.len() implies #[trigger] tops(h)[i] == i by {
        lemma_total_ones(h.take(i));
    }
}

proof fn lemma_total_ones(h: Seq<nat>)
    requires
        forall|i: int| 0 <= i < h.len() ==> #[trigger] h[i] == 1,
    ensures
        total(h) == h.len(),
    decreases h.len(),
{
    if h.len() > 0 {
        lemma_total_ones(h.drop_last());
    }
}

/// Every row takes at least one screen line.
pub proof fn law_rows_have_lines(u: URowV, s: SRowV, wrap: bool, width: nat)
    ensures
        uni_height(u, wrap, width) >= 1,
        sxs_height(s, wrap, width) >= 1,
{
}

/// A colored document has the screen lines of the plain one: with the highlighter having given
/// back all of every line, the two have the same tables from rows to screen lines, so a scroll
/// position in the one is right in the other.
pub proof fn law_colors_keep_offsets(diff: Seq<char>, br: Brush, wrap: bool, width: nat)
    requires
        forall|i: int|
            0 <= i < lines_in(hunks_in(diff)).len() ==> colored_whole(
                br,
                lines_in(hunks_in(diff)).take(i),
                #[trigger] lines_in(hunks_in(diff))[i],
            ),
    ensures
        ({
            let colored = doc_of(diff, br, false);
            let bare = doc_of(diff, Brush { theme: None, ..br }, false);
            &&& tops(uni_heights(colored.unified, wrap, width)) == tops(
                uni_heights(bare.unified, wrap, width),
            )
            &&& tops(sxs_heights(colored.sxs, wrap, width)) == tops(
                sxs_heights(bare.sxs, wrap, width),
            )
            &&& colored.hunks_u == bare.hunks_u
            &&& colored.hunks_s == bare.hunks_s
            &&& colored.note == bare.note
            &&& colored.first_new_line == bare.first_new_line
        }),
{
    let none = Brush { theme: None, ..br };
    let hunks = hunks_in(diff);
    law_lines_shown_in_full(br, diff);
    law_lines_shown_in_full(none, diff);
    law_colors_keep_shape(br, none, hunks);
    let a = layout(br, hunks);
    let b = layout(none, hunks);
    assert forall|i: int| 0 <= i < a.unified.len() implies uni_height(
        #[trigger] a.unified[i],
        wrap,
        width,
    ) == uni_height(b.unified[i], wrap, width) by {
        assert(uni_text(a.unified[i]) == uni_text(b.unified[i]));
        law_height_of_text(a.unified[i].segs, b.unified[i].segs, width);
    }
    assert(uni_heights(a.unified, wrap, width) =~= uni_heights(b.unified, wrap, width));
    assert forall|i: int| 0 <= i < a.sxs.len() implies sxs_height(
        #[trigger] a.sxs[i],
        wrap,
        width,
    ) == sxs_height(b.sxs[i], wrap, width) by {
        let x = a.sxs[i];
        let y = b.sxs[i];
        assert(sxs_text(x) == sxs_text(y));
        if x.left is Some {
            law_height_of_text(x.left->0.segs, y.left->0.segs, width);
        }
        if x.right is Some {
            law_height_of_text(x.right->0.segs, y.right->0.segs, width);
        }
    }
    assert(sxs_heights(a.sxs, wrap, width) =~= sxs_heights(b.sxs, wrap, width));
}

} // verus!
