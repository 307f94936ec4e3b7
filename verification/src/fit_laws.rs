//! Where lines break, where text is cut off, and what keeps its style.

use crate::diffview::{SRowV, URowV};
use crate::style::{joined, Color, SegV, Style};
use crate::text::blanks;
use crate::width::{cell, str_columns};
use crate::wrap::{
    breaks, clipped, columns, fit, padded, put, put_chars, put_segs, room, spread, sxs_height,
    uni_height, unwrapped, window, wrapped, Wrap,
};
use vstd::prelude::*;

verus! {

// ---- Wrapping --------------------------------------------------------------------

/// The characters of pieces, each with its style.
pub open spec fn styled_chars(v: Seq<SegV>) -> Seq<(Style, char)>
    decreases v.len(),
{
    if v.len() == 0 {
        seq![]
    } else {
        styled_chars(v.drop_last()) + Seq::new(
            v.last().text.len(),
            |i: int| (v.last().style, v.last().text[i]),
        )
    }
}

/// The characters of lines, each with its style.
pub open spec fn styled_lines(v: Seq<Seq<SegV>>) -> Seq<(Style, char)>
    decreases v.len(),
{
    if v.len() == 0 {
        seq![]
    } else {
        styled_lines(v.drop_last()) + styled_chars(v.last())
    }
}

/// Whether the line after `a` had to be begun: what it begins with has no room behind `a`.
pub open spec fn had_to_break(a: Seq<SegV>, b: Seq<SegV>, avail: nat) -> bool {
    &&& joined(b).len() > 0
    &&& columns(joined(a)) > 0
    &&& columns(joined(a)) + cell(joined(b)[0]) > avail
}

spec fn tight(w: Wrap, all: Seq<(Style, char)>, avail: nat) -> bool {
    let v = w.lines.push(w.cur);
    &&& styled_lines(w.lines) + styled_chars(w.cur) == all
    &&& w.used == columns(joined(w.cur))
    &&& forall|i: int| 0 <= i < w.lines.len() ==> had_to_break(#[trigger] v[i], v[i + 1], avail)
}

proof fn lemma_put_tight(
    w: Wrap,
    all: Seq<(Style, char)>,
    style: Style,
    c: char,
    first: bool,
    avail: nat,
)
    requires
        tight(w, all, avail),
        first || (w.cur.len() > 0 && w.cur.last().style == style),
    ensures
        tight(put(w, style, c, first, avail), all.push((style, c)), avail),
        put(w, style, c, first, avail).cur.len() > 0,
        put(w, style, c, first, avail).cur.last().style == style,
{
    let w2 = put(w, style, c, first, avail);
    let v = w.lines.push(w.cur);
    let v2 = w2.lines.push(w2.cur);
    let one = SegV { style, text: seq![c] };
    let inked_one = Seq::new(1, |i: int| (style, seq![c][i]));
    assert(inked_one =~= seq![(style, c)]);
    if breaks(w.used, c, avail) {
        assert(w2.cur =~= seq![one]);
        assert(w2.cur.drop_last() =~= Seq::<SegV>::empty());
        assert(joined(w2.cur.drop_last()) =~= Seq::<char>::empty());
        assert(styled_chars(w2.cur.drop_last()) =~= Seq::<(Style, char)>::empty());
        assert(joined(w2.cur) =~= seq![c]);
        assert(styled_chars(w2.cur) =~= seq![(style, c)]);
        assert(seq![c].drop_last() =~= Seq::<char>::empty());
        assert(columns(seq![c].drop_last()) == 0);
        assert(columns(seq![c]) == cell(c));
        assert(w2.lines.drop_last() =~= w.lines);
        assert(styled_lines(w2.lines) == all);
        assert(all + seq![(style, c)] =~= all.push((style, c)));
        assert forall|i: int| 0 <= i < w2.lines.len() implies had_to_break(
            #[trigger] v2[i],
            v2[i + 1],
            avail,
        ) by {
            if i < w.lines.len() {
                assert(v2[i] == v[i]);
                assert(v2[i + 1] == v[i + 1]);
            }
        }
    } else {
        let line = joined(w.cur);
        let head = w.cur.drop_last();
        assert(joined(w2.cur) =~= line.push(c) && styled_chars(w2.cur) =~= styled_chars(
            w.cur,
        ).push((style, c))) by {
            if first {
                assert(w2.cur.drop_last() =~= w.cur);
                assert(w2.cur.last() == one);
            } else {
                assert(w2.cur.drop_last() =~= head);
                let t = w.cur.last().text;
                assert(w2.cur.last().text == t.push(c));
                assert(Seq::new(t.push(c).len(), |i: int| (style, t.push(c)[i])) =~= Seq::new(
                    t.len(),
                    |i: int| (style, t[i]),
                ).push((style, c)));
            }
        }
        assert(line.push(c).drop_last() =~= line);
        assert(styled_lines(w.lines) + styled_chars(w2.cur) =~= all.push((style, c)));
        assert forall|i: int| 0 <= i < w2.lines.len() implies had_to_break(
            #[trigger] v2[i],
            v2[i + 1],
            avail,
        ) by {
            assert(v2[i] == v[i]);
            assert(had_to_break(v[i], v[i + 1], avail));
            if i + 1 < w.lines.len() {
                assert(v2[i + 1] == v[i + 1]);
            } else {
                assert(line.push(c)[0] == line[0]);
            }
        }
    }
}

proof fn lemma_put_chars_tight(w: Wrap, all: Seq<(Style, char)>, seg: SegV, k: int, avail: nat)
    requires
        tight(w, all, avail),
        0 <= k <= seg.text.len(),
    ensures
        tight(
            put_chars(w, seg, k, avail),
            all + Seq::new(k as nat, |i: int| (seg.style, seg.text[i])),
            avail,
        ),
        k > 0 ==> put_chars(w, seg, k, avail).cur.len() > 0 && put_chars(
            w,
            seg,
            k,
            avail,
        ).cur.last().style == seg.style,
    decreases k,
{
    let put_so_far = Seq::new(k as nat, |i: int| (seg.style, seg.text[i]));
    if k == 0 {
        assert(all + put_so_far =~= all);
    } else {
        let before = Seq::new((k - 1) as nat, |i: int| (seg.style, seg.text[i]));
        lemma_put_chars_tight(w, all, seg, k - 1, avail);
        lemma_put_tight(
            put_chars(w, seg, k - 1, avail),
            all + before,
            seg.style,
            seg.text[k - 1],
            k == 1,
            avail,
        );
        assert((all + before).push((seg.style, seg.text[k - 1])) =~= all + put_so_far);
    }
}

proof fn lemma_put_segs_tight(segs: Seq<SegV>, avail: nat)
    ensures
        tight(put_segs(segs, avail), styled_chars(segs), avail),
    decreases segs.len(),
{
    if segs.len() == 0 {
        let w = unwrapped();
        assert(styled_lines(w.lines) + styled_chars(w.cur) =~= styled_chars(segs));
    } else {
        let seg = segs.last();
        lemma_put_segs_tight(segs.drop_last(), avail);
        lemma_put_chars_tight(
            put_segs(segs.drop_last(), avail),
            styled_chars(segs.drop_last()),
            seg,
            seg.text.len() as int,
            avail,
        );
    }
}

/// A line is left only where the next character has no room on it.
pub proof fn law_lines_are_filled(segs: Seq<SegV>, avail: nat, i: int)
    requires
        0 <= i < wrapped(segs, avail).len() - 1,
    ensures
        had_to_break(
            wrapped(segs, avail)[i],
            wrapped(segs, avail)[i + 1],
            if avail == 0 {
                1
            } else {
                avail
            },
        ),
{
    lemma_put_segs_tight(segs, room(avail));
}

/// Wrapping leaves each character its style, and the characters their order.
pub proof fn law_wrap_keeps_styles(segs: Seq<SegV>, avail: nat)
    ensures
        styled_lines(wrapped(segs, avail)) == styled_chars(segs),
{
    lemma_put_segs_tight(segs, room(avail));
    assert(wrapped(segs, avail).drop_last() =~= put_segs(segs, room(avail)).lines);
}

/// A window begins behind the lines that are skipped, and has as many as it may and there are.
pub proof fn law_window(v: Seq<Seq<SegV>>, skip: nat, max: nat)
    ensures
        ({
            let w = window(v, skip, max);
            &&& skip >= v.len() ==> w.len() == 0
            &&& skip + max <= v.len() ==> w.len() == max
            &&& skip < v.len() < skip + max ==> w.len() == v.len() - skip
            &&& forall|i: int| 0 <= i < w.len() ==> #[trigger] w[i] == v[skip + i]
        }),
{
}

// ---- Heights ---------------------------------------------------------------------

/// A header takes one line, and so does any row while lines are not wrapped. Otherwise a row takes
/// the lines of its text, and a row with two sides those of the higher side.
pub proof fn law_heights(u: URowV, s: SRowV, width: nat)
    ensures
        uni_height(u, false, width) == 1,
        sxs_height(s, false, width) == 1,
        u.is_hunk ==> uni_height(u, true, width) == 1,
        !u.is_hunk ==> uni_height(u, true, width) == wrapped(u.segs, width).len(),
        s.header is Some ==> sxs_height(s, true, width) == 1,
        s.header is None && s.left is Some && s.right is None ==> sxs_height(s, true, width)
            == wrapped(s.left->0.segs, width).len(),
        s.header is None && s.left is None && s.right is Some ==> sxs_height(s, true, width)
            == wrapped(s.right->0.segs, width).len(),
        s.header is None && s.left is Some && s.right is Some ==> {
            let l = wrapped(s.left->0.segs, width).len();
            let r = wrapped(s.right->0.segs, width).len();
            let h = sxs_height(s, true, width);
            l <= h && r <= h && (h == l || h == r)
        },
{
}

// ---- Clipping and padding --------------------------------------------------------

/// The columns of characters one by one.
pub open spec fn one_by_one(s: Seq<char>) -> nat
    decreases s.len(),
{
    if s.len() == 0 {
        0
    } else {
        str_columns(seq![s[0]]) as nat + one_by_one(s.skip(1))
    }
}

proof fn lemma_fit_is_most(s: Seq<char>, used: nat, max: nat)
    requires
        used <= max,
    ensures
        ({
            let k = fit(s, used, max);
            &&& 0 <= k <= s.len()
            &&& used + one_by_one(s.take(k)) <= max
            &&& k < s.len() ==> used + one_by_one(s.take(k)) + str_columns(seq![s[k]]) > max
        }),
    decreases s.len(),
{
    let k = fit(s, used, max);
    if s.len() > 0 && used + str_columns(seq![s[0]]) <= max {
        let w = str_columns(seq![s[0]]) as nat;
        let t = s.skip(1);
        lemma_fit_is_most(t, used + w, max);
        assert(s.take(k).skip(1) =~= t.take(k - 1));
        if k < s.len() {
            assert(t[k - 1] == s[k]);
        }
    } else {
        assert(s.take(0) =~= Seq::<char>::empty());
    }
}

/// Whether pieces are cut off behind `k` whole ones.
pub open spec fn cut_behind(segs: Seq<SegV>, cut: Seq<SegV>, used: nat, max: nat, k: int) -> bool {
    let whole = used + spread(segs.take(k));
    &&& 0 <= k <= segs.len()
    &&& k <= cut.len() <= k + 1
    &&& cut.take(k) == segs.take(k)
    &&& k > 0 ==> whole <= max
    &&& cut.len() == k ==> k == segs.len() || whole >= max
    &&& cut.len() == k + 1 ==> {
        let n = cut[k].text.len();
        &&& k < segs.len()
        &&& whole < max
        &&& whole + str_columns(segs[k].text) > max
        &&& cut[k].style == segs[k].style
        &&& n <= segs[k].text.len()
        &&& cut[k].text == segs[k].text.take(n as int)
        &&& whole + one_by_one(cut[k].text) <= max
        &&& n < segs[k].text.len() ==> whole + one_by_one(cut[k].text) + str_columns(
            seq![segs[k].text[n as int]],
        ) > max
    }
}

proof fn lemma_spread_front(v: Seq<SegV>)
    requires
        v.len() > 0,
    ensures
        spread(v) == str_columns(v[0].text) as nat + spread(v.skip(1)),
    decreases v.len(),
{
    if v.len() == 1 {
        assert(v.drop_last() =~= Seq::<SegV>::empty());
        assert(v.skip(1) =~= Seq::<SegV>::empty());
    } else {
        lemma_spread_front(v.drop_last());
        assert(v.drop_last().skip(1) =~= v.skip(1).drop_last());
    }
}

/// Clipping keeps as much as there is room for: whole pieces with their styles as long as they
/// fit, and of the next one as many characters as fit.
pub proof fn law_clip_keeps_most(segs: Seq<SegV>, used: nat, max: nat)
    ensures
        exists|k: int| #[trigger] cut_behind(segs, clipped(segs, used, max), used, max, k),
    decreases segs.len(),
{
    let r = clipped(segs, used, max);
    if segs.len() == 0 || used >= max {
        assert(segs.take(0) =~= Seq::<SegV>::empty());
        assert(r.take(0) =~= segs.take(0));
        assert(cut_behind(segs, r, used, max, 0));
    } else {
        let s = segs[0];
        let sw = str_columns(s.text) as nat;
        if used + sw <= max {
            let t = segs.skip(1);
            let now = used + sw;
            let c = clipped(t, now, max);
            law_clip_keeps_most(t, now, max);
            let k = choose|k: int| #[trigger] cut_behind(t, c, now, max, k);
            assert(segs.take(k + 1).skip(1) =~= t.take(k));
            lemma_spread_front(segs.take(k + 1));
            let front = r.take(k + 1);
            assert(front =~= segs.take(k + 1)) by {
                assert forall|i: int| 0 <= i < k + 1 implies #[trigger] front[i] == segs[i] by {
                    if i > 0 {
                        assert(c.take(k)[i - 1] == t.take(k)[i - 1]);
                        assert(r[i] == c[i - 1]);
                        assert(segs[i] == t[i - 1]);
                    }
                }
            }
            if k == 0 {
                assert(spread(t.take(0)) == 0);
            }
            if c.len() == k + 1 {
                assert(r[k + 1] == c[k]);
                assert(segs[k + 1] == t[k]);
            }
            assert(cut_behind(segs, r, used, max, k + 1));
        } else {
            lemma_fit_is_most(s.text, used, max);
            assert(segs.take(0) =~= Seq::<SegV>::empty());
            assert(r.take(0) =~= segs.take(0));
            assert(cut_behind(segs, r, used, max, 0));
        }
    }
}

/// Pieces that take fewer columns than asked for get so many spaces behind them as are missing, on
/// the background asked for. Others stay as they are.
pub proof fn law_padding(spans: Seq<SegV>, width: nat, bg: Option<Color>)
    ensures
        spread(spans) >= width ==> padded(spans, width, bg) == spans,
        spread(spans) < width ==> padded(spans, width, bg) == spans + seq![
            SegV {
                style: Style { fg: None, bg, bold: false },
                text: Seq::new((width - spread(spans)) as nat, |i: int| ' '),
            },
        ],
{
    if spread(spans) < width {
        let n = (width - spread(spans)) as nat;
        assert(blanks(n) =~= Seq::new(n, |i: int| ' '));
    }
}

} // verus!
