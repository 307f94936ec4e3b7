//! What the diff pane shows: numbers, text, headers and notes.

use crate::app::{AppV, WtDataV};
use crate::diff_pane::{
    file_header, half_lines, half_part, hunk_note, note_lines, row_at, row_starts, side_width,
    summary_file, summary_head, sxs_screen, text_width, uni_gutter, uni_screen, wt_summary,
};
use crate::diffview::{DocV, HalfV, SRowV, URowV};
use crate::git::{totals_of, FileV};
use crate::row_laws::{gap_of, lemma_joined_one, lemma_joined_push, letter};
use crate::screen::{framed, DrawV, LineV, Rect};
use crate::style::{joined, lemma_joined_add, SegV};
use crate::text::{decimal, right_aligned};
use crate::ui::{placed, Body};
use crate::width::str_columns;
use crate::wrap::{clipped, padded, window, wrapped};
use vstd::prelude::*;

verus! {

// ---- Line numbers ----------------------------------------------------------------

/// A number at the right of five columns.
pub open spec fn in_five(t: Seq<char>) -> Seq<char> {
    if t.len() < 5 {
        gap_of((5 - t.len()) as nat) + t
    } else {
        t
    }
}

proof fn lemma_in_five(t: Seq<char>)
    ensures
        right_aligned(t, 5) == in_five(t),
{
    if t.len() < 5 {
        assert(crate::text::blanks((5 - t.len()) as nat) =~= gap_of((5 - t.len()) as nat));
    }
}

/// In front of a line stand the number that it had and the number that it has, each at the right
/// of five columns; one that there is not is left blank. Lines that continue another one have
/// none.
pub proof fn law_numbers_in_front(row: URowV)
    ensures
        ({
            let old = if row.old_no is Some {
                decimal(row.old_no->0 as nat)
            } else {
                seq![]
            };
            let new = if row.new_no is Some {
                decimal(row.new_no->0 as nat)
            } else {
                seq![]
            };
            uni_gutter(row, true).text == in_five(old) + seq![' '] + in_five(new) + seq![' ']
        }),
        uni_gutter(row, false).text == gap_of(12),
{
    reveal_strlit("");
    reveal_strlit(" ");
    assert(" "@ =~= seq![' ']);
    assert(""@ =~= Seq::<char>::empty());
    lemma_in_five(if row.old_no is Some {
        decimal(row.old_no->0 as nat)
    } else {
        seq![]
    });
    lemma_in_five(if row.new_no is Some {
        decimal(row.new_no->0 as nat)
    } else {
        seq![]
    });
    assert(crate::text::blanks(12) =~= gap_of(12));
}

/// Of a row in one column the first screen line has the numbers and the others blanks; behind
/// them stands the text, wrapped and filled up, or cut off where lines are not wrapped.
pub proof fn law_one_column(row: URowV, width: usize, skip: usize, max: usize, j: int)
    requires
        !row.is_hunk,
    ensures
        ({
            let v = uni_screen(row, true, width, skip, max);
            let all = wrapped(row.segs, width as nat);
            0 <= j < v.len() ==> {
                &&& skip + j < all.len()
                &&& v[j].spans == seq![uni_gutter(row, skip + j == 0)] + padded(
                    all[skip + j],
                    width as nat,
                    row.bg,
                )
            }
        }),
        ({
            let v = uni_screen(row, false, width, 0, max);
            &&& v.len() == 1
            &&& v[0].spans == seq![uni_gutter(row, true)] + padded(
                clipped(row.segs, 0, width as nat),
                width as nat,
                row.bg,
            )
        }),
{
}

/// A header is shown as it is.
pub proof fn law_header_shown(row: URowV, wrap: bool, width: usize, skip: usize, max: usize)
    requires
        row.is_hunk,
    ensures
        uni_screen(row, wrap, width, skip, max).len() == 1,
        uni_screen(row, wrap, width, skip, max)[0].spans == row.segs,
{
}

/// What stands on one side of a screen line: the number and the text of that side, or blanks as
/// wide as the side where it has none.
pub open spec fn side_text(h: Option<HalfV>, line: Option<Seq<SegV>>, first: bool, width: usize) -> Seq<
    char,
> {
    if h is Some && line is Some {
        (if first {
            in_five(decimal(h->0.no as nat)) + seq![' ']
        } else {
            gap_of(6)
        }) + joined(padded(line->0, width as nat, h->0.bg))
    } else {
        gap_of(6 + width as nat)
    }
}

proof fn lemma_half(h: Option<HalfV>, lines: Seq<Seq<SegV>>, j: int, numbered: bool, width: usize)
    requires
        0 <= j,
    ensures
        joined(half_part(h, lines, j, numbered, width)) == side_text(
            h,
            if j < lines.len() {
                Some(lines[j])
            } else {
                None
            },
            numbered,
            width,
        ),
{
    reveal_strlit(" ");
    assert(" "@ =~= seq![' ']);
    let p = half_part(h, lines, j, numbered, width);
    assert(crate::text::blanks(6) =~= gap_of(6));
    assert(crate::text::blanks(6 + width as nat) =~= gap_of(6 + width as nat));
    lemma_joined_one(p[0]);
    if h is Some && j < lines.len() {
        lemma_in_five(decimal(h->0.no as nat));
        lemma_joined_add(seq![p[0]], padded(lines[j], width as nat, h->0.bg));
        assert(p =~= seq![p[0]] + padded(lines[j], width as nat, h->0.bg));
    } else {
        assert(p =~= seq![p[0]]);
    }
}

/// With two sides, a screen line shows the left side, a bar, and the right side. Each side has its
/// own number on its first line, and its own text.
pub proof fn law_two_sides(row: SRowV, width: usize, max: usize, j: int)
    requires
        row.header is None,
        0 <= j < sxs_screen(row, true, width, 0, max).len(),
    ensures
        ({
            let l = if row.left is Some {
                window(wrapped(row.left->0.segs, width as nat), 0, max as nat)
            } else {
                seq![]
            };
            let r = if row.right is Some {
                window(wrapped(row.right->0.segs, width as nat), 0, max as nat)
            } else {
                seq![]
            };
            joined(sxs_screen(row, true, width, 0, max)[j].spans) == side_text(
                row.left,
                if j < l.len() {
                    Some(l[j])
                } else {
                    None
                },
                j == 0,
                width,
            ) + seq!['│'] + side_text(
                row.right,
                if j < r.len() {
                    Some(r[j])
                } else {
                    None
                },
                j == 0,
                width,
            )
        }),
{
    reveal_strlit("│");
    assert("│"@ =~= seq!['│']);
    let l = half_lines(row.left, true, width, 0, max);
    let r = half_lines(row.right, true, width, 0, max);
    lemma_half(row.left, l, j, j == 0, width);
    lemma_half(row.right, r, j, j == 0, width);
    let lp = half_part(row.left, l, j, j == 0, width);
    let rp = half_part(row.right, r, j, j == 0, width);
    let bar = crate::screen::inked_seg(crate::screen::INACTIVE_SEL, "│"@);
    lemma_joined_add(lp.push(bar), rp);
    assert(lp.push(bar).drop_last() =~= lp);
}

/// A row with two sides takes the lines of its higher side, at least one.
pub proof fn law_two_sides_height(row: SRowV, width: usize, max: usize)
    requires
        row.header is None,
        row.left is Some,
        row.right is Some,
        max > 0,
    ensures
        ({
            let l = window(wrapped(row.left->0.segs, width as nat), 0, max as nat).len();
            let r = window(wrapped(row.right->0.segs, width as nat), 0, max as nat).len();
            let n = sxs_screen(row, true, width, 0, max).len();
            l <= n && r <= n && (n == l || n == r)
        }),
{
}

/// What two sides and the bar between them take is not more than the width, from the least width
/// on that has room for the numbers; a single column takes all of it.
pub proof fn law_columns_used(width: u16)
    ensures
        width >= 13 ==> 2 * (6 + side_width(width)) + 1 <= width,
        width >= 15 ==> 2 * (6 + side_width(width)) + 4 >= width,
        width >= 12 ==> 12 + text_width(width) == width,
        width < 12 ==> text_width(width) == 0,
{
}

/// The row on a screen line is the one that begins at that line or last before it.
pub proof fn law_row_on_line(offsets: Seq<usize>, at: usize, r: int)
    requires
        0 <= r < offsets.len() - 1,
        forall|i: int, k: int| 0 <= i < k < offsets.len() ==> offsets[i] < offsets[k],
        offsets[r] <= at < offsets[r + 1],
    ensures
        row_at(offsets, at) == r,
{
    let s = row_starts(offsets);
    assert forall|i: int| 0 <= i < s.len() implies #[trigger] s[i] == offsets[i] by {}
    lemma_leading(s, at, r + 1);
}

proof fn lemma_leading(s: Seq<usize>, at: usize, n: int)
    requires
        0 <= n <= s.len(),
        forall|i: int| 0 <= i < n ==> #[trigger] s[i] <= at,
        n < s.len() ==> s[n] > at,
    ensures
        crate::diff_pane::leading(s, at) == n,
    decreases s.len(),
{
    if n > 0 {
        let t = s.skip(1);
        assert forall|i: int| 0 <= i < n - 1 implies #[trigger] t[i] <= at by {
            assert(t[i] == s[i + 1]);
        }
        assert(s[0] <= at);
        lemma_leading(t, at, n - 1);
    }
}

// ---- Headers and notes -----------------------------------------------------------

/// The counts of a file as text.
pub open spec fn counts_of(f: FileV) -> Seq<char> {
    if f.added is Some && f.deleted is Some {
        "+"@ + decimal(f.added->0 as nat) + " -"@ + decimal(f.deleted->0 as nat)
    } else {
        "Bin"@
    }
}

/// Above a diff stand the letter of the file's status, its path, where it was moved from, and its
/// counts.
pub proof fn law_file_header(f: FileV)
    ensures
        f.old_path is None ==> joined(file_header(f).spans) == " "@ + seq![letter(f.status)] + " "@
            + f.path + ("  "@ + counts_of(f)),
        f.old_path is Some ==> joined(file_header(f).spans) == " "@ + seq![letter(f.status)] + " "@
            + f.path + (" (← "@ + f.old_path->0 + ")"@) + ("  "@ + counts_of(f)),
{
    let v = file_header(f).spans;
    lemma_joined_one(v[0]);
    let v1 = seq![v[0]].push(v[1]);
    lemma_joined_push(seq![v[0]], v[1]);
    let v2 = v1.push(v[2]);
    lemma_joined_push(v1, v[2]);
    if f.old_path is Some {
        let v3 = v2.push(v[3]);
        lemma_joined_push(v2, v[3]);
        assert(v =~= v3);
    } else {
        assert(v =~= v2);
    }
}

/// Where no file is selected, the branch and the totals of the worktree are shown, and below them
/// its files in order, as many as fit. That there are no changes is said exactly where there are
/// none.
pub proof fn law_worktree_summary(wt: WtDataV, h: usize)
    requires
        h >= 2,
    ensures
        ({
            let v = wt_summary(wt, h);
            let n = wt.files.len();
            &&& n == 0 ==> v.len() == 3 && joined(v[2].spans) == "  no changes"@
            &&& 0 < n <= h - 2 ==> v.len() == n + 2
            &&& n > h - 2 && n > 0 ==> v.len() == h
            &&& forall|i: int|
                0 <= i < n && i < h - 2 ==> joined((#[trigger] v[i + 2]).spans) == "  "@ + seq![
                    letter(wt.files[i].status),
                ] + " "@ + wt.files[i].path + ("  "@ + counts_of(wt.files[i]))
            &&& joined(v[0].spans) == " "@ + wt.info.branch + " "@ + (decimal(n) + " files  "@ + (
            "+"@ + decimal(totals_of(wt.files).0 as nat) + " -"@ + decimal(
                totals_of(wt.files).1 as nat,
            )))
        }),
{
    let v = wt_summary(wt, h);
    let listed = window(wt.files, 0, (h - 2) as nat);
    let head = summary_head(wt).spans;
    assert(v[0] == summary_head(wt));
    lemma_joined_one(head[0]);
    assert(head.drop_last() =~= seq![head[0]]);
    assert forall|i: int| 0 <= i < wt.files.len() && i < h - 2 implies joined(
        (#[trigger] v[i + 2]).spans,
    ) == "  "@ + seq![letter(wt.files[i].status)] + " "@ + wt.files[i].path + ("  "@ + counts_of(
        wt.files[i],
    )) by {
        assert(listed[i] == wt.files[i]);
        assert(v[i + 2] == summary_file(wt.files[i]));
        lemma_summary_file(wt.files[i]);
    }
    if wt.files.len() == 0 {
        assert(listed.len() == 0);
        lemma_joined_one(v[2].spans[0]);
        assert(v[2].spans =~= seq![v[2].spans[0]]);
    }
}

proof fn lemma_summary_file(f: FileV)
    ensures
        joined(summary_file(f).spans) == "  "@ + seq![letter(f.status)] + " "@ + f.path + ("  "@
            + counts_of(f)),
{
    let v = summary_file(f).spans;
    lemma_joined_one(v[0]);
    let v1 = seq![v[0]].push(v[1]);
    lemma_joined_push(seq![v[0]], v[1]);
    let v2 = v1.push(v[2]);
    lemma_joined_push(v1, v[2]);
    assert(v =~= v2);
}

/// Where there is room, the frame of the diff says which hunk is shown, of how many.
pub proof fn law_hunk_note(rect: Rect, k: nat, n: nat)
    requires
        rect.height >= 1,
        rect.x + rect.width <= u16::MAX,
        rect.y + rect.height <= u16::MAX,
        str_columns("hunk "@ + decimal(k) + "/"@ + decimal(n)) <= u16::MAX - 4,
    ensures
        ({
            let note = "hunk "@ + decimal(k) + "/"@ + decimal(n);
            let w = str_columns(note) + 2;
            let d = hunk_note(rect, Some((k, n)));
            &&& rect.width <= w + 2 ==> d.len() == 0
            &&& rect.width > w + 2 ==> {
                &&& d.len() == 1
                &&& d[0] matches DrawV::Text(r, lines)
                &&& r.x + r.width + 1 == rect.x + rect.width
                &&& r.y + 1 == rect.y + rect.height
                &&& r.width == w
                &&& r.height == 1
                &&& lines.len() == 1
                &&& joined(lines[0].spans) == " "@ + note + " "@
            }
        }),
        hunk_note(rect, None).len() == 0,
{
    let note = "hunk "@ + decimal(k) + "/"@ + decimal(n);
    lemma_joined_one(crate::screen::inked_seg(crate::screen::FG_DIM, " "@ + note + " "@));
}

/// The note of a document is a line of its own, and there is none where it has no note.
pub proof fn law_note_line(note: Seq<char>)
    ensures
        note_lines(None).len() == 0,
        note_lines(Some(note)).len() == 1,
        joined(note_lines(Some(note))[0].spans) == " "@ + note,
{
    lemma_joined_one(crate::screen::inked_seg(crate::screen::FG_DIM, " "@ + note));
}

// ---- The screen ------------------------------------------------------------------

/// Two sides are shown where they are wanted and the pane has at least 90 columns inside. The
/// diff has a line less than the pane inside, for the header.
pub proof fn law_sides_if_wide(a: AppV, inner: Rect)
    requires
        inner.height >= 1,
    ensures
        a.diff_start(inner) == (AppV {
            effective_sxs: a.sxs && inner.width >= 90,
            diff_height: (inner.height - 1) as usize,
            ..a
        }),
{
    reveal(AppV::with_shown_sides);
    reveal(AppV::with_diff_height);
}

/// A screen with fewer columns than configured is narrow, another one is not, and then the diff
/// never takes all of it.
pub proof fn law_narrow(a: AppV, width: u16)
    ensures
        width < a.cfg.narrow_cols ==> a.sized(width) == (AppV { narrow: true, ..a }),
        width >= a.cfg.narrow_cols ==> a.sized(width) == (AppV {
            narrow: false,
            narrow_diff: false,
            ..a
        }),
{
    reveal(AppV::sized);
    reveal(AppV::with_narrow);
    reveal(AppV::with_narrow_diff);
}

/// A narrow screen shows the diff alone or the file list alone, another one the file list at the
/// left and the diff at the right. The bars are above and the help below.
pub proof fn law_places(
    area: Rect,
    rows: Seq<Rect>,
    head: Seq<Rect>,
    hist: Seq<Rect>,
    panes: Seq<Rect>,
)
    ensures
        placed(area, rows, head, hist, panes, true, true).body == Body::Diff(rows[3]),
        placed(area, rows, head, hist, panes, true, false).body == Body::Tree(rows[3]),
        forall|nd: bool|
            (#[trigger] placed(area, rows, head, hist, panes, false, nd)).body == Body::Both(
                panes[0],
                panes[1],
            ),
        forall|n: bool, nd: bool|
            ({
                let s = #[trigger] placed(area, rows, head, hist, panes, n, nd);
                s.area == area && s.title == head[0] && s.base == head[1] && s.worktrees == rows[1]
                    && s.history == hist[0] && s.summary == hist[1] && s.help == rows[4]
            }),
{
}

/// A frame takes a line or a column on each side.
pub proof fn law_frame(r: Rect)
    requires
        r.width >= 2,
        r.height >= 2,
        r.x + r.width <= u16::MAX,
        r.y + r.height <= u16::MAX,
    ensures
        framed(r).x == r.x + 1,
        framed(r).y == r.y + 1,
        framed(r).width == r.width - 2,
        framed(r).height == r.height - 2,
{
}

/// A document is asked for where a file is selected and its pane is on the screen, with room for
/// two lines.
pub proof fn law_document_wanted(a: AppV, screen: crate::ui::Screen)
    ensures
        screen.body is Tree || a.selected_file() is None ==> !a.wants_doc(screen),
        screen.body matches Body::Diff(r) ==> a.selected_file() is Some ==> a.wants_doc(screen) == (
        framed(r).height >= 2),
        screen.body matches Body::Both(t, r) ==> a.selected_file() is Some ==> a.wants_doc(screen)
            == (framed(r).height >= 2),
{
}

/// What the diff pane shows below its frame: without a selected file the summary of the worktree,
/// else the header of the file, and then, where there is a document, its note and as much of the
/// diff as there is room for.
pub proof fn law_diff_drawn(a: AppV, rect: Rect, doc: DocV)
    requires
        framed(rect).height >= 2,
    ensures
        ({
            let inner = framed(rect);
            let d = a.diff_draws(rect, Some(doc));
            let e = a.diff_draws(rect, None);
            let laid = a.diff_laid(inner, doc);
            &&& d.len() >= 2
            &&& d[0] matches DrawV::Frame(r, c, t)
            &&& r == rect
            &&& t == " diff "@
            &&& a.selected_file() is None && a.cur_wt() is Some ==> d[1] == DrawV::Text(
                inner,
                wt_summary(a.cur_wt()->0, (inner.height - 1) as usize),
            )
            &&& a.selected_file() matches Some(f) ==> e.len() == 2 && e[1] == DrawV::Text(
                inner,
                seq![file_header(f)],
            )
            &&& a.selected_file() matches Some(f) ==> doc.note is None ==> d[1] == DrawV::Text(
                inner,
                seq![file_header(f)] + laid.diff_body(
                    doc,
                    inner.width,
                    (inner.height - 1) as usize,
                ),
            )
            &&& a.selected_file() matches Some(f) ==> doc.note is Some ==> d[1] == DrawV::Text(
                inner,
                seq![file_header(f)] + note_lines(doc.note) + laid.diff_body(
                    doc,
                    inner.width,
                    (inner.height - 2) as usize,
                ),
            )
        }),
{
    reveal(AppV::diff_draws);
    assert(note_lines(None) =~= Seq::<LineV>::empty());
    if let Some(f) = a.selected_file() {
        assert(seq![file_header(f)] + note_lines(None) =~= seq![file_header(f)]);
    }
}

/// What is drawn, in order: title, base, worktrees, history and summary, the body, the bottom line,
/// and over all that the list of openers.
pub proof fn law_screen_drawn(
    a: AppV,
    screen: crate::ui::Screen,
    doc: Option<DocV>,
    now: u64,
    unix: i64,
)
    ensures
        ({
            let d = a.draws(screen, doc, now, unix);
            let body = a.body_draws(screen.body, doc);
            let after = a.body_drawn(screen.body, doc);
            let n = body.len() as int;
            &&& d.len() == 6 + n + after.picker_draws(screen.area).len()
            &&& d[0] == DrawV::Text(screen.title, seq![a.title_line()])
            &&& d[1] == DrawV::Right(screen.base, seq![a.title_right_line()])
            &&& d[2] == DrawV::Text(screen.worktrees, seq![a.wt_bar(screen.worktrees.width)])
            &&& d[3] == DrawV::Text(screen.history, seq![a.hist_bar(screen.history.width)])
            &&& d[4] matches DrawV::Right(r, lines)
            &&& r == screen.summary
            &&& lines.len() == 1
            &&& joined(lines[0].spans) == a.hist_summary(unix)
            &&& d.subrange(5, 5 + n) == body
            &&& d[5 + n] matches DrawV::Text(h, bottom)
            &&& h == screen.help
            &&& bottom.len() == 1
            &&& joined(bottom[0].spans) == after.bottom_text(now)
            &&& d.skip(6 + n) == after.picker_draws(screen.area)
        }),
{
    let d = a.draws(screen, doc, now, unix);
    let body = a.body_draws(screen.body, doc);
    let after = a.body_drawn(screen.body, doc);
    let n = body.len() as int;
    lemma_joined_one(crate::screen::inked_seg(crate::screen::FG_DIM, a.hist_summary(unix)));
    lemma_joined_one(crate::screen::inked_seg(crate::screen::FG_DIM, after.bottom_text(now)));
    assert(d.subrange(5, 5 + n) =~= body);
    assert(d.skip(6 + n) =~= after.picker_draws(screen.area));
}

/// With both panes, the file list is drawn at the left and the diff at the right of it; alone,
/// each takes the whole body.
pub proof fn law_body_drawn(a: AppV, t: Rect, d: Rect, doc: Option<DocV>)
    ensures
        a.body_draws(Body::Both(t, d), doc) == a.tree_draws(t) + a.tree_drawn(t).diff_draws(d, doc),
        a.body_draws(Body::Diff(d), doc) == a.diff_draws(d, doc),
        a.body_draws(Body::Tree(t), doc).len() == a.tree_draws(t).len(),
{
    reveal(AppV::body_draws);
    reveal(AppV::with_diff_height);
    reveal(AppV::rows);
}

} // verus!
