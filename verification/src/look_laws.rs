//! Colors, what the highlighter is given, how the screen begins, and what following does.

use crate::app::{started, AppV, Area, WtDataV};
use crate::bars::low16;
use crate::bytes::{byte_len, char_bytes};
use crate::config::ConfigV;
use crate::diff_pane::gutter_style;
use crate::diffview::{backs_of, chunks_of, fed, seg_style, Backs, PieceV};
use crate::git::{FileStatus, FileV, SourceV};
use crate::highlight::{ext_of, highlighted, painted, syntax_known};
use crate::key_laws::settled;
use crate::parse::{Kind, PLineV};
use crate::paths::{joined_path, name_of};
use crate::refresh::latest;
use crate::screen::{framed, DrawV, Rect, Share};
use crate::style::{hex, Color, Style};
use crate::text_laws::law_after_last;
use crate::tree_pane::{badge_color, dir_spans, file_row_spans};
use vstd::prelude::*;

verus! {

// ---- Colors ----------------------------------------------------------------------

/// A color number is made of a byte each for red, green and blue, red first.
pub proof fn law_color_numbers(r: u8, g: u8, b: u8)
    ensures
        hex((0x1_0000 * r + 0x100 * g + b) as u32) == Color::Rgb(r, g, b),
{
    let n = 0x1_0000 * r + 0x100 * g + b;
    assert(n / 0x1_0000 == r);
    assert(n / 0x100 == 0x100 * r + g);
    assert((0x100 * r + g) % 0x100 == g);
    assert(n % 0x100 == b);
    assert(r as int % 0x100 == r);
}

/// Every status has a color of its own.
pub proof fn law_status_colors(a: FileStatus, b: FileStatus)
    requires
        a != b,
    ensures
        hex(badge_color(a)) != hex(badge_color(b)),
{
}

/// Added and removed lines have each a background, another one where they are emphasised, and not
/// the same ones. A line of the context has none.
pub proof fn law_backgrounds()
    ensures
        backs_of(Kind::Ctx).base is None,
        backs_of(Kind::Ctx).emph is None,
        backs_of(Kind::Add).base is Some,
        backs_of(Kind::Del).base is Some,
        backs_of(Kind::Add).base != backs_of(Kind::Del).base,
        backs_of(Kind::Add).emph != backs_of(Kind::Del).emph,
        backs_of(Kind::Add).emph is Some && backs_of(Kind::Add).emph != backs_of(Kind::Add).base,
        backs_of(Kind::Del).emph is Some && backs_of(Kind::Del).emph != backs_of(Kind::Del).base,
{
}

/// The background and the emphasis of a line leave the color of its text alone. What is emphasised
/// is bold; where a line has no background, that of the text stays.
pub proof fn law_text_color_stays(style: Style, backs: Backs, marked: bool)
    ensures
        seg_style(style, backs, marked).fg == style.fg,
        seg_style(style, backs, marked).bold == (style.bold || marked),
        !marked && backs.base is Some ==> seg_style(style, backs, marked).bg == backs.base,
        marked && backs.emph is Some ==> seg_style(style, backs, marked).bg == backs.emph,
        !marked && backs.base is None ==> seg_style(style, backs, marked).bg == style.bg,
{
}

/// The pieces of a colored line keep their colors and their text, without the newline at its end.
/// A line that is not colored is one plain piece.
pub proof fn law_piece_colors(
    ps: Seq<PieceV>,
    text: Seq<char>,
    i: int,
    r: u8,
    g: u8,
    b: u8,
    t: Seq<char>,
)
    requires
        0 <= i < ps.len(),
        ps[i].0 == (r, g, b),
        ps[i].1 == t || ps[i].1 == t + seq!['\n'],
        t.len() == 0 || t.last() != '\n',
    ensures
        chunks_of(Some(ps), text).len() == ps.len(),
        chunks_of(Some(ps), text)[i].0 == (Style {
            fg: Some(Color::Rgb(r, g, b)),
            bg: None,
            bold: false,
        }),
        chunks_of(Some(ps), text)[i].1 == t,
        chunks_of(None, text) == seq![(Style { fg: None, bg: None, bold: false }, text)],
{
    assert((t + seq!['\n']).drop_last() =~= t);
}

/// The highlighter of one side is given the lines that the other kind of change leaves: removed
/// lines and the context for the old side, added lines and the context for the new one, in order
/// and each with its newline.
pub proof fn law_lines_fed(ls: Seq<PLineV>, other: Kind)
    ensures
        fed(ls, other) == ls.filter(|l: PLineV| l.kind != other).map_values(
            |l: PLineV| l.text + seq!['\n'],
        ),
    decreases ls.len(),
{
    reveal(Seq::filter);
    let keep = |l: PLineV| l.kind != other;
    let ended_line = |l: PLineV| l.text + seq!['\n'];
    if ls.len() > 0 {
        let h = ls.drop_last();
        law_lines_fed(h, other);
        let l = ls.last();
        assert(l.text.push('\n') =~= l.text + seq!['\n']);
        if keep(l) {
            assert(ls.filter(keep) =~= h.filter(keep).push(l));
            assert(ls.filter(keep).map_values(ended_line) =~= h.filter(keep).map_values(
                ended_line,
            ).push(ended_line(l)));
        }
    }
    assert(fed(ls, other) =~= ls.filter(keep).map_values(ended_line));
}

/// The syntax goes by what stands behind the last dot, where that is known, else by the name of
/// the file, where that is.
pub proof fn law_syntax(dir: Seq<char>, name: Seq<char>, stem: Seq<char>, ext: Seq<char>)
    requires
        !ext.contains('.'),
        !name.contains('/'),
        name == stem + seq!['.'] + ext,
    ensures
        syntax_known(ext) ==> ext_of(dir + seq!['/'] + name) == Some(ext),
        !syntax_known(ext) && syntax_known(name) ==> ext_of(dir + seq!['/'] + name) == Some(name),
        !syntax_known(ext) && !syntax_known(name) ==> ext_of(dir + seq!['/'] + name) is None,
{
    let p = dir + seq!['/'] + name;
    law_after_last(dir, '/', name);
    law_after_last(dir + seq!['/'] + stem, '.', ext);
    assert(p =~= dir + seq!['/'] + stem + seq!['.'] + ext);
    assert(p[(dir.len() + 1 + stem.len()) as int] == '.');
    assert(p.contains('.'));
}

/// A text takes the bytes of its characters.
pub proof fn law_bytes_by_character(s: Seq<char>, c: char)
    ensures
        byte_len(s.push(c)) == byte_len(s) + char_bytes(c),
{
    crate::bytes::lemma_push_bytes(s, c);
}

// ---- The start -------------------------------------------------------------------

/// At the start nothing is selected or shown yet, the file list has the focus, two sides are
/// wanted, lines are wrapped as configured, and the tree is as wide as configured, within 15 and
/// 85 percent. The title names the directory of the repository.
pub proof fn law_start(cfg: ConfigV, repo: Seq<char>, base: Seq<char>)
    ensures
        ({
            let a = started(cfg, repo, base);
            &&& a.cfg == cfg
            &&& a.repo == repo
            &&& a.base == base
            &&& name_of(repo) is Some ==> a.repo_name == name_of(repo)->0
            &&& name_of(repo) is None ==> a.repo_name == "?"@
            &&& a.focus == Area::Tree
            &&& a.sxs
            &&& a.wrap == cfg.wrap
            &&& 15 <= cfg.split_pct <= 85 ==> a.split_pct == cfg.split_pct
            &&& cfg.split_pct < 15 ==> a.split_pct == 15
            &&& cfg.split_pct > 85 ==> a.split_pct == 85
            &&& !a.flat && !a.follow && !a.quit && !a.filter_input && !a.initial_picked
            &&& a.picker is None && a.status is None && a.filter.len() == 0
            &&& a.wts.len() == 0 && a.docs.len() == 0 && a.diff_scroll == 0
        }),
{
}

/// What the screen is divided into: a line each for title, worktrees, history and help, at least
/// three for the body; at the right of the title as many columns as that takes and one more; the
/// tree as wide as it is set, and at least ten columns for the diff.
pub proof fn law_shares(a: AppV, width: u16, unix: i64)
    ensures
        ({
            let s = a.asked(width, unix);
            &&& s.rows == seq![
                Share::Length(1),
                Share::Length(1),
                Share::Length(1),
                Share::AtLeast(3),
                Share::Length(1),
            ]
            &&& s.head == seq![Share::AtLeast(0), Share::Length(a.title_columns())]
            &&& s.history == seq![
                Share::AtLeast(0),
                Share::Length(a.summary_columns(width, unix)),
            ]
            &&& s.panes == seq![Share::Percent(a.split_pct), Share::AtLeast(10)]
        }),
        crate::width::str_columns(a.title_right()) < 65535 ==> a.title_columns()
            == crate::width::str_columns(a.title_right()) + 1,
        crate::width::str_columns(a.hist_summary(unix)) < 65535 ==> a.summary_columns(width, unix)
            == (if crate::width::str_columns(a.hist_summary(unix)) + 1 < width / 2 {
            crate::width::str_columns(a.hist_summary(unix)) + 1
        } else {
            width as int / 2
        }),
{
}

/// Numbers of columns that fit stay as they are.
pub proof fn law_low_columns(n: usize)
    requires
        n <= u16::MAX,
    ensures
        low16(n) == n,
{
}

// ---- The file list on the screen -------------------------------------------------

/// The file list is scrolled only as far as it takes for the cursor to be seen: not at all where it
/// is, to the cursor where it is above, and where it is below so that it is on the last line.
pub proof fn law_list_scrolls_little(a: AppV, h: usize)
    requires
        h > 0,
        a.ui().scroll + h <= usize::MAX,
    ensures
        a.ui().scroll <= a.ui().cursor < a.ui().scroll + h ==> a.tree_scroll(h) == a.ui().scroll,
        a.ui().cursor < a.ui().scroll ==> a.tree_scroll(h) == a.ui().cursor,
        a.ui().cursor >= a.ui().scroll + h ==> a.tree_scroll(h) + h == a.ui().cursor + 1,
{
}

/// Below the frame of the file list stand its rows from where it is scrolled to, as many as there is
/// room for. Where there are none, it says so.
pub proof fn law_list_drawn(a: AppV, rect: Rect)
    requires
        a.has_ui(),
    ensures
        ({
            let d = a.tree_draws(rect);
            let inner = framed(rect);
            let from = a.tree_scroll(inner.height as usize) as int;
            &&& d.len() == 2
            &&& d[0] is Frame
            &&& d[1] matches DrawV::Text(r, lines)
            &&& r == inner
            &&& a.rows().len() == 0 ==> lines.len() == 1
            &&& a.rows().len() > 0 ==> lines.len() <= inner.height && forall|i: int|
                0 <= i < lines.len() ==> from + i < a.rows().len() && #[trigger] lines[i]
                    == a.tree_line(from + i, inner.width as usize)
            &&& a.rows().len() > 0 && from + inner.height <= a.rows().len() ==> lines.len()
                == inner.height
        }),
{
}

// ---- Following -------------------------------------------------------------------

/// Following goes to the file that was modified last. It is opened, and remembered, exactly where it
/// is news. Where no file was modified, nothing happens.
pub proof fn law_following_goes_to_latest(a: AppV, mtimes: Seq<Option<i128>>)
    ensures
        latest(a.files(), mtimes) is None ==> a.follow_pick(mtimes) == (a, false),
        latest(a.files(), mtimes) matches Some((p, t)) ==> {
            let at = joined_path(a.wt_path(), p);
            let (b, open) = a.follow_pick(mtimes);
            &&& open == a.is_news(at, t)
            &&& open ==> b.last_followed == Some((at, t))
            &&& !open ==> b.last_followed == a.last_followed
            &&& settled(
                a.select_file_by_path(p),
                AppV { last_followed: a.last_followed, ..b },
            )
        },
{
    if let Some((p, t)) = latest(a.files(), mtimes) {
        crate::key_laws::lemma_settled(a.select_file_by_path(p));
        assert(a.select_file_by_path(p).last_followed == a.last_followed) by {
            reveal(AppV::select_file_by_path);
            reveal(AppV::with_ui);
        }
    }
    reveal(AppV::follow_pick);
    reveal(AppV::with_followed);
}

/// Following begins with the question for what is not committed in the selected worktree.
pub proof fn law_following_asks(a: AppV)
    ensures
        a.sel_wt >= a.wts.len() ==> a.follow_query() is None,
        a.sel_wt < a.wts.len() ==> {
            let w = a.wts[a.sel_wt as int];
            let q = a.follow_query()->0;
            &&& a.follow_query() is Some
            &&& q.wt == w.info.path
            &&& q.source == SourceV::Current
            &&& w.merge_base is Some ==> q.mb == w.merge_base->0
            &&& w.merge_base is None ==> q.mb == "HEAD"@
        },
{
}

/// Files that were asked for take the place of those of the selected worktree, and its diff is shown
/// from the start; no other worktree changes.
pub proof fn law_files_installed(a: AppV, files: Seq<FileV>)
    requires
        a.sel_wt < a.wts.len(),
    ensures
        ({
            let i = a.sel_wt as int;
            let b = a.install_files(files);
            let with = AppV {
                wts: a.wts.update(i, WtDataV { files, ..a.wts[i] }),
                diff_scroll: 0,
                ..a
            };
            settled(with, b)
        }),
{
    reveal(AppV::install_files);
    reveal(AppV::with_files);
    reveal(AppV::with_scroll);
    crate::key_laws::lemma_settled(a.with_files(files).with_scroll(0));
}

/// There is something to draw once there are worktrees.
pub proof fn law_drawable(a: AppV)
    requires
        a.history().len() + 2 < usize::MAX,
    ensures
        a.drawable() == (a.wts.len() > 0),
{
}

/// The line of a row: that of its directory, or of its file with the mark of the one that is
/// followed only under the cursor. Under the cursor in focus its text has one color, and keeps
/// everything else.
pub proof fn law_line_of_row(a: AppV, i: int, width: usize)
    ensures
        ({
            let row = a.rows()[i];
            let here = i == a.ui().cursor;
            let spans = if row.dir_path is Some {
                dir_spans(row, a.cfg.icons)
            } else {
                file_row_spans(
                    row,
                    a.files()[row.file_idx->0 as int],
                    a.cfg.icons,
                    a.follow && here,
                    width,
                )
            };
            let l = a.tree_line(i, width);
            row.dir_path is Some || row.file_idx is Some ==> {
                &&& l.spans.len() == spans.len()
                &&& !(here && a.focus == Area::Tree) ==> l.spans == spans
                &&& here && a.focus == Area::Tree ==> forall|k: int|
                    0 <= k < spans.len() ==> {
                        &&& (#[trigger] l.spans[k]).text == spans[k].text
                        &&& l.spans[k].style.fg == Some(Color::Rgb(0x28, 0x2a, 0x36))
                        &&& l.spans[k].style.bg == spans[k].style.bg
                        &&& l.spans[k].style.bold == spans[k].style.bold
                    }
                &&& !here ==> l.bg is None
            }
        }),
{
}

/// Line numbers stand on the background of their line, or on the terminal's own.
pub proof fn law_number_style(bg: Option<Color>)
    ensures
        bg is Some ==> gutter_style(bg).bg == bg,
        bg is None ==> gutter_style(bg).bg == Some(Color::Reset),
        gutter_style(bg).fg == Some(Color::Rgb(0x9a, 0x9d, 0xb2)),
        !gutter_style(bg).bold,
{
}

/// A line that the highlighter cannot color is one black piece.
pub proof fn law_uncolorable(
    theme: Seq<char>,
    ext: Option<Seq<char>>,
    seen: Seq<Seq<char>>,
    line: Seq<char>,
)
    ensures
        highlighted(theme, ext, seen, line) is None ==> painted(theme, ext, seen, line) == seq![
            ((0u8, 0u8, 0u8), line),
        ],
        highlighted(theme, ext, seen, line) matches Some(v) ==> painted(theme, ext, seen, line) == v,
{
}

} // verus!
