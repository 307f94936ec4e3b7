//! What holds of the state whatever keys are pressed and whatever the repository looks like.

use crate::app::{base_commit, next_file, prev_file, row_of_path, started, AppV, Area, WtDataV, WtUiV};
use crate::config::ConfigV;
use crate::diffview::DocV;
use crate::git::{totals_of, CommitV, FileStatus, FileV, SourceV};
use crate::keys::{is_down, least, loading, most, no_opener, parent_row, KeyCode, KeyEvent};
use crate::paths::components;
use crate::refresh::{all_changes, first_changed, latest, mtime_at, wt_index};
use crate::screen::{minus16, Rect};
use crate::tree::{
    below, deeper, dir_block, dir_rows, tree_of, tree_view, walk_rows, EntryV, NodeV, RowV,
};
use crate::ui::Body;
use vstd::prelude::*;

verus! {

// ---- What is selected ------------------------------------------------------------

/// Whether two states agree in what decides which rows and which file are shown.
pub open spec fn same_place(a: AppV, b: AppV) -> bool {
    &&& a.wts == b.wts
    &&& a.sel_wt == b.sel_wt
    &&& a.ui_state == b.ui_state
    &&& a.flat == b.flat
    &&& a.filter == b.filter
}

/// Whether the cursor of the selected worktree is on a row, if there is one.
pub open spec fn cursor_ok(a: AppV) -> bool {
    a.has_ui() ==> (a.ui().cursor < a.rows().len() || (a.rows().len() == 0 && a.ui().cursor == 0))
}

/// Whether the selected worktree is one of the worktrees, if there is one.
pub open spec fn wt_ok(a: AppV) -> bool {
    a.sel_wt < a.wts.len() || (a.wts.len() == 0 && a.sel_wt == 0)
}

/// Whether the width of the tree is within its limits.
pub open spec fn split_ok(a: AppV) -> bool {
    15 <= a.split_pct <= 85
}

proof fn lemma_same_place(a: AppV, b: AppV)
    requires
        same_place(a, b),
    ensures
        a.rows() == b.rows(),
        cursor_ok(a) == cursor_ok(b),
        wt_ok(a) == wt_ok(b),
{
    reveal(AppV::rows);
}

/// A state with the cursor elsewhere has the same rows.
proof fn lemma_put_cursor(a: AppV, cursor: usize)
    requires
        a.has_ui(),
    ensures
        ({
            let b = a.with_ui(WtUiV { cursor, ..a.ui() });
            &&& b.rows() == a.rows()
            &&& b.has_ui()
            &&& b.ui() == (WtUiV { cursor, ..a.ui() })
            &&& b.wts == a.wts
            &&& b.sel_wt == a.sel_wt
            &&& b.split_pct == a.split_pct
            &&& b.initial_picked == a.initial_picked
        }),
{
    reveal(AppV::rows);
    reveal(AppV::with_ui);
}

/// Clamping puts the cursor on a row, if there is one, and changes nothing else.
pub proof fn law_clamp(a: AppV)
    ensures
        cursor_ok(a.clamp_cursor()),
        a.clamp_cursor().rows() == a.rows(),
        a.clamp_cursor().wts == a.wts,
        a.clamp_cursor().sel_wt == a.sel_wt,
        a.clamp_cursor().split_pct == a.split_pct,
        cursor_ok(a) ==> a.clamp_cursor().rows() == a.rows() && (a.has_ui()
            ==> a.clamp_cursor().ui() == a.ui()),
{
    reveal(AppV::clamp_cursor);
    let len = a.rows().len();
    if a.has_ui() {
        lemma_put_cursor(a, 0);
        if len > 0 && a.ui().cursor >= len {
            lemma_put_cursor(a, (len - 1) as usize);
        }
    }
}

proof fn lemma_set_wt(a: AppV, i: int)
    requires
        cursor_ok(a),
        wt_ok(a),
    ensures
        cursor_ok(a.set_wt(i)),
        wt_ok(a.set_wt(i)),
        a.set_wt(i).split_pct == a.split_pct,
{
    reveal(AppV::set_wt);
    reveal(AppV::with_wt);
    reveal(AppV::with_scroll);
    if 0 <= i < a.wts.len() && i != a.sel_wt {
        law_clamp(a.with_wt(i as usize).with_scroll(0));
    }
}

proof fn lemma_set_hist(a: AppV, i: int)
    ensures
        a.set_hist(i).0.rows() == a.rows(),
        cursor_ok(a) ==> cursor_ok(a.set_hist(i).0),
        wt_ok(a) ==> wt_ok(a.set_hist(i).0),
        a.set_hist(i).0.split_pct == a.split_pct,
{
    reveal(AppV::set_hist);
    reveal(AppV::with_ui);
    reveal(AppV::rows);
}

// ---- Folding ---------------------------------------------------------------------

proof fn lemma_block_grows(
    label: Seq<char>,
    e: Seq<EntryV>,
    prefix: Seq<char>,
    depth: usize,
    few: Set<Seq<char>>,
    many: Set<Seq<char>>,
)
    requires
        few.subset_of(many),
    ensures
        dir_block(label, e, prefix, depth, few).len() >= dir_block(
            label,
            e,
            prefix,
            depth,
            many,
        ).len(),
    decreases e, 2int,
{
    if e.len() == 1 && e[0].1 is Dir {
        lemma_block_grows(label + "/"@ + e[0].0, e[0].1->Dir_0, prefix, depth, few, many);
    } else {
        lemma_walk_grows(e, below(prefix, label), deeper(depth), few, many);
    }
}

proof fn lemma_dirs_grow(
    e: Seq<EntryV>,
    prefix: Seq<char>,
    depth: usize,
    few: Set<Seq<char>>,
    many: Set<Seq<char>>,
)
    requires
        few.subset_of(many),
    ensures
        dir_rows(e, prefix, depth, few).len() >= dir_rows(e, prefix, depth, many).len(),
    decreases e, 0int,
{
    if e.len() > 0 {
        lemma_dirs_grow(e.drop_last(), prefix, depth, few, many);
        match e.last().1 {
            NodeV::Dir(sub) => {
                lemma_block_grows(e.last().0, sub, prefix, depth, few, many);
            },
            NodeV::File(_) => {},
        }
    }
}

proof fn lemma_walk_grows(
    e: Seq<EntryV>,
    prefix: Seq<char>,
    depth: usize,
    few: Set<Seq<char>>,
    many: Set<Seq<char>>,
)
    requires
        few.subset_of(many),
    ensures
        walk_rows(e, prefix, depth, few).len() >= walk_rows(e, prefix, depth, many).len(),
    decreases e, 1int,
{
    lemma_dirs_grow(e, prefix, depth, few, many);
}

/// The fewer directories are collapsed, the more rows there are.
pub proof fn law_expanding_adds_rows(
    files: Seq<FileV>,
    few: Set<Seq<char>>,
    many: Set<Seq<char>>,
    filter: Seq<char>,
)
    requires
        few.subset_of(many),
    ensures
        tree_view(files, few, filter).len() >= tree_view(files, many, filter).len(),
{
    lemma_walk_grows(tree_of(files, filter), seq![], 0, few, many);
}

proof fn lemma_expand(a: AppV, dir: Seq<char>)
    requires
        a.has_ui(),
        cursor_ok(a),
    ensures
        cursor_ok(a.fold(dir, false)),
        wt_ok(a) ==> wt_ok(a.fold(dir, false)),
        a.fold(dir, false).split_pct == a.split_pct,
{
    reveal(AppV::rows);
    reveal(AppV::with_ui);
    let few = a.ui().collapsed.remove(dir);
    law_expanding_adds_rows(a.files(), few, a.ui().collapsed, a.filter);
    let b = a.fold(dir, false);
    assert(b.rows().len() >= a.rows().len());
    if a.rows().len() == 0 && b.rows().len() > 0 {
        assert(b.ui().cursor == 0);
    }
}

// ---- Keys keep order -------------------------------------------------------------

/// Whether the selection and the layout are in order.
pub open spec fn in_order(a: AppV) -> bool {
    cursor_ok(a) && wt_ok(a) && split_ok(a)
}

proof fn lemma_clamp_in_order(a: AppV)
    requires
        wt_ok(a),
        split_ok(a),
    ensures
        in_order(a.clamp_cursor()),
{
    law_clamp(a);
}

proof fn lemma_key_filter(a: AppV, k: KeyCode)
    requires
        in_order(a),
    ensures
        in_order(a.key_filter(k)),
{
    reveal(AppV::key_filter);
    reveal(AppV::with_typing);
    reveal(AppV::with_filter);
    match k {
        KeyCode::Enter => {
            lemma_same_place(a, a.with_typing(false));
        },
        KeyCode::Esc => {
            lemma_clamp_in_order(a.with_filter(seq![]).with_typing(false));
        },
        KeyCode::Backspace => {
            lemma_clamp_in_order(a);
            lemma_clamp_in_order(a.with_filter(a.filter.drop_last()));
        },
        KeyCode::Char(c) => {
            lemma_clamp_in_order(a.with_filter(a.filter.push(c)));
        },
        _ => {},
    }
}

proof fn lemma_key_picker(a: AppV, k: KeyCode, idx: usize)
    requires
        in_order(a),
    ensures
        in_order(a.key_picker(k, idx).0),
{
    reveal(AppV::key_picker);
    reveal(AppV::with_picker);
    lemma_same_place(a, a.key_picker(k, idx).0);
}

proof fn lemma_focus(a: AppV, area: Area)
    requires
        in_order(a),
    ensures
        in_order(a.focus_on(area)),
        in_order(a.focus_on(area).sync_narrow_diff()),
{
    reveal(AppV::focus_on);
    reveal(AppV::sync_narrow_diff);
    lemma_same_place(a, a.focus_on(area));
    lemma_same_place(a, a.focus_on(area).sync_narrow_diff());
}

proof fn lemma_key_control(a: AppV, key: KeyEvent)
    requires
        in_order(a),
        a.key_control(key) is Some,
    ensures
        in_order(a.key_control(key)->0),
{
    reveal(AppV::key_control);
    reveal(AppV::with_quit);
    reveal(AppV::with_clear);
    lemma_same_place(a, a.with_quit(true));
    lemma_same_place(a, a.with_clear(true));
    lemma_focus(a, a.area_below());
    lemma_focus(a, a.area_above());
}

proof fn lemma_settings(a: AppV)
    requires
        in_order(a),
    ensures
        in_order(a.with_sides(!a.sxs)),
        in_order(a.with_wrap(!a.wrap)),
        in_order(a.with_flat(!a.flat).clamp_cursor()),
        in_order(a.with_typing(true)),
        in_order(a.with_picker(Some(0))),
        in_order(a.with_follow(!a.follow)),
        in_order(a.with_split(most(a.split_pct - 4, 15) as u16)),
        in_order(a.with_split(least(a.split_pct + 4, 85) as u16)),
{
    reveal(AppV::with_sides);
    reveal(AppV::with_flat);
    reveal(AppV::with_typing);
    reveal(AppV::with_picker);
    reveal(AppV::with_split);
    lemma_same_place(a, a.with_sides(!a.sxs));
    lemma_same_place(a, a.with_typing(true));
    lemma_same_place(a, a.with_picker(Some(0)));
    lemma_same_place(a, a.with_split(most(a.split_pct - 4, 15) as u16));
    lemma_same_place(a, a.with_split(least(a.split_pct + 4, 85) as u16));
    lemma_clamp_in_order(a.with_flat(!a.flat));
    reveal(AppV::with_wrap);
    reveal(AppV::with_follow);
    lemma_same_place(a, a.with_wrap(!a.wrap));
    lemma_same_place(a, a.with_follow(!a.follow));
}

proof fn lemma_says(a: AppV, msg: Seq<char>, now: u64)
    requires
        in_order(a),
    ensures
        in_order(a.says(msg, now)),
{
    reveal(AppV::with_status);
    lemma_same_place(a, a.says(msg, now));
}

proof fn lemma_loading(a: AppV, i: int)
    requires
        in_order(a),
    ensures
        in_order(loading(a.set_hist(i)).0),
{
    lemma_set_hist(a, i);
}

proof fn lemma_key_anywhere(a: AppV, k: KeyCode, now: u64)
    requires
        in_order(a),
        a.key_anywhere(k, now) is Some,
    ensures
        in_order((a.key_anywhere(k, now)->0).0),
{
    reveal(AppV::key_anywhere);
    lemma_settings(a);
    lemma_says(a.with_wrap(!a.wrap), "wrap: OFF"@, now);
    lemma_says(a.with_wrap(!a.wrap), "wrap: ON"@, now);
    lemma_says(a, no_opener(), now);
    lemma_says(a.with_follow(!a.follow), "follow: OFF"@, now);
    lemma_says(a.with_follow(!a.follow), "follow: ON"@, now);
    lemma_loading(a, most(a.hist() - 1, 0));
    lemma_loading(a, a.hist() + 1);
    lemma_set_wt(a, a.wt_before());
    lemma_set_wt(a, a.wt_after());
    match k {
        KeyCode::Char(c) => {
            lemma_set_wt(a, c as int - '1' as int);
        },
        _ => {},
    }
}

proof fn lemma_move_cursor(a: AppV, delta: int)
    requires
        in_order(a),
    ensures
        in_order(a.move_cursor(delta).with_scroll(0)),
{
    reveal(AppV::move_cursor);
    reveal(AppV::with_scroll);
    let len = a.rows().len();
    if a.has_ui() && len > 0 {
        let to = a.ui().cursor + delta;
        let cursor = if to < 0 {
            0
        } else if to > len - 1 {
            len - 1
        } else {
            to
        };
        lemma_put_cursor(a, cursor as usize);
    }
    lemma_same_place(a.move_cursor(delta), a.move_cursor(delta).with_scroll(0));
}

proof fn lemma_parent_row(rows: Seq<RowV>, from: int, depth: usize)
    ensures
        parent_row(rows, from, depth) matches Some(i) ==> 0 <= i < from && rows[i].depth < depth,
    decreases from,
{
    if from > 0 && rows[from - 1].depth >= depth {
        lemma_parent_row(rows, from - 1, depth);
    }
}

proof fn lemma_fold_in_order(a: AppV, dir: Seq<char>, collapse: bool)
    requires
        in_order(a),
        a.has_ui(),
    ensures
        in_order(a.fold(dir, collapse).clamp_cursor()),
{
    assert(wt_ok(a.fold(dir, collapse)) && split_ok(a.fold(dir, collapse))) by {
        reveal(AppV::with_ui);
    }
    lemma_clamp_in_order(a.fold(dir, collapse));
}

proof fn lemma_key_tree(a: AppV, k: KeyCode)
    requires
        in_order(a),
    ensures
        in_order(a.key_tree(k)),
{
    reveal(AppV::key_tree);
    reveal(AppV::tree_left);
    reveal(AppV::tree_right);
    reveal(AppV::tree_enter);
    lemma_move_cursor(a, 1);
    lemma_move_cursor(a, -1);
    lemma_focus(a, Area::History);
    lemma_focus(a, Area::Diff);
    if a.has_ui() && a.ui().cursor < a.rows().len() {
        let row = a.rows()[a.ui().cursor as int];
        if row.dir_path is Some {
            lemma_fold_in_order(a, row.dir_path->0, true);
            lemma_fold_in_order(a, row.dir_path->0, row.expanded);
            lemma_expand(a, row.dir_path->0);
        }
        lemma_parent_row(a.rows(), a.ui().cursor as int, row.depth);
        if parent_row(a.rows(), a.ui().cursor as int, row.depth) is Some {
            let i = parent_row(a.rows(), a.ui().cursor as int, row.depth)->0;
            lemma_put_cursor(a, i as usize);
        }
    }
}

proof fn lemma_next_file(rows: Seq<RowV>, from: int)
    ensures
        next_file(rows, from) matches Some(i) ==> from <= i < rows.len() && rows[i].file_idx is Some,
        next_file(rows, from) is None && from >= 0 ==> forall|k: int|
            from <= k < rows.len() ==> (#[trigger] rows[k]).file_idx is None,
        next_file(rows, from) matches Some(i) ==> forall|k: int|
            from <= k < i ==> (#[trigger] rows[k]).file_idx is None,
    decreases rows.len() - from,
{
    if 0 <= from < rows.len() && rows[from].file_idx is None {
        lemma_next_file(rows, from + 1);
    }
}

proof fn lemma_prev_file(rows: Seq<RowV>, from: int)
    ensures
        prev_file(rows, from) matches Some(i) ==> 0 <= i <= from && i < rows.len()
            && rows[i].file_idx is Some,
        prev_file(rows, from) matches Some(i) ==> forall|k: int|
            i < k <= from ==> (#[trigger] rows[k]).file_idx is None,
    decreases from + 1,
{
    if 0 <= from < rows.len() && rows[from].file_idx is None {
        lemma_prev_file(rows, from - 1);
    }
}

proof fn lemma_step_file(a: AppV, forward: bool)
    requires
        in_order(a),
    ensures
        in_order(a.step_file(forward)),
{
    reveal(AppV::step_file);
    reveal(AppV::with_scroll);
    if a.has_ui() {
        lemma_next_file(a.rows(), a.ui().cursor + 1);
        lemma_prev_file(a.rows(), a.ui().cursor - 1);
        let to = if forward {
            next_file(a.rows(), a.ui().cursor + 1)
        } else {
            prev_file(a.rows(), a.ui().cursor - 1)
        };
        if to is Some {
            lemma_put_cursor(a, to->0 as usize);
            let b = a.with_ui(WtUiV { cursor: to->0 as usize, ..a.ui() });
            lemma_same_place(b, b.with_scroll(0));
        }
    }
}

proof fn lemma_scroll(a: AppV, line: usize)
    requires
        in_order(a),
    ensures
        in_order(a.with_scroll(line)),
{
    reveal(AppV::with_scroll);
    lemma_same_place(a, a.with_scroll(line));
}

proof fn lemma_key_diff(a: AppV, k: KeyCode)
    requires
        in_order(a),
    ensures
        in_order(a.key_diff(k).0),
{
    reveal(AppV::key_diff);
    let at = a.diff_scroll as int;
    let page = a.diff_height / 2;
    lemma_scroll(a, least(at + 1, a.scroll_limit()) as usize);
    lemma_scroll(a, most(at - 1, 0) as usize);
    lemma_scroll(a, least(at + page, a.scroll_limit()) as usize);
    lemma_scroll(a, most(at - page, 0) as usize);
    lemma_step_file(a, true);
    lemma_step_file(a, false);
    lemma_focus(a, Area::Tree);
}

proof fn lemma_key_focused(a: AppV, k: KeyCode)
    requires
        in_order(a),
    ensures
        in_order(a.key_focused(k).0),
{
    reveal(AppV::key_focused);
    reveal(AppV::key_worktree);
    reveal(AppV::key_history);
    lemma_set_wt(a, a.wt_before());
    lemma_set_wt(a, a.wt_after());
    lemma_loading(a, most(a.hist() - 1, 0));
    lemma_loading(a, a.hist() + 1);
    lemma_focus(a, Area::History);
    lemma_focus(a, Area::Tree);
    lemma_focus(a, Area::Worktree);
    lemma_key_tree(a, k);
    lemma_key_diff(a, k);
}

/// Whatever key is pressed, the cursor stays on a row, the selected worktree stays one of the
/// worktrees, and the width of the tree stays within its limits.
pub proof fn law_keys_keep_order(a: AppV, key: KeyEvent, now: u64)
    requires
        in_order(a),
    ensures
        in_order(a.on_key(key, now).0),
{
    reveal(AppV::on_key);
    let b = a.with_status(None);
    assert(in_order(b)) by {
        reveal(AppV::with_status);
        lemma_same_place(a, b);
    }
    if b.filter_input {
        lemma_key_filter(b, key.code);
    } else if b.picker is Some {
        lemma_key_picker(b, key.code, b.picker->0);
    } else if b.key_control(key) is Some {
        lemma_key_control(b, key);
    } else if b.key_anywhere(key.code, now) is Some {
        lemma_key_anywhere(b, key.code, now);
    } else {
        lemma_key_focused(b, key.code);
    }
}

/// At the start all is in order.
pub proof fn law_start_in_order(cfg: ConfigV, repo: Seq<char>, base: Seq<char>)
    ensures
        in_order(started(cfg, repo, base)),
{
}

/// Installing files keeps all in order.
pub proof fn law_install_keeps_order(a: AppV, files: Seq<FileV>)
    requires
        in_order(a),
    ensures
        in_order(a.install_files(files)),
{
    reveal(AppV::install_files);
    reveal(AppV::with_files);
    reveal(AppV::with_scroll);
    lemma_clamp_in_order(a.with_files(files).with_scroll(0));
}

// ---- Refresh ---------------------------------------------------------------------

proof fn lemma_wt_index(wts: Seq<WtDataV>, path: Seq<char>)
    ensures
        match wt_index(wts, path) {
            Some(i) => 0 <= i < wts.len() && components(wts[i].info.path) == components(path),
            None => forall|i: int|
                0 <= i < wts.len() ==> components((#[trigger] wts[i]).info.path) != components(
                    path,
                ),
        },
    decreases wts.len(),
{
    if wts.len() > 0 {
        let t = wts.skip(1);
        lemma_wt_index(t, path);
        match wt_index(t, path) {
            Some(i) => {
                assert(wts[i + 1] == t[i]);
            },
            None => {
                assert forall|i: int|
                    0 <= i < wts.len() && components(wts[0].info.path) != components(
                        path,
                    ) implies components((#[trigger] wts[i]).info.path) != components(path) by {
                    if i > 0 {
                        assert(wts[i] == t[i - 1]);
                    }
                }
            },
        }
    }
}

proof fn lemma_first_changed(wts: Seq<WtDataV>)
    ensures
        first_changed(wts) matches Some(i) ==> 0 <= i < wts.len() && !wts[i].info.is_main
            && wts[i].files.len() > 0,
    decreases wts.len(),
{
    if wts.len() > 0 {
        let t = wts.skip(1);
        lemma_first_changed(t);
        if first_changed(t) is Some {
            assert(wts[first_changed(t)->0 + 1] == t[first_changed(t)->0]);
        }
    }
}

/// The worktrees and the selection among them after the first two steps of a refresh.
proof fn lemma_find_wt(a: AppV, path: Option<Seq<char>>)
    requires
        a.wts.len() <= usize::MAX,
    ensures
        wt_ok(a.find_wt(path)),
        a.find_wt(path).wts == a.wts,
        a.find_wt(path).ui_state == a.ui_state,
        a.find_wt(path).split_pct == a.split_pct,
        a.find_wt(path).initial_picked == a.initial_picked,
        a.find_wt(path).flat == a.flat,
        a.find_wt(path).filter == a.filter,
        path matches Some(p) ==> (wt_index(a.wts, p) matches Some(i) ==> a.find_wt(path).sel_wt
            == i),
{
    reveal(AppV::with_wt);
    if path is Some {
        lemma_wt_index(a.wts, path->0);
    }
}

proof fn lemma_pick_first(a: AppV)
    requires
        a.wts.len() <= usize::MAX,
        wt_ok(a),
    ensures
        wt_ok(a.pick_first()),
        a.pick_first().wts == a.wts,
        a.pick_first().split_pct == a.split_pct,
        a.initial_picked ==> a.pick_first() == a,
        a.pick_first().initial_picked,
{
    reveal(AppV::with_wt);
    reveal(AppV::with_picked);
    lemma_first_changed(a.wts);
}

proof fn lemma_row_found(rows: Seq<RowV>, files: Seq<FileV>, path: Seq<char>)
    ensures
        row_of_path(rows, files, path) matches Some(i) ==> 0 <= i < rows.len() && (
        rows[i].file_idx matches Some(k) && files[k as int].path == path),
    decreases rows.len(),
{
    if rows.len() > 0 {
        lemma_row_found(rows.drop_last(), files, path);
        if row_of_path(rows.drop_last(), files, path) is Some {
            let i = row_of_path(rows.drop_last(), files, path)->0;
            assert(rows[i] == rows.drop_last()[i]);
        }
    }
}

proof fn lemma_select(a: AppV, path: Seq<char>)
    requires
        a.rows().len() <= usize::MAX,
    ensures
        ({
            let b = a.select_file_by_path(path);
            &&& b.wts == a.wts
            &&& b.sel_wt == a.sel_wt
            &&& b.split_pct == a.split_pct
            &&& b.rows() == a.rows()
            &&& b.has_ui() == a.has_ui()
            &&& row_of_path(a.rows(), a.files(), path) is Some && a.has_ui() ==> (
            b.selected_file() matches Some(f) && f.path == path) && b.ui().cursor < b.rows().len()
        }),
{
    reveal(AppV::select_file_by_path);
    lemma_row_found(a.rows(), a.files(), path);
    if row_of_path(a.rows(), a.files(), path) is Some && a.has_ui() {
        let i = row_of_path(a.rows(), a.files(), path)->0;
        lemma_put_cursor(a, i as usize);
    }
}

/// After a refresh the selected worktree is one of the worktrees and the cursor is on a row, if
/// there are any; with the width of the tree within its limits, all is in order.
pub proof fn law_refresh_in_order(
    a: AppV,
    wts: Seq<WtDataV>,
    kept_wt: Option<Seq<char>>,
    kept_file: Option<Seq<char>>,
)
    requires
        wts.len() <= usize::MAX,
    ensures
        wt_ok(a.refreshed(wts, kept_wt, kept_file)),
        cursor_ok(a.refreshed(wts, kept_wt, kept_file)),
        split_ok(a) ==> in_order(a.refreshed(wts, kept_wt, kept_file)),
        a.refreshed(wts, kept_wt, kept_file).wts == wts,
{
    reveal(AppV::refreshed);
    let b = a.with_wts(wts);
    assert(b.wts == wts && b.split_pct == a.split_pct) by {
        reveal(AppV::with_wts);
    }
    let c = b.find_wt(kept_wt);
    lemma_find_wt(b, kept_wt);
    let d = c.pick_first();
    lemma_pick_first(c);
    let e = d.back_on(kept_file);
    assert(e.wts == wts && e.sel_wt == d.sel_wt && e.split_pct == d.split_pct) by {
        reveal(AppV::select_file_by_path);
        reveal(AppV::with_ui);
    }
    law_clamp(e);
}

/// Whether two states remember the same worktrees, with the same selections in their histories.
pub open spec fn same_histories(a: AppV, b: AppV) -> bool {
    &&& a.ui_state.dom() == b.ui_state.dom()
    &&& forall|k: Seq<Seq<char>>|
        a.ui_state.dom().contains(k) ==> (#[trigger] a.ui_state[k]).hist_sel
            == b.ui_state[k].hist_sel
}

/// Whether a state remembers a worktree, with a selection that is in its history.
pub open spec fn remembers(a: AppV, w: WtDataV) -> bool {
    let k = components(w.info.path);
    a.ui_state.dom().contains(k) && a.ui_state[k].hist_sel < 2 + w.commits.len()
}

proof fn lemma_sources_shown(a: AppV, wts: Seq<WtDataV>)
    ensures
        forall|i: int| 0 <= i < wts.len() ==> remembers(a.sources_shown(wts), #[trigger] wts[i]),
    decreases wts.len(),
{
    reveal(AppV::with_ui_at);
    if wts.len() > 0 {
        let t = wts.drop_last();
        lemma_sources_shown(a, t);
        let b = a.sources_shown(t);
        assert forall|i: int| 0 <= i < wts.len() implies remembers(
            a.sources_shown(wts),
            #[trigger] wts[i],
        ) by {
            if i < t.len() {
                assert(remembers(b, t[i]));
            }
        }
    }
}

proof fn lemma_cursor_keeps_histories(a: AppV, cursor: usize)
    requires
        a.has_ui(),
    ensures
        same_histories(a, a.with_ui(WtUiV { cursor, ..a.ui() })),
{
    reveal(AppV::with_ui);
    let b = a.with_ui(WtUiV { cursor, ..a.ui() });
    assert(a.ui_state.dom() =~= b.ui_state.dom());
}

proof fn lemma_back_keeps_histories(a: AppV, path: Option<Seq<char>>)
    ensures
        same_histories(a, a.back_on(path)),
{
    reveal(AppV::select_file_by_path);
    if path is Some && a.has_ui() {
        if let Some(i) = row_of_path(a.rows(), a.files(), path->0) {
            lemma_cursor_keeps_histories(a, i as usize);
        }
    }
}

proof fn lemma_clamp_keeps_histories(a: AppV)
    ensures
        same_histories(a, a.clamp_cursor()),
{
    reveal(AppV::clamp_cursor);
    if a.has_ui() {
        lemma_cursor_keeps_histories(a, 0);
        lemma_cursor_keeps_histories(a, (a.rows().len() - 1) as usize);
    }
}

/// Whether what has changed in a worktree is what `changes` says of its path, a source and the
/// commit to compare with: its files are those of the source that is shown, and its totals are
/// put together from them and from all changes.
pub open spec fn gathered(
    w: WtDataV,
    source: SourceV,
    changes: spec_fn(Seq<char>, SourceV, Seq<char>) -> Seq<FileV>,
) -> bool {
    let mb = base_commit(w.merge_base);
    &&& w.files == changes(w.info.path, source, mb)
    &&& w.all_totals == totals_of(
        all_changes(source, w.files, Some(changes(w.info.path, SourceV::All, mb))),
    )
}

/// A refresh of all worktrees: they are there in the order in which they were listed, one of them
/// is selected, with the cursor on a row if there are any, the selection in the history of each
/// is in that history, and the totals of each are those of all its changes, whatever source is
/// shown.
pub proof fn law_refresh(
    a: AppV,
    wts: Seq<WtDataV>,
    sources: Seq<SourceV>,
    changes: spec_fn(Seq<char>, SourceV, Seq<char>) -> Seq<FileV>,
    kept_wt: Option<Seq<char>>,
    kept_file: Option<Seq<char>>,
)
    requires
        0 < wts.len() <= usize::MAX,
        sources.len() == wts.len(),
        forall|i: int| 0 <= i < wts.len() ==> gathered(#[trigger] wts[i], sources[i], changes),
    ensures
        ({
            let b = a.sources_shown(wts).refreshed(wts, kept_wt, kept_file);
            &&& b.wts == wts
            &&& b.sel_wt < wts.len()
            &&& b.has_ui()
            &&& b.ui().cursor < b.rows().len() || (b.rows().len() == 0 && b.ui().cursor == 0)
            &&& forall|i: int| 0 <= i < wts.len() ==> remembers(b, #[trigger] wts[i])
            &&& forall|i: int|
                0 <= i < wts.len() ==> (#[trigger] wts[i]).all_totals == totals_of(
                    changes(wts[i].info.path, SourceV::All, base_commit(wts[i].merge_base)),
                )
        }),
{
    let s = a.sources_shown(wts);
    let b = s.refreshed(wts, kept_wt, kept_file);
    lemma_sources_shown(a, wts);
    law_refresh_in_order(s, wts, kept_wt, kept_file);
    assert(same_histories(s, b)) by {
        lemma_refreshed_histories(s, wts, kept_wt, kept_file);
    }
    assert forall|i: int| 0 <= i < wts.len() implies remembers(b, #[trigger] wts[i]) by {
        assert(remembers(s, wts[i]));
        assert(s.ui_state[components(wts[i].info.path)].hist_sel
            == b.ui_state[components(wts[i].info.path)].hist_sel);
    }
    assert(remembers(b, wts[b.sel_wt as int]));
    assert forall|i: int| 0 <= i < wts.len() implies (#[trigger] wts[i]).all_totals == totals_of(
        changes(wts[i].info.path, SourceV::All, base_commit(wts[i].merge_base)),
    ) by {
        assert(gathered(wts[i], sources[i], changes));
    }
}

proof fn lemma_refreshed_histories(
    a: AppV,
    wts: Seq<WtDataV>,
    kept_wt: Option<Seq<char>>,
    kept_file: Option<Seq<char>>,
)
    ensures
        same_histories(a, a.refreshed(wts, kept_wt, kept_file)),
{
    reveal(AppV::refreshed);
    let b = a.with_wts(wts);
    let c = b.find_wt(kept_wt);
    let d = c.pick_first();
    assert(d.ui_state == a.ui_state) by {
        reveal(AppV::with_wts);
        reveal(AppV::with_wt);
        reveal(AppV::with_picked);
    }
    let e = d.back_on(kept_file);
    lemma_back_keeps_histories(d, kept_file);
    lemma_clamp_keeps_histories(e);
    let f = e.clamp_cursor();
    assert forall|k: Seq<Seq<char>>| a.ui_state.dom().contains(k) implies (
    #[trigger] a.ui_state[k]).hist_sel == f.ui_state[k].hist_sel by {
        assert(d.ui_state[k].hist_sel == e.ui_state[k].hist_sel);
        assert(e.ui_state[k].hist_sel == f.ui_state[k].hist_sel);
    }
}

/// After the first refresh, the worktree that was selected stays selected as long as it is there.
pub proof fn law_refresh_keeps_worktree(
    a: AppV,
    wts: Seq<WtDataV>,
    path: Seq<char>,
    kept_file: Option<Seq<char>>,
)
    requires
        wts.len() <= usize::MAX,
        a.initial_picked,
        exists|i: int|
            0 <= i < wts.len() && components((#[trigger] wts[i]).info.path) == components(path),
    ensures
        a.refreshed(wts, Some(path), kept_file).kept_wt() matches Some(p) && components(p)
            == components(path),
{
    reveal(AppV::refreshed);
    let b = a.with_wts(wts);
    assert(b.wts == wts && b.initial_picked) by {
        reveal(AppV::with_wts);
    }
    lemma_wt_index(wts, path);
    lemma_find_wt(b, Some(path));
    let c = b.find_wt(Some(path));
    lemma_pick_first(c);
    let e = c.back_on(kept_file);
    assert(e.wts == wts && e.sel_wt == c.sel_wt) by {
        reveal(AppV::select_file_by_path);
        reveal(AppV::with_ui);
    }
    law_clamp(e);
}

/// After the first refresh, the cursor stays on the file that it was on, as long as the worktree
/// is there and a row shows the file.
pub proof fn law_refresh_keeps_file(
    a: AppV,
    wts: Seq<WtDataV>,
    path: Seq<char>,
    file: Seq<char>,
)
    requires
        wts.len() <= usize::MAX,
        a.initial_picked,
        ({
            let c = a.with_wts(wts).find_wt(Some(path));
            &&& c.has_ui()
            &&& c.rows().len() <= usize::MAX
            &&& row_of_path(c.rows(), c.files(), file) is Some
        }),
    ensures
        a.refreshed(wts, Some(path), Some(file)).kept_file() == Some(file),
{
    reveal(AppV::refreshed);
    let b = a.with_wts(wts);
    assert(b.wts == wts && b.initial_picked) by {
        reveal(AppV::with_wts);
    }
    let c = b.find_wt(Some(path));
    lemma_find_wt(b, Some(path));
    lemma_pick_first(c);
    let e = c.back_on(Some(file));
    lemma_select(c, file);
    law_clamp(e);
    assert(e.clamp_cursor() == e) by {
        reveal(AppV::clamp_cursor);
    }
}

/// What is selected in the history of a worktree after a refresh is in that history.
pub proof fn law_history_in_range(a: AppV, path: Seq<char>, history: Seq<CommitV>)
    ensures
        a.ui_for(path, history).hist_sel < 2 + history.len(),
{
}

/// What is selected in the history is in the history.
pub proof fn law_set_hist_in_range(a: AppV, i: int)
    requires
        0 <= i,
        a.has_ui(),
        a.hist() < a.hist_len(),
    ensures
        a.set_hist(i).0.hist() < a.set_hist(i).0.hist_len(),
{
    reveal(AppV::set_hist);
    reveal(AppV::with_ui);
}

// ---- Following -------------------------------------------------------------------

/// Following picks a file that still exists, and none of those was modified later.
pub proof fn law_latest(files: Seq<FileV>, mtimes: Seq<Option<i128>>)
    ensures
        match latest(files, mtimes) {
            Some((p, t)) => {
                &&& exists|i: int|
                    #![trigger files[i]]
                    0 <= i < files.len() && files[i].path == p && files[i].status
                        != FileStatus::Deleted && mtime_at(mtimes, i) == Some(t)
                &&& forall|i: int|
                    0 <= i < files.len() && (#[trigger] files[i]).status != FileStatus::Deleted ==> (
                    mtime_at(mtimes, i) matches Some(u) ==> u <= t)
            },
            None => forall|i: int|
                0 <= i < files.len() && (#[trigger] files[i]).status != FileStatus::Deleted
                    ==> mtime_at(mtimes, i) is None,
        },
    decreases files.len(),
{
    if files.len() > 0 {
        let head = files.drop_last();
        let last = files.len() - 1;
        law_latest(head, mtimes);
        assert forall|i: int| 0 <= i < last implies #[trigger] files[i] == head[i] by {
        }
        match latest(head, mtimes) {
            Some((p, t)) => {
                let i = choose|i: int|
                    #![trigger head[i]]
                    0 <= i < head.len() && head[i].path == p && head[i].status
                        != FileStatus::Deleted && mtime_at(mtimes, i) == Some(t);
                assert(files[i] == head[i]);
            },
            None => {},
        }
        assert(files[last] == files.last());
    }
}

/// A file that was followed and has not been modified since is not opened again.
pub proof fn law_no_news_twice(a: AppV, path: Seq<char>, mtime: i128)
    ensures
        !a.with_followed(Some((path, mtime))).is_news(path, mtime),
{
    reveal(AppV::with_followed);
}

// ---- Keys that undo keys ---------------------------------------------------------

/// A plain key.
pub open spec fn plain_key(c: char) -> KeyEvent {
    KeyEvent { code: KeyCode::Char(c), ctrl: false }
}

/// A key with control.
pub open spec fn control_key(c: char) -> KeyEvent {
    KeyEvent { code: KeyCode::Char(c), ctrl: true }
}

/// Whether keys do what they usually do: no filter is typed and no opener is picked.
pub open spec fn at_rest(a: AppV) -> bool {
    !a.filter_input && a.picker is None
}

/// Pressing `s` twice leaves the state as it was, but for a message.
pub proof fn law_sides_twice(a: AppV, now: u64, later: u64)
    requires
        at_rest(a),
    ensures
        a.on_key(plain_key('s'), now).0.on_key(plain_key('s'), later).0 == a.with_status(None),
{
    reveal(AppV::on_key);
    reveal(AppV::key_control);
    reveal(AppV::key_anywhere);
    reveal(AppV::with_status);
    reveal(AppV::with_sides);
}

/// Control with `k` takes the focus back from where control with `j` took it, but for the diff,
/// below which there is nothing.
pub proof fn law_focus_down_and_up(a: AppV, now: u64, later: u64)
    requires
        at_rest(a),
        a.focus != Area::Diff,
        a.narrow_diff == (a.narrow && a.focus == Area::Diff),
    ensures
        a.on_key(control_key('j'), now).0.on_key(control_key('k'), later).0 == a.with_status(None),
{
    reveal(AppV::on_key);
    reveal(AppV::key_control);
    reveal(AppV::with_status);
    reveal(AppV::focus_on);
    reveal(AppV::sync_narrow_diff);
}

/// Stepping to another file leads to the nearest row that shows one, in the direction asked for.
pub proof fn law_step_to_nearest_file(a: AppV, forward: bool)
    requires
        a.has_ui(),
        a.rows().len() <= usize::MAX,
    ensures
        ({
            let b = a.step_file(forward);
            &&& b.rows() == a.rows()
            &&& b != a ==> b.ui().cursor < b.rows().len()
                && b.rows()[b.ui().cursor as int].file_idx is Some
            &&& forward && b.ui().cursor != a.ui().cursor ==> b.ui().cursor > a.ui().cursor
                && forall|k: int|
                a.ui().cursor < k < b.ui().cursor ==> (#[trigger] a.rows()[k]).file_idx is None
            &&& !forward && b.ui().cursor != a.ui().cursor ==> b.ui().cursor < a.ui().cursor
                && forall|k: int|
                b.ui().cursor < k < a.ui().cursor ==> (#[trigger] a.rows()[k]).file_idx is None
        }),
{
    reveal(AppV::step_file);
    lemma_next_file(a.rows(), a.ui().cursor + 1);
    lemma_prev_file(a.rows(), a.ui().cursor - 1);
    let to = if forward {
        next_file(a.rows(), a.ui().cursor + 1)
    } else {
        prev_file(a.rows(), a.ui().cursor - 1)
    };
    if to is Some {
        lemma_put_cursor(a, to->0 as usize);
        let b = a.with_ui(WtUiV { cursor: to->0 as usize, ..a.ui() });
        assert(same_place(b, b.with_scroll(0))) by {
            reveal(AppV::with_scroll);
        }
        lemma_same_place(b, b.with_scroll(0));
    }
}

/// In the diff, keys that go down never go up, and do not go past the end.
pub proof fn law_scroll_down(a: AppV, k: KeyCode)
    requires
        is_down(k) || k == KeyCode::PageDown || k == KeyCode::Char('d'),
    ensures
        a.diff_scroll <= a.key_diff(k).0.diff_scroll,
        a.diff_scroll <= a.diff_max_scroll ==> a.key_diff(k).0.diff_scroll <= a.diff_max_scroll,
{
    reveal(AppV::key_diff);
    reveal(AppV::with_scroll);
}

// ---- Drawing ---------------------------------------------------------------------

/// Whether a state is another one as far as drawing leaves it alone.
pub open spec fn only_drawn(a: AppV, b: AppV) -> bool {
    &&& b.rows() == a.rows()
    &&& b.selected_file() == a.selected_file()
    &&& b.wts == a.wts
    &&& b.sel_wt == a.sel_wt
    &&& b.focus == a.focus
    &&& b.hist() == a.hist()
    &&& b.split_pct == a.split_pct
    &&& in_order(a) ==> in_order(b)
}

proof fn lemma_tree_drawn(a: AppV, rect: Rect)
    ensures
        only_drawn(a, a.tree_drawn(rect)),
{
    reveal(AppV::tree_drawn);
    reveal(AppV::with_tree_height);
    reveal(AppV::with_diff_height);
    reveal(AppV::with_ui);
    reveal(AppV::rows);
}

proof fn lemma_diff_drawn(a: AppV, rect: Rect, doc: Option<DocV>)
    ensures
        only_drawn(a, a.diff_drawn(rect, doc)),
{
    reveal(AppV::diff_drawn);
    reveal(AppV::with_shown_sides);
    reveal(AppV::with_diff_height);
    reveal(AppV::with_max_scroll);
    reveal(AppV::with_scroll);
    reveal(AppV::with_offsets);
    reveal(AppV::with_layout_key);
    reveal(AppV::lay_out);
    reveal(AppV::settle);
    let b = a.diff_drawn(rect, doc);
    assert(same_place(a, b));
    assert(b.focus == a.focus && b.split_pct == a.split_pct);
    lemma_same_place(a, b);
}

proof fn lemma_sized(a: AppV, width: u16)
    ensures
        only_drawn(a, a.sized(width)),
{
    reveal(AppV::sized);
    reveal(AppV::with_narrow);
    reveal(AppV::with_narrow_diff);
    let b = a.sized(width);
    assert(same_place(a, b));
    assert(b.focus == a.focus && b.split_pct == a.split_pct);
    lemma_same_place(a, b);
}

proof fn lemma_diff_height(a: AppV, h: usize)
    ensures
        only_drawn(a, a.with_diff_height(h)),
{
    reveal(AppV::with_diff_height);
    lemma_same_place(a, a.with_diff_height(h));
}

/// Drawing changes only what is scrolled and measured: the same worktree, source and file are
/// selected afterwards, and all stays in order.
pub proof fn law_drawing_keeps_selection(a: AppV, width: u16, body: Body, doc: Option<DocV>)
    ensures
        only_drawn(a, a.sized(width)),
        only_drawn(a, a.body_drawn(body, doc)),
{
    lemma_sized(a, width);
    reveal(AppV::body_drawn);
    match body {
        Body::Diff(r) => {
            lemma_diff_drawn(a, r, doc);
        },
        Body::Tree(r) => {
            let h = minus16(r.height, 3) as usize;
            lemma_diff_height(a, h);
            lemma_tree_drawn(a.with_diff_height(h), r);
        },
        Body::Both(t, d) => {
            lemma_tree_drawn(a, t);
            lemma_diff_drawn(a.tree_drawn(t), d, doc);
        },
    }
}

/// A screen that is not narrow never has the diff alone.
pub proof fn law_wide_shows_both(a: AppV, width: u16)
    requires
        width >= a.cfg.narrow_cols,
    ensures
        !a.sized(width).narrow,
        !a.sized(width).narrow_diff,
{
    reveal(AppV::sized);
    reveal(AppV::with_narrow);
    reveal(AppV::with_narrow_diff);
}

} // verus!
