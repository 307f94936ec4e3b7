//! What a refresh selects, what is followed, and what is opened.

use crate::app::{row_of_path, AppV, WtDataV, WtUiV};
use crate::config::{names_of, opener_named, opener_place, with_opener, OpenerV};
use crate::git::{totals_of, CommitV, FileStatus, FileV, SourceV};
use crate::key_laws::{at_row, selects_entry, told};
use crate::keys::{loading, ActionV};
use crate::opener::command;
use crate::paths::{components, joined_path};
use crate::refresh::{all_changes, first_changed, latest, mtime_at, wt_index};
use crate::text::{before, lemma_before_total, lemma_before_trans};
use crate::tree::RowV;
use vstd::prelude::*;

verus! {

// ---- Refreshing ------------------------------------------------------------------

/// Whether a worktree other than the main checkout has changes.
pub open spec fn worth_a_look(w: WtDataV) -> bool {
    !w.info.is_main && w.files.len() > 0
}

proof fn lemma_first_changed(wts: Seq<WtDataV>)
    ensures
        match first_changed(wts) {
            Some(i) => 0 <= i < wts.len() && worth_a_look(wts[i]) && forall|k: int|
                0 <= k < i ==> !worth_a_look(#[trigger] wts[k]),
            None => forall|k: int| 0 <= k < wts.len() ==> !worth_a_look(#[trigger] wts[k]),
        },
    decreases wts.len(),
{
    if wts.len() > 0 && !worth_a_look(wts[0]) {
        let t = wts.skip(1);
        lemma_first_changed(t);
        assert forall|k: int| 1 <= k < wts.len() implies #[trigger] wts[k] == t[k - 1] by {}
    }
}

/// The first time that worktrees are there, a clean first one gives way to the first other one
/// with changes, if there is one. Nothing else changes, and it happens once.
pub proof fn law_first_choice(a: AppV)
    requires
        a.wts.len() <= usize::MAX,
    ensures
        ({
            let b = a.pick_first();
            let moves = !a.initial_picked && a.sel_wt == 0 && a.wts.len() > 0
                && a.wts[0].files.len() == 0;
            &&& b == (AppV { initial_picked: true, sel_wt: b.sel_wt, ..a })
            &&& !moves ==> b.sel_wt == a.sel_wt
            &&& moves && (exists|i: int| 0 <= i < a.wts.len() && worth_a_look(#[trigger] a.wts[i]))
                ==> b.sel_wt < a.wts.len() && worth_a_look(a.wts[b.sel_wt as int])
            &&& moves && !(exists|i: int|
                0 <= i < a.wts.len() && worth_a_look(#[trigger] a.wts[i])) ==> b.sel_wt == 0
            &&& moves ==> forall|k: int| 0 <= k < b.sel_wt ==> !worth_a_look(#[trigger] a.wts[k])
        }),
{
    reveal(AppV::with_picked);
    reveal(AppV::with_wt);
    lemma_first_changed(a.wts);
}

proof fn lemma_wt_index_is_first(wts: Seq<WtDataV>, path: Seq<char>)
    ensures
        match wt_index(wts, path) {
            Some(i) => 0 <= i < wts.len() && components(wts[i].info.path) == components(path)
                && forall|k: int|
                0 <= k < i ==> components((#[trigger] wts[k]).info.path) != components(path),
            None => forall|k: int|
                0 <= k < wts.len() ==> components((#[trigger] wts[k]).info.path) != components(
                    path,
                ),
        },
    decreases wts.len(),
{
    if wts.len() > 0 && components(wts[0].info.path) != components(path) {
        let t = wts.skip(1);
        lemma_wt_index_is_first(t, path);
        assert forall|k: int| 1 <= k < wts.len() implies #[trigger] wts[k] == t[k - 1] by {}
    }
}

/// A worktree is found again by its path, wherever it is in the list now. Where it is gone, the
/// place in the list stays, or the first one is selected where there is no such place.
pub proof fn law_found_again(a: AppV, path: Seq<char>, i: int)
    requires
        a.wts.len() <= usize::MAX,
        0 <= i < a.wts.len(),
        forall|k: int|
            0 <= k < a.wts.len() && k != i ==> components((#[trigger] a.wts[k]).info.path)
                != components(path),
    ensures
        components(a.wts[i].info.path) == components(path) ==> a.find_wt(Some(path)) == (AppV {
            sel_wt: i as usize,
            ..a
        }),
        components(a.wts[i].info.path) != components(path) ==> a.find_wt(Some(path)) == (AppV {
            sel_wt: if a.sel_wt < a.wts.len() {
                a.sel_wt
            } else {
                0
            },
            ..a
        }),
{
    reveal(AppV::with_wt);
    lemma_wt_index_is_first(a.wts, path);
}

/// What is remembered of a worktree stays over a refresh, but for a selection in the history that
/// is no longer there, which falls back to all changes. Of a new worktree nothing is remembered.
pub proof fn law_remembered(a: AppV, path: Seq<char>, history: Seq<CommitV>)
    ensures
        ({
            let u = a.ui_for(path, history);
            let known = a.ui_state.dom().contains(components(path));
            let old = a.ui_state[components(path)];
            &&& known && old.hist_sel < history.len() + 2 ==> u == old
            &&& known && old.hist_sel >= history.len() + 2 ==> u == (WtUiV { hist_sel: 0, ..old })
            &&& !known ==> u.hist_sel == 0 && u.cursor == 0 && u.scroll == 0
                && u.collapsed == Set::<Seq<char>>::empty()
        }),
{
}

proof fn lemma_others_remembered(a: AppV, wts: Seq<WtDataV>, key: Seq<Seq<char>>)
    requires
        forall|k: int| 0 <= k < wts.len() ==> components((#[trigger] wts[k]).info.path) != key,
    ensures
        ({
            let b = a.sources_shown(wts);
            &&& b == (AppV { ui_state: b.ui_state, ..a })
            &&& b.ui_state.dom().contains(key) == a.ui_state.dom().contains(key)
            &&& b.ui_state[key] == a.ui_state[key]
        }),
    decreases wts.len(),
{
    reveal(AppV::with_ui_at);
    if wts.len() > 0 {
        let h = wts.drop_last();
        assert forall|k: int| 0 <= k < h.len() implies components((#[trigger] h[k]).info.path)
            != key by {
            assert(h[k] == wts[k]);
        }
        lemma_others_remembered(a, h, key);
        assert(components(wts[wts.len() - 1].info.path) != key);
    }
}

/// After a refresh every worktree is remembered: as before where it was, and anew where it was not.
/// What is remembered of worktrees that are gone stays.
pub proof fn law_every_worktree_remembered(
    a: AppV,
    wts: Seq<WtDataV>,
    i: int,
    gone: Seq<Seq<char>>,
)
    requires
        0 <= i < wts.len(),
        forall|j: int, k: int|
            0 <= j < k < wts.len() ==> components((#[trigger] wts[j]).info.path) != components(
                (#[trigger] wts[k]).info.path,
            ),
        forall|k: int| 0 <= k < wts.len() ==> components((#[trigger] wts[k]).info.path) != gone,
    ensures
        ({
            let b = a.sources_shown(wts);
            let key = components(wts[i].info.path);
            &&& b == (AppV { ui_state: b.ui_state, ..a })
            &&& b.ui_state.dom().contains(key)
            &&& b.ui_state[key] == a.ui_for(wts[i].info.path, wts[i].commits)
            &&& b.ui_state.dom().contains(gone) == a.ui_state.dom().contains(gone)
            &&& b.ui_state[gone] == a.ui_state[gone]
        }),
    decreases wts.len(),
{
    reveal(AppV::with_ui_at);
    lemma_others_remembered(a, wts, gone);
    let h = wts.drop_last();
    let l = wts.last();
    let key = components(wts[i].info.path);
    assert(wts[wts.len() - 1] == l);
    assert forall|k: int| 0 <= k < h.len() implies #[trigger] h[k] == wts[k] by {}
    if i < h.len() {
        assert forall|j: int, k: int| 0 <= j < k < h.len() implies components(
            (#[trigger] h[j]).info.path,
        ) != components((#[trigger] h[k]).info.path) by {
            assert(h[j] == wts[j] && h[k] == wts[k]);
        }
        assert forall|k: int| 0 <= k < h.len() implies components((#[trigger] h[k]).info.path)
            != gone by {
            assert(h[k] == wts[k]);
        }
        law_every_worktree_remembered(a, h, i, gone);
        assert(components(wts[i].info.path) != components(wts[wts.len() - 1].info.path));
    } else {
        assert forall|k: int| 0 <= k < h.len() implies components((#[trigger] h[k]).info.path)
            != key by {
            assert(h[k] == wts[k]);
        }
        lemma_others_remembered(a, h, key);
    }
}

proof fn lemma_row_of_path(rows: Seq<RowV>, files: Seq<FileV>, path: Seq<char>)
    ensures
        match row_of_path(rows, files, path) {
            Some(i) => 0 <= i < rows.len() && rows[i].file_idx is Some
                && files[rows[i].file_idx->0 as int].path == path && forall|k: int|
                0 <= k < i && (#[trigger] rows[k]).file_idx is Some
                    ==> files[rows[k].file_idx->0 as int].path != path,
            None => forall|k: int|
                0 <= k < rows.len() && (#[trigger] rows[k]).file_idx is Some
                    ==> files[rows[k].file_idx->0 as int].path != path,
        },
    decreases rows.len(),
{
    if rows.len() > 0 {
        let h = rows.drop_last();
        lemma_row_of_path(h, files, path);
        assert forall|k: int| 0 <= k < h.len() implies #[trigger] rows[k] == h[k] by {}
    }
}

/// Whether a row shows the file with a path.
pub open spec fn row_shows(a: AppV, k: int, path: Seq<char>) -> bool {
    &&& 0 <= k < a.rows().len()
    &&& a.rows()[k].file_idx is Some
    &&& a.files()[a.rows()[k].file_idx->0 as int].path == path
}

/// The cursor goes to a row that shows the file with a path, and nothing else changes.
pub proof fn law_cursor_on_file(a: AppV, path: Seq<char>, k: int)
    requires
        a.has_ui(),
        a.rows().len() <= usize::MAX,
        row_shows(a, k, path),
    ensures
        ({
            let b = a.select_file_by_path(path);
            b == at_row(a, b.ui().cursor as int) && row_shows(a, b.ui().cursor as int, path)
        }),
{
    lemma_row_of_path(a.rows(), a.files(), path);
    let b = a.select_file_by_path(path);
    let i = row_of_path(a.rows(), a.files(), path)->0;
    assert(a.rows()[k].file_idx is Some);
    assert(b == a.with_ui(WtUiV { cursor: i as usize, ..a.ui() })) by {
        reveal(AppV::select_file_by_path);
    }
    assert(b == at_row(a, i)) by {
        reveal(AppV::with_ui);
    }
    assert(b.ui().cursor == i);
}

/// The cursor stays where no row shows the file.
pub proof fn law_cursor_stays(a: AppV, path: Seq<char>)
    requires
        forall|k: int| !#[trigger] row_shows(a, k, path),
    ensures
        a.select_file_by_path(path) == a,
{
    reveal(AppV::select_file_by_path);
    lemma_row_of_path(a.rows(), a.files(), path);
    if row_of_path(a.rows(), a.files(), path) is Some {
        assert(row_shows(a, row_of_path(a.rows(), a.files(), path)->0, path));
    }
}

/// The totals of a worktree are those of all its changes, whatever is selected in its history.
pub proof fn law_totals_of_all(files: Seq<FileV>, all: Seq<FileV>, sha: Seq<char>)
    ensures
        totals_of(all_changes(SourceV::All, files, None)) == totals_of(files),
        totals_of(all_changes(SourceV::Current, files, Some(all))) == totals_of(all),
        totals_of(all_changes(SourceV::Commit(sha), files, Some(all))) == totals_of(all),
{
}

// ---- Following -------------------------------------------------------------------

/// Of several files that were modified last at the same time, the first one listed is followed.
pub proof fn law_first_of_the_latest(files: Seq<FileV>, mtimes: Seq<Option<i128>>, i: int)
    requires
        0 <= i < files.len(),
        files[i].status != FileStatus::Deleted,
        mtime_at(mtimes, i) is Some,
        forall|k: int|
            0 <= k < i && (#[trigger] files[k]).status != FileStatus::Deleted ==> (mtime_at(
                mtimes,
                k,
            ) matches Some(u) ==> u < mtime_at(mtimes, i)->0),
        forall|k: int|
            i < k < files.len() && (#[trigger] files[k]).status != FileStatus::Deleted ==> (
            mtime_at(mtimes, k) matches Some(u) ==> u <= mtime_at(mtimes, i)->0),
    ensures
        latest(files, mtimes) == Some((files[i].path, mtime_at(mtimes, i)->0)),
    decreases files.len(),
{
    let h = files.drop_last();
    if i < h.len() {
        assert forall|k: int| 0 <= k < h.len() implies #[trigger] h[k] == files[k] by {}
        assert forall|k: int| 0 <= k < i && (#[trigger] h[k]).status != FileStatus::Deleted implies (
        mtime_at(mtimes, k) matches Some(u) ==> u < mtime_at(mtimes, i)->0) by {
            assert(files[k].status == h[k].status);
        }
        assert forall|k: int|
            i < k < h.len() && (#[trigger] h[k]).status != FileStatus::Deleted implies (mtime_at(
            mtimes,
            k,
        ) matches Some(u) ==> u <= mtime_at(mtimes, i)->0) by {
            assert(files[k].status == h[k].status);
        }
        law_first_of_the_latest(h, mtimes, i);
        assert(files.last() == files[files.len() - 1]);
    } else {
        lemma_latest_before(h, mtimes, mtime_at(mtimes, i)->0);
        assert(files.last() == files[i]);
    }
}

proof fn lemma_latest_before(h: Seq<FileV>, mtimes: Seq<Option<i128>>, t: i128)
    requires
        forall|k: int|
            0 <= k < h.len() && (#[trigger] h[k]).status != FileStatus::Deleted ==> (mtime_at(
                mtimes,
                k,
            ) matches Some(u) ==> u < t),
    ensures
        latest(h, mtimes) matches Some((p, u)) ==> u < t,
    decreases h.len(),
{
    if h.len() > 0 {
        let g = h.drop_last();
        assert forall|k: int| 0 <= k < g.len() && (#[trigger] g[k]).status != FileStatus::Deleted implies (
        mtime_at(mtimes, k) matches Some(u) ==> u < t) by {
            assert(h[k].status == g[k].status);
        }
        lemma_latest_before(g, mtimes, t);
        assert(h.last() == h[h.len() - 1]);
    }
}

/// A file is news where none was followed before, where it is another file, or where it was
/// modified later; not where it is the same at the same time.
pub proof fn law_news(a: AppV, path: Seq<char>, mtime: i128, before_path: Seq<char>, then: i128)
    ensures
        (AppV { last_followed: None, ..a }).is_news(path, mtime),
        ({
            let b = AppV { last_followed: Some((before_path, then)), ..a };
            b.is_news(path, mtime) == (components(path) != components(before_path) || then < mtime)
        }),
{
}

/// Following goes to what is not committed, or to all changes where all is committed, and asks
/// for the files of that if it was not selected.
pub proof fn law_follow_selects(a: AppV, uncommitted: bool)
    requires
        a.has_ui(),
    ensures
        ({
            let want: int = if uncommitted {
                1
            } else {
                0
            };
            let r = loading(a.follow_hist(uncommitted));
            &&& a.ui().hist_sel != want ==> selects_entry(a, want, r)
            &&& a.ui().hist_sel == want ==> r == (a, ActionV::Nothing)
        }),
{
    reveal(AppV::set_hist);
    reveal(AppV::with_ui);
}

// ---- Opening ---------------------------------------------------------------------

/// A file can be opened where one is selected that was not deleted. Otherwise a message says why
/// it cannot.
pub proof fn law_open_check(a: AppV, now: u64)
    requires
        a.sel_wt < a.wts.len(),
    ensures
        a.selected_file() is None ==> a.open_check(now) == (told(a, "no file selected"@, now), false),
        a.selected_file() is Some && a.selected_file()->0.status == FileStatus::Deleted
            ==> a.open_check(now) == (told(a, "cannot open a deleted file"@, now), false),
        a.selected_file() is Some && a.selected_file()->0.status != FileStatus::Deleted
            ==> a.open_check(now) == (a, true),
{
    reveal(AppV::with_status);
}

proof fn lemma_named(v: Seq<OpenerV>, name: Seq<char>, i: int)
    requires
        0 <= i < v.len(),
        v[i].0 == name,
        forall|k: int| 0 <= k < i ==> (#[trigger] v[k]).0 != name,
    ensures
        opener_named(v, name) == Some(v[i].1),
    decreases i,
{
    if i > 0 {
        let t = v.skip(1);
        assert forall|k: int| 0 <= k < i - 1 implies (#[trigger] t[k]).0 != name by {
            assert(t[k] == v[k + 1]);
        }
        assert(v[0].0 != name);
        lemma_named(t, name, i - 1);
    }
}

proof fn lemma_not_named(v: Seq<OpenerV>, name: Seq<char>)
    requires
        forall|k: int| 0 <= k < v.len() ==> (#[trigger] v[k]).0 != name,
    ensures
        opener_named(v, name) is None,
    decreases v.len(),
{
    if v.len() > 0 {
        let t = v.skip(1);
        assert forall|k: int| 0 <= k < t.len() implies (#[trigger] t[k]).0 != name by {
            assert(t[k] == v[k + 1]);
        }
        assert(v[0].0 != name);
        lemma_not_named(t, name);
    }
}

/// The command of an opener is filled in with the selected file in its worktree. The opener is
/// the one with the name asked for, or the default one where no name is.
pub proof fn law_open_with(
    a: AppV,
    name: Option<Seq<char>>,
    i: int,
    line: Option<u32>,
    home: Option<Seq<char>>,
    now: u64,
)
    requires
        a.selected_file() is Some,
        0 <= i < a.cfg.openers.len(),
        name is Some ==> a.cfg.openers[i].0 == name->0,
        name is None ==> a.cfg.openers[i].0 == a.cfg.default,
        forall|k: int| 0 <= k < i ==> (#[trigger] a.cfg.openers[k]).0 != a.cfg.openers[i].0,
    ensures
        a.cfg.openers[i].1.len() > 0 ==> a.open_command(name, line, home, now) == (
            a,
            Some(
                command(
                    a.cfg.openers[i].1,
                    home,
                    joined_path(a.wt_path(), a.selected_file()->0.path),
                    line,
                    a.wt_path(),
                    a.repo,
                ),
            ),
        ),
        a.cfg.openers[i].1.len() == 0 ==> a.open_command(name, line, home, now) == (
            told(a, "opener cmd is empty"@, now),
            None::<Seq<Seq<char>>>,
        ),
{
    reveal(AppV::with_status);
    lemma_named(a.cfg.openers, a.cfg.openers[i].0, i);
}

/// Where no opener has the name, a message says so.
pub proof fn law_no_such_opener(
    a: AppV,
    name: Seq<char>,
    line: Option<u32>,
    home: Option<Seq<char>>,
    now: u64,
)
    requires
        a.selected_file() is Some,
        forall|k: int| 0 <= k < a.cfg.openers.len() ==> (#[trigger] a.cfg.openers[k]).0 != name,
    ensures
        a.open_command(Some(name), line, home, now) == (
            told(a, "no opener configured (set [open] in ~/.config/wtd/config.toml)"@, now),
            None::<Seq<Seq<char>>>,
        ),
{
    reveal(AppV::with_status);
    lemma_not_named(a.cfg.openers, name);
}

/// An error is said. That a file was opened is said where that is wanted, and nothing otherwise.
pub proof fn law_opened(a: AppV, message: Seq<char>, error: Seq<char>, report: bool, now: u64)
    ensures
        a.opened(message, Some(error), report, now) == told(a, error, now),
        a.opened(message, None, true, now) == told(a, message, now),
        a.opened(message, None, false, now) == a,
{
    reveal(AppV::with_status);
}

/// Whether openers stand in the order of their names.
pub open spec fn by_name(v: Seq<OpenerV>) -> bool {
    forall|i: int, j: int| 0 <= i < j < v.len() ==> before((#[trigger] v[i]).0, (#[trigger] v[j]).0)
}

proof fn lemma_place_of(v: Seq<OpenerV>, name: Seq<char>)
    requires
        by_name(v),
    ensures
        0 <= opener_place(v, name) <= v.len(),
        forall|k: int| 0 <= k < opener_place(v, name) ==> before((#[trigger] v[k]).0, name),
        forall|k: int| opener_place(v, name) <= k < v.len() ==> !before((#[trigger] v[k]).0, name),
    decreases v.len(),
{
    if v.len() > 0 {
        let t = v.skip(1);
        assert forall|k: int| 1 <= k < v.len() implies #[trigger] v[k] == t[k - 1] by {}
        if before(v[0].0, name) {
            assert forall|i: int, j: int| 0 <= i < j < t.len() implies before(
                (#[trigger] t[i]).0,
                (#[trigger] t[j]).0,
            ) by {
                assert(t[i] == v[i + 1] && t[j] == v[j + 1]);
            }
            lemma_place_of(t, name);
        } else {
            assert forall|k: int| 0 <= k < v.len() implies !before((#[trigger] v[k]).0, name) by {
                if k > 0 && before(v[k].0, name) {
                    assert(before(v[0].0, v[k].0));
                    lemma_before_trans(v[0].0, v[k].0, name);
                }
            }
        }
    }
}

/// Putting an opener in keeps the others as they are and all in the order of their names.
pub proof fn law_openers_in_order(v: Seq<OpenerV>, name: Seq<char>, cmd: Seq<Seq<char>>)
    requires
        by_name(v),
    ensures
        ({
            let r = with_opener(v, name, cmd);
            &&& by_name(r)
            &&& forall|e: OpenerV|
                #![trigger r.contains(e)]
                r.contains(e) <==> e == (name, cmd) || (v.contains(e) && e.0 != name)
            &&& names_of(r).len() == r.len()
        }),
{
    let r = with_opener(v, name, cmd);
    let p = opener_place(v, name);
    lemma_place_of(v, name);
    let here = p < v.len() && v[p].0 == name;
    assert forall|k: int| p <= k < v.len() && (here ==> p < k) implies before(
        name,
        (#[trigger] v[k]).0,
    ) by {
        lemma_before_total(v[k].0, name);
        if v[k].0 == name && !here {
            assert(p < k);
            assert(before(v[p].0, v[k].0));
            assert(!before(v[p].0, name));
        }
        if v[k].0 == name && here {
            assert(before(v[p].0, v[k].0));
        }
    }
    assert forall|i: int, j: int| 0 <= i < j < r.len() implies before(
        (#[trigger] r[i]).0,
        (#[trigger] r[j]).0,
    ) by {
        let iv = if here || i < p {
            i
        } else {
            i - 1
        };
        let jv = if here || j < p {
            j
        } else {
            j - 1
        };
        if i != p {
            assert(r[i] == v[iv]);
        }
        if j != p {
            assert(r[j] == v[jv]);
        }
    }
    assert forall|e: OpenerV| #![trigger r.contains(e)] r.contains(e) <==> e == (name, cmd) || (
    v.contains(e) && e.0 != name) by {
        if r.contains(e) {
            let i = choose|i: int| 0 <= i < r.len() && r[i] == e;
            if i != p {
                let iv = if here || i < p {
                    i
                } else {
                    i - 1
                };
                assert(v[iv] == e);
                lemma_before_irreflexive(name);
            }
        }
        if e == (name, cmd) {
            assert(r[p] == e);
        } else if v.contains(e) && e.0 != name {
            let k = choose|k: int| 0 <= k < v.len() && v[k] == e;
            let kr = if here || k < p {
                k
            } else {
                k + 1
            };
            assert(r[kr] == e);
        }
    }
}

proof fn lemma_before_irreflexive(s: Seq<char>)
    ensures
        !before(s, s),
    decreases s.len(),
{
    if s.len() > 0 {
        lemma_before_irreflexive(s.skip(1));
    }
}

} // verus!
