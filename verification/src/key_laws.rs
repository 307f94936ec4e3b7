//! What each key does, told by what it leaves changed.

use crate::app::{next_file, prev_file, AppV, Area, WtUiV};
use crate::git::SourceV;
use crate::keys::{parent_row, ActionV, KeyCode, KeyEvent};
use crate::laws::at_rest;
use crate::tree::RowV;
use vstd::prelude::*;

verus! {

/// A state without a message.
pub open spec fn quiet(a: AppV) -> AppV {
    AppV { status: None, ..a }
}

/// A state with a message.
pub open spec fn told(a: AppV, msg: Seq<char>, now: u64) -> AppV {
    AppV { status: Some((msg, now)), ..a }
}

/// Whether a key means the same with control and without it.
pub open spec fn means_itself(key: KeyEvent) -> bool {
    if key.ctrl {
        key.code != KeyCode::Char('c') && key.code != KeyCode::Char('j') && key.code
            != KeyCode::Char('k') && key.code != KeyCode::Char('l')
    } else {
        key.code != KeyCode::Char('q')
    }
}

proof fn lemma_means_itself(a: AppV, key: KeyEvent, now: u64)
    requires
        at_rest(a),
        means_itself(key),
    ensures
        a.on_key(key, now) == match quiet(a).key_anywhere(key.code, now) {
            Some(r) => r,
            None => quiet(a).key_focused(key.code),
        },
{
    reveal(AppV::on_key);
    reveal(AppV::key_control);
    reveal(AppV::with_status);
}

/// The keys that mean something only by the area that has the focus.
spec fn of_an_area(k: KeyCode) -> bool {
    match k {
        KeyCode::Char(c) => c == 'h' || c == 'j' || c == 'k' || c == 'l' || c == 'd' || c == 'u'
            || c == 'n' || c == 'p' || c == 'J' || c == 'K',
        _ => true,
    }
}

proof fn lemma_of_an_area(a: AppV, key: KeyEvent, now: u64)
    requires
        at_rest(a),
        means_itself(key),
        of_an_area(key.code),
    ensures
        a.on_key(key, now) == match a.focus {
            Area::Worktree => (quiet(a).key_worktree(key.code), ActionV::Nothing),
            Area::History => quiet(a).key_history(key.code),
            Area::Tree => (quiet(a).key_tree(key.code), ActionV::Nothing),
            Area::Diff => quiet(a).key_diff(key.code),
        },
{
    lemma_means_itself(a, key, now);
    assert(quiet(a).key_anywhere(key.code, now) is None) by {
        reveal(AppV::key_anywhere);
    }
    reveal(AppV::key_focused);
}

/// A plain `q` and control with `c` ask for the end, control with `l` for all to be drawn anew,
/// and nothing else changes.
pub proof fn law_end_and_clear(a: AppV, now: u64)
    requires
        at_rest(a),
    ensures
        a.on_key(KeyEvent { code: KeyCode::Char('q'), ctrl: false }, now) == (
            AppV { quit: true, ..quiet(a) },
            ActionV::Nothing,
        ),
        a.on_key(KeyEvent { code: KeyCode::Char('c'), ctrl: true }, now) == (
            AppV { quit: true, ..quiet(a) },
            ActionV::Nothing,
        ),
        a.on_key(KeyEvent { code: KeyCode::Char('l'), ctrl: true }, now) == (
            AppV { want_clear: true, ..quiet(a) },
            ActionV::Nothing,
        ),
{
    reveal(AppV::on_key);
    reveal(AppV::key_control);
    reveal(AppV::with_status);
    reveal(AppV::with_quit);
    reveal(AppV::with_clear);
}

/// The areas from the top of the screen to its bottom.
pub open spec fn areas() -> Seq<Area> {
    seq![Area::Worktree, Area::History, Area::Tree, Area::Diff]
}

/// Control with `j` takes the focus from each area to the next one below, control with `k` to
/// the next one above, and at the end nowhere. On a narrow screen the diff is shown alone exactly
/// while it has the focus.
pub proof fn law_focus_moves(a: AppV, at: int, now: u64)
    requires
        at_rest(a),
        0 <= at < 4,
        a.focus == areas()[at],
    ensures
        ({
            let below = areas()[if at < 3 {
                at + 1
            } else {
                3
            }];
            let above = areas()[if at > 0 {
                at - 1
            } else {
                0
            }];
            &&& a.on_key(KeyEvent { code: KeyCode::Char('j'), ctrl: true }, now) == (
                AppV { focus: below, narrow_diff: a.narrow && below == Area::Diff, ..quiet(a) },
                ActionV::Nothing,
            )
            &&& a.on_key(KeyEvent { code: KeyCode::Char('k'), ctrl: true }, now) == (
                AppV { focus: above, narrow_diff: a.narrow && above == Area::Diff, ..quiet(a) },
                ActionV::Nothing,
            )
        }),
{
    reveal(AppV::on_key);
    reveal(AppV::key_control);
    reveal(AppV::with_status);
    reveal(AppV::focus_on);
    reveal(AppV::sync_narrow_diff);
}

/// `s` changes whether two sides are wanted, `w` whether long lines are wrapped, which is said,
/// and `/` starts a filter.
pub proof fn law_switches(a: AppV, ctrl: bool, now: u64)
    requires
        at_rest(a),
    ensures
        a.on_key(KeyEvent { code: KeyCode::Char('s'), ctrl }, now) == (
            AppV { sxs: !a.sxs, ..quiet(a) },
            ActionV::Nothing,
        ),
        a.wrap ==> a.on_key(KeyEvent { code: KeyCode::Char('w'), ctrl }, now) == (
            AppV { wrap: false, ..told(a, "wrap: OFF"@, now) },
            ActionV::Nothing,
        ),
        !a.wrap ==> a.on_key(KeyEvent { code: KeyCode::Char('w'), ctrl }, now) == (
            AppV { wrap: true, ..told(a, "wrap: ON"@, now) },
            ActionV::Nothing,
        ),
        a.on_key(KeyEvent { code: KeyCode::Char('/'), ctrl }, now) == (
            AppV { filter_input: true, ..quiet(a) },
            ActionV::Nothing,
        ),
{
    lemma_means_itself(a, KeyEvent { code: KeyCode::Char('s'), ctrl }, now);
    lemma_means_itself(a, KeyEvent { code: KeyCode::Char('w'), ctrl }, now);
    lemma_means_itself(a, KeyEvent { code: KeyCode::Char('/'), ctrl }, now);
    reveal(AppV::key_anywhere);
    reveal(AppV::with_status);
    reveal(AppV::with_sides);
    reveal(AppV::with_wrap);
    reveal(AppV::with_typing);
}

/// `f` starts to follow changes, and looks for the latest one at once, or stops to follow them.
/// Either way it says so.
pub proof fn law_following(a: AppV, ctrl: bool, now: u64)
    requires
        at_rest(a),
    ensures
        a.follow ==> a.on_key(KeyEvent { code: KeyCode::Char('f'), ctrl }, now) == (
            AppV { follow: false, ..told(a, "follow: OFF"@, now) },
            ActionV::Nothing,
        ),
        !a.follow ==> a.on_key(KeyEvent { code: KeyCode::Char('f'), ctrl }, now) == (
            AppV { follow: true, ..told(a, "follow: ON"@, now) },
            ActionV::Follow,
        ),
{
    lemma_means_itself(a, KeyEvent { code: KeyCode::Char('f'), ctrl }, now);
    reveal(AppV::key_anywhere);
    reveal(AppV::with_status);
    reveal(AppV::with_follow);
}

/// `<` makes the tree narrower by 4 percent and `>` wider by 4, within 15 and 85.
pub proof fn law_split(a: AppV, ctrl: bool, now: u64)
    requires
        at_rest(a),
    ensures
        ({
            let (l, act) = a.on_key(KeyEvent { code: KeyCode::Char('<'), ctrl }, now);
            &&& act == ActionV::Nothing
            &&& l == (AppV { split_pct: l.split_pct, ..quiet(a) })
            &&& a.split_pct >= 19 ==> l.split_pct == a.split_pct - 4
            &&& a.split_pct < 19 ==> l.split_pct == 15
        }),
        ({
            let (g, act) = a.on_key(KeyEvent { code: KeyCode::Char('>'), ctrl }, now);
            &&& act == ActionV::Nothing
            &&& g == (AppV { split_pct: g.split_pct, ..quiet(a) })
            &&& a.split_pct <= 81 ==> g.split_pct == a.split_pct + 4
            &&& a.split_pct > 81 ==> g.split_pct == 85
        }),
{
    lemma_means_itself(a, KeyEvent { code: KeyCode::Char('<'), ctrl }, now);
    lemma_means_itself(a, KeyEvent { code: KeyCode::Char('>'), ctrl }, now);
    reveal(AppV::key_anywhere);
    reveal(AppV::with_split);
}

/// `o` and `e` open with the default opener, `O` with the system's application. `E` offers the
/// openers, the first one selected, or says that there are none.
pub proof fn law_opening(a: AppV, ctrl: bool, now: u64)
    requires
        at_rest(a),
    ensures
        a.on_key(KeyEvent { code: KeyCode::Char('o'), ctrl }, now) == (
            quiet(a),
            ActionV::Open(None, true),
        ),
        a.on_key(KeyEvent { code: KeyCode::Char('e'), ctrl }, now) == (
            quiet(a),
            ActionV::Open(None, true),
        ),
        a.on_key(KeyEvent { code: KeyCode::Char('O'), ctrl }, now) == (
            quiet(a),
            ActionV::OpenSystem,
        ),
        a.cfg.openers.len() > 0 ==> a.on_key(
            KeyEvent { code: KeyCode::Char('E'), ctrl },
            now,
        ) == (AppV { picker: Some(0), ..quiet(a) }, ActionV::Nothing),
        a.cfg.openers.len() == 0 ==> a.on_key(
            KeyEvent { code: KeyCode::Char('E'), ctrl },
            now,
        ) == (
            told(a, "no opener configured (set [open] in ~/.config/wtd/config.toml)"@, now),
            ActionV::Nothing,
        ),
{
    lemma_means_itself(a, KeyEvent { code: KeyCode::Char('o'), ctrl }, now);
    lemma_means_itself(a, KeyEvent { code: KeyCode::Char('e'), ctrl }, now);
    lemma_means_itself(a, KeyEvent { code: KeyCode::Char('O'), ctrl }, now);
    lemma_means_itself(a, KeyEvent { code: KeyCode::Char('E'), ctrl }, now);
    reveal(AppV::key_anywhere);
    reveal(AppV::with_status);
    reveal(AppV::with_picker);
}

// ---- Worktrees and their history -------------------------------------------------

/// Whether `b` is `a` with the cursor on a row: on the same one, or else on the last one.
pub open spec fn settled(a: AppV, b: AppV) -> bool {
    &&& b == (AppV { ui_state: b.ui_state, ..a })
    &&& !a.has_ui() ==> b.ui_state == a.ui_state
    &&& a.has_ui() ==> b.ui_state == a.ui_state.insert(
        a.wt_key(),
        WtUiV {
            cursor: if a.ui().cursor < a.rows().len() {
                a.ui().cursor
            } else if a.rows().len() == 0 {
                0
            } else {
                (a.rows().len() - 1) as usize
            },
            ..a.ui()
        },
    )
}

pub proof fn lemma_settled(a: AppV)
    ensures
        settled(a, a.clamp_cursor()),
{
    reveal(AppV::clamp_cursor);
    reveal(AppV::with_ui);
    let b = a.clamp_cursor();
    if a.has_ui() {
        assert(b.ui_state =~= a.ui_state.insert(a.wt_key(), b.ui_state[a.wt_key()]));
    }
}

/// The state with another worktree selected, and its diff from the start.
pub open spec fn at_worktree(a: AppV, i: int) -> AppV {
    AppV { sel_wt: i as usize, diff_scroll: 0, ..a }
}

proof fn lemma_set_wt(a: AppV, i: int)
    ensures
        0 <= i < a.wts.len() && i != a.sel_wt ==> settled(at_worktree(a, i), a.set_wt(i)),
        !(0 <= i < a.wts.len() && i != a.sel_wt) ==> a.set_wt(i) == a,
{
    reveal(AppV::set_wt);
    reveal(AppV::with_wt);
    reveal(AppV::with_scroll);
    lemma_settled(at_worktree(a, i));
}

/// The digit `n` selects the worktree that is listed as the `n`-th, if there is one.
pub proof fn law_digit_selects(a: AppV, c: char, n: int, ctrl: bool, now: u64)
    requires
        at_rest(a),
        1 <= n <= 9,
        c as int == '0' as int + n,
    ensures
        ({
            let (b, act) = a.on_key(KeyEvent { code: KeyCode::Char(c), ctrl }, now);
            &&& act == ActionV::Nothing
            &&& n <= a.wts.len() && n - 1 != a.sel_wt ==> settled(at_worktree(quiet(a), n - 1), b)
            &&& n > a.wts.len() || n - 1 == a.sel_wt ==> b == quiet(a)
        }),
{
    lemma_means_itself(a, KeyEvent { code: KeyCode::Char(c), ctrl }, now);
    reveal(AppV::key_anywhere);
    lemma_set_wt(quiet(a), n - 1);
}

/// Whether a key goes to the worktree before the selected one.
pub open spec fn to_previous_worktree(a: AppV, k: KeyCode) -> bool {
    k == KeyCode::Char('{') || a.focus == Area::Worktree && (k == KeyCode::Char('h') || k
        == KeyCode::Left)
}

/// Whether a key goes to the worktree after the selected one.
pub open spec fn to_next_worktree(a: AppV, k: KeyCode) -> bool {
    k == KeyCode::Char('}') || a.focus == Area::Worktree && (k == KeyCode::Char('l') || k
        == KeyCode::Right)
}

/// The keys for the worktree before and after go by one in the list, and stay at its ends.
pub proof fn law_next_worktree(a: AppV, key: KeyEvent, now: u64)
    requires
        at_rest(a),
        means_itself(key),
        a.sel_wt < a.wts.len(),
        a.wts.len() <= usize::MAX,
        to_previous_worktree(a, key.code) || to_next_worktree(a, key.code),
    ensures
        ({
            let (b, act) = a.on_key(key, now);
            &&& act == ActionV::Nothing
            &&& to_previous_worktree(a, key.code) && a.sel_wt > 0 ==> settled(
                at_worktree(quiet(a), a.sel_wt - 1),
                b,
            )
            &&& to_previous_worktree(a, key.code) && a.sel_wt == 0 ==> b == quiet(a)
            &&& to_next_worktree(a, key.code) && a.sel_wt + 1 < a.wts.len() ==> settled(
                at_worktree(quiet(a), a.sel_wt + 1),
                b,
            )
            &&& to_next_worktree(a, key.code) && a.sel_wt + 1 == a.wts.len() ==> b == quiet(a)
        }),
{
    lemma_means_itself(a, key, now);
    reveal(AppV::key_anywhere);
    reveal(AppV::key_focused);
    reveal(AppV::key_worktree);
    lemma_set_wt(quiet(a), a.sel_wt - 1);
    lemma_set_wt(quiet(a), a.sel_wt + 1);
    lemma_set_wt(quiet(a), a.sel_wt as int);
}

/// Whether a key goes to the entry of the history before the selected one.
pub open spec fn to_previous_entry(a: AppV, k: KeyCode) -> bool {
    k == KeyCode::Char('[') || a.focus == Area::History && (k == KeyCode::Char('h') || k
        == KeyCode::Left)
}

/// Whether a key goes to the entry of the history after the selected one.
pub open spec fn to_next_entry(a: AppV, k: KeyCode) -> bool {
    k == KeyCode::Char(']') || a.focus == Area::History && (k == KeyCode::Char('l') || k
        == KeyCode::Right)
}

/// Whether what is done selects an entry of the history and asks for its files: entry 0 is for
/// all changes, entry 1 for what is not committed, and then come the commits.
pub open spec fn selects_entry(a: AppV, i: int, r: (AppV, ActionV)) -> bool {
    let w = a.wts[a.sel_wt as int];
    &&& r.0 == (AppV {
        ui_state: a.ui_state.insert(a.wt_key(), WtUiV { hist_sel: i as usize, ..a.ui() }),
        ..a
    })
    &&& r.1 matches ActionV::Load(q)
    &&& q.wt == w.info.path
    &&& i == 0 ==> q.source == SourceV::All
    &&& i == 1 ==> q.source == SourceV::Current
    &&& i >= 2 ==> q.source == SourceV::Commit(w.commits[i - 2].sha)
    &&& w.merge_base is Some ==> q.mb == w.merge_base->0
    &&& w.merge_base is None ==> q.mb == "HEAD"@
}

/// The keys for the entry before and after go by one in the history, and stay at its ends.
pub proof fn law_next_entry(a: AppV, key: KeyEvent, now: u64)
    requires
        at_rest(a),
        means_itself(key),
        a.has_ui(),
        a.wts[a.sel_wt as int].commits.len() + 2 <= usize::MAX,
        a.ui().hist_sel < a.wts[a.sel_wt as int].commits.len() + 2,
        to_previous_entry(a, key.code) || to_next_entry(a, key.code),
    ensures
        ({
            let r = a.on_key(key, now);
            let at = a.ui().hist_sel as int;
            let last = a.wts[a.sel_wt as int].commits.len() + 1;
            &&& to_previous_entry(a, key.code) && at > 0 ==> selects_entry(quiet(a), at - 1, r)
            &&& to_previous_entry(a, key.code) && at == 0 ==> r == (quiet(a), ActionV::Nothing)
            &&& to_next_entry(a, key.code) && at < last ==> selects_entry(quiet(a), at + 1, r)
            &&& to_next_entry(a, key.code) && at == last ==> r == (quiet(a), ActionV::Nothing)
        }),
{
    lemma_means_itself(a, key, now);
    reveal(AppV::key_anywhere);
    reveal(AppV::key_focused);
    reveal(AppV::key_history);
    reveal(AppV::set_hist);
    reveal(AppV::with_ui);
}

// ---- Typing and picking ----------------------------------------------------------

/// While a filter is typed, a character is added at its end, whatever it means elsewhere, and
/// backspace takes the last one away.
pub proof fn law_typing(a: AppV, c: char, ctrl: bool, now: u64)
    requires
        a.filter_input,
    ensures
        ({
            let (b, act) = a.on_key(KeyEvent { code: KeyCode::Char(c), ctrl }, now);
            &&& act == ActionV::Nothing
            &&& settled(AppV { filter: a.filter + seq![c], ..quiet(a) }, b)
        }),
        ({
            let (b, act) = a.on_key(KeyEvent { code: KeyCode::Backspace, ctrl }, now);
            &&& act == ActionV::Nothing
            &&& a.filter.len() > 0 ==> settled(
                AppV { filter: a.filter.take(a.filter.len() - 1), ..quiet(a) },
                b,
            )
            &&& a.filter.len() == 0 ==> settled(quiet(a), b)
        }),
{
    reveal(AppV::on_key);
    reveal(AppV::key_filter);
    reveal(AppV::with_status);
    reveal(AppV::with_filter);
    assert(a.filter.push(c) =~= a.filter + seq![c]);
    lemma_settled(AppV { filter: a.filter.push(c), ..quiet(a) });
    lemma_settled(quiet(a));
    if a.filter.len() > 0 {
        assert(a.filter.drop_last() =~= a.filter.take(a.filter.len() - 1));
        lemma_settled(AppV { filter: a.filter.drop_last(), ..quiet(a) });
    }
}

/// Enter ends the typing of a filter and keeps it, escape ends it and drops it, and other keys
/// without a character do nothing.
pub proof fn law_filter_ends(a: AppV, key: KeyEvent, now: u64)
    requires
        a.filter_input,
        !(key.code is Char),
        key.code != KeyCode::Backspace,
    ensures
        a.on_key(key, now).1 == ActionV::Nothing,
        key.code == KeyCode::Enter ==> a.on_key(key, now).0 == (AppV {
            filter_input: false,
            ..quiet(a)
        }),
        key.code == KeyCode::Esc ==> settled(
            AppV { filter_input: false, filter: seq![], ..quiet(a) },
            a.on_key(key, now).0,
        ),
        key.code != KeyCode::Enter && key.code != KeyCode::Esc ==> a.on_key(key, now).0 == quiet(a),
{
    reveal(AppV::on_key);
    reveal(AppV::key_filter);
    reveal(AppV::with_status);
    reveal(AppV::with_filter);
    reveal(AppV::with_typing);
    lemma_settled(AppV { filter_input: false, filter: seq![], ..quiet(a) });
}

/// While an opener is picked, the keys for down and up go by one in the list and stay at its
/// ends, enter opens with the selected one and closes the list, escape, `E` and `q` close it,
/// and other keys do nothing.
pub proof fn law_picking(a: AppV, key: KeyEvent, now: u64)
    requires
        !a.filter_input,
        a.picker is Some,
        (a.picker->0) < a.cfg.openers.len() <= usize::MAX,
    ensures
        ({
            let (b, act) = a.on_key(key, now);
            let i = a.picker->0 as int;
            let last = a.cfg.openers.len() - 1;
            let k = key.code;
            if k == KeyCode::Char('j') || k == KeyCode::Down {
                &&& act == ActionV::Nothing
                &&& i < last ==> b == (AppV { picker: Some((i + 1) as usize), ..quiet(a) })
                &&& i == last ==> b == quiet(a)
            } else if k == KeyCode::Char('k') || k == KeyCode::Up {
                &&& act == ActionV::Nothing
                &&& i > 0 ==> b == (AppV { picker: Some((i - 1) as usize), ..quiet(a) })
                &&& i == 0 ==> b == quiet(a)
            } else if k == KeyCode::Enter {
                &&& act == ActionV::Open(Some(a.cfg.openers[i].0), true)
                &&& b == (AppV { picker: None, ..quiet(a) })
            } else if k == KeyCode::Esc || k == KeyCode::Char('E') || k == KeyCode::Char('q') {
                &&& act == ActionV::Nothing
                &&& b == (AppV { picker: None, ..quiet(a) })
            } else {
                &&& act == ActionV::Nothing
                &&& b == quiet(a)
            }
        }),
{
    reveal(AppV::on_key);
    reveal(AppV::key_picker);
    reveal(AppV::with_status);
    reveal(AppV::with_picker);
}

// ---- The file list ---------------------------------------------------------------

/// `t` changes between tree and flat list.
pub proof fn law_flat_or_tree(a: AppV, ctrl: bool, now: u64)
    requires
        at_rest(a),
    ensures
        ({
            let (b, act) = a.on_key(KeyEvent { code: KeyCode::Char('t'), ctrl }, now);
            &&& act == ActionV::Nothing
            &&& settled(AppV { flat: !a.flat, ..quiet(a) }, b)
        }),
{
    lemma_means_itself(a, KeyEvent { code: KeyCode::Char('t'), ctrl }, now);
    reveal(AppV::key_anywhere);
    reveal(AppV::with_flat);
    lemma_settled(AppV { flat: !a.flat, ..quiet(a) });
}

/// The state with the cursor on another row.
pub open spec fn at_row(a: AppV, i: int) -> AppV {
    AppV {
        ui_state: a.ui_state.insert(a.wt_key(), WtUiV { cursor: i as usize, ..a.ui() }),
        ..a
    }
}

proof fn lemma_moved(a: AppV, k: KeyCode)
    requires
        a.has_ui(),
        a.ui().cursor < a.rows().len() <= usize::MAX,
    ensures
        ({
            let at = a.ui().cursor as int;
            let start = AppV { diff_scroll: 0, ..a };
            &&& k == KeyCode::Char('j') || k == KeyCode::Down ==> a.key_tree(k) == at_row(
                start,
                if at + 1 < a.rows().len() {
                    at + 1
                } else {
                    at
                },
            )
            &&& k == KeyCode::Char('k') || k == KeyCode::Up ==> a.key_tree(k) == at_row(
                start,
                if at > 0 {
                    at - 1
                } else {
                    at
                },
            )
        }),
{
    let at = a.ui().cursor as int;
    let n = a.rows().len();
    let down = if at + 1 < n {
        at + 1
    } else {
        at
    };
    let up = if at > 0 {
        at - 1
    } else {
        at
    };
    assert(a.move_cursor(1) == a.with_ui(WtUiV { cursor: down as usize, ..a.ui() })
        && a.move_cursor(-1) == a.with_ui(WtUiV { cursor: up as usize, ..a.ui() })) by {
        reveal(AppV::move_cursor);
    }
    assert(k == KeyCode::Char('j') || k == KeyCode::Down ==> a.key_tree(k) == a.move_cursor(
        1,
    ).with_scroll(0)) by {
        reveal(AppV::key_tree);
    }
    assert(k == KeyCode::Char('k') || k == KeyCode::Up ==> a.key_tree(k) == a.move_cursor(
        -1,
    ).with_scroll(0)) by {
        reveal(AppV::key_tree);
    }
    reveal(AppV::with_ui);
    reveal(AppV::with_scroll);
}

/// In the file list the keys for down and up go by one row, stay at the ends, and show the diff
/// from its start.
pub proof fn law_next_row(a: AppV, key: KeyEvent, now: u64)
    requires
        at_rest(a),
        means_itself(key),
        a.focus == Area::Tree,
        a.has_ui(),
        a.ui().cursor < a.rows().len() <= usize::MAX,
    ensures
        ({
            let (b, act) = a.on_key(key, now);
            let at = a.ui().cursor as int;
            let start = AppV { diff_scroll: 0, ..quiet(a) };
            &&& key.code == KeyCode::Char('j') || key.code == KeyCode::Down ==> act
                == ActionV::Nothing && b == at_row(
                start,
                if at + 1 < a.rows().len() {
                    at + 1
                } else {
                    at
                },
            )
            &&& key.code == KeyCode::Char('k') || key.code == KeyCode::Up ==> act
                == ActionV::Nothing && b == at_row(
                start,
                if at > 0 {
                    at - 1
                } else {
                    at
                },
            )
        }),
{
    if of_an_area(key.code) {
        lemma_of_an_area(a, key, now);
        assert(quiet(a).rows() == a.rows()) by {
            reveal(AppV::rows);
        }
        lemma_moved(quiet(a), key.code);
    }
}

proof fn lemma_parent_row(rows: Seq<RowV>, from: int, depth: usize)
    requires
        0 <= from <= rows.len(),
    ensures
        match parent_row(rows, from, depth) {
            Some(i) => 0 <= i < from && rows[i].depth < depth && forall|k: int|
                i < k < from ==> (#[trigger] rows[k]).depth >= depth,
            None => forall|k: int| 0 <= k < from ==> (#[trigger] rows[k]).depth >= depth,
        },
    decreases from,
{
    if from > 0 && rows[from - 1].depth >= depth {
        lemma_parent_row(rows, from - 1, depth);
    }
}

/// The state with another set of collapsed directories.
pub open spec fn with_collapsed(a: AppV, dirs: Set<Seq<char>>) -> AppV {
    AppV {
        ui_state: a.ui_state.insert(a.wt_key(), WtUiV { collapsed: dirs, ..a.ui() }),
        ..a
    }
}

/// In the file list the keys for left collapse an expanded directory. On another row they go to
/// the nearest row above that is less deep, if there is one.
pub proof fn law_left_in_tree(a: AppV, key: KeyEvent, now: u64)
    requires
        at_rest(a),
        means_itself(key),
        a.focus == Area::Tree,
        key.code == KeyCode::Char('h') || key.code == KeyCode::Left,
        a.has_ui(),
        a.ui().cursor < a.rows().len() <= usize::MAX,
    ensures
        ({
            let (b, act) = a.on_key(key, now);
            let at = a.ui().cursor as int;
            let row = a.rows()[at];
            &&& act == ActionV::Nothing
            &&& row.dir_path is Some && row.expanded ==> settled(
                with_collapsed(quiet(a), a.ui().collapsed.insert(row.dir_path->0)),
                b,
            )
            &&& !(row.dir_path is Some && row.expanded) ==> {
                ||| b == quiet(a) && forall|k: int|
                    0 <= k < at ==> (#[trigger] a.rows()[k]).depth >= row.depth
                ||| exists|i: int|
                    {
                        &&& 0 <= i < at
                        &&& #[trigger] a.rows()[i].depth < row.depth
                        &&& b == at_row(quiet(a), i)
                        &&& forall|k: int| i < k < at ==> (#[trigger] a.rows()[k]).depth >= row.depth
                    }
            }
        }),
{
    lemma_of_an_area(a, key, now);
    reveal(AppV::key_tree);
    reveal(AppV::tree_left);
    reveal(AppV::with_ui);
    let at = a.ui().cursor as int;
    let row = a.rows()[at];
    assert(quiet(a).rows() == a.rows()) by {
        reveal(AppV::rows);
    }
    lemma_parent_row(a.rows(), at, row.depth);
    if row.dir_path is Some && row.expanded {
        lemma_settled(with_collapsed(quiet(a), a.ui().collapsed.insert(row.dir_path->0)));
    } else if parent_row(a.rows(), at, row.depth) is Some {
        let i = parent_row(a.rows(), at, row.depth)->0;
        assert(a.rows()[i].depth < row.depth);
    }
}

proof fn lemma_tree_right(a: AppV, row: RowV)
    requires
        a.has_ui(),
    ensures
        ({
            let opened = with_collapsed(a, a.ui().collapsed.remove(row.dir_path->0));
            let closed = with_collapsed(a, a.ui().collapsed.insert(row.dir_path->0));
            let shown = AppV { focus: Area::Diff, narrow_diff: a.narrow, ..a };
            &&& row.dir_path is Some && !row.expanded ==> a.tree_right(row) == opened && settled(
                opened,
                a.tree_enter(row),
            )
            &&& row.dir_path is Some && row.expanded ==> a.tree_right(row) == a && settled(
                closed,
                a.tree_enter(row),
            )
            &&& row.dir_path is None && row.file_idx is Some ==> a.tree_right(row) == shown
                && a.tree_enter(row) == shown
        }),
{
    if row.dir_path is Some {
        let dir = row.dir_path->0;
        let opened = with_collapsed(a, a.ui().collapsed.remove(dir));
        let closed = with_collapsed(a, a.ui().collapsed.insert(dir));
        assert(opened == a.fold(dir, false) && closed == a.fold(dir, true)) by {
            reveal(AppV::with_ui);
        }
        lemma_settled(opened);
        lemma_settled(closed);
        reveal(AppV::tree_right);
        reveal(AppV::tree_enter);
    } else {
        reveal(AppV::tree_right);
        reveal(AppV::tree_enter);
        reveal(AppV::focus_on);
        reveal(AppV::sync_narrow_diff);
    }
}

/// In the file list the keys for right expand a collapsed directory, and on a file take the focus
/// to its diff. Enter does the same, and also collapses an expanded directory.
pub proof fn law_right_in_tree(a: AppV, key: KeyEvent, now: u64)
    requires
        at_rest(a),
        means_itself(key),
        a.focus == Area::Tree,
        key.code == KeyCode::Char('l') || key.code == KeyCode::Right || key.code == KeyCode::Enter,
        a.has_ui(),
        a.ui().cursor < a.rows().len() <= usize::MAX,
    ensures
        ({
            let (b, act) = a.on_key(key, now);
            let row = a.rows()[a.ui().cursor as int];
            let opened = with_collapsed(quiet(a), a.ui().collapsed.remove(row.dir_path->0));
            let closed = with_collapsed(quiet(a), a.ui().collapsed.insert(row.dir_path->0));
            &&& act == ActionV::Nothing
            &&& row.dir_path is Some && !row.expanded && key.code != KeyCode::Enter ==> b == opened
            &&& row.dir_path is Some && !row.expanded && key.code == KeyCode::Enter ==> settled(
                opened,
                b,
            )
            &&& row.dir_path is Some && row.expanded && key.code != KeyCode::Enter ==> b == quiet(a)
            &&& row.dir_path is Some && row.expanded && key.code == KeyCode::Enter ==> settled(
                closed,
                b,
            )
            &&& row.dir_path is None && row.file_idx is Some ==> b == (AppV {
                focus: Area::Diff,
                narrow_diff: a.narrow,
                ..quiet(a)
            })
        }),
{
    let q = quiet(a);
    let row = a.rows()[a.ui().cursor as int];
    lemma_of_an_area(a, key, now);
    assert(q.rows() == a.rows()) by {
        reveal(AppV::rows);
    }
    assert(q.key_tree(key.code) == if key.code == KeyCode::Enter {
        q.tree_enter(row)
    } else {
        q.tree_right(row)
    }) by {
        reveal(AppV::key_tree);
    }
    lemma_tree_right(q, row);
}

// ---- The diff --------------------------------------------------------------------

/// In the diff the keys for down and up scroll by a line, those for pages and `d` and `u` by half
/// of its height, not past its end and not before its start.
pub proof fn law_scrolling(a: AppV, key: KeyEvent, now: u64)
    requires
        at_rest(a),
        means_itself(key),
        a.focus == Area::Diff,
        a.diff_scroll <= a.diff_max_scroll,
    ensures
        ({
            let (b, act) = a.on_key(key, now);
            let k = key.code;
            let line_down = k == KeyCode::Char('j') || k == KeyCode::Down;
            let line_up = k == KeyCode::Char('k') || k == KeyCode::Up;
            let page_down = k == KeyCode::Char('d') || k == KeyCode::PageDown;
            let page_up = k == KeyCode::Char('u') || k == KeyCode::PageUp;
            let by = if line_down || line_up {
                1int
            } else {
                a.diff_height as int / 2
            };
            &&& line_down || line_up || page_down || page_up ==> act == ActionV::Nothing && b == (
            AppV { diff_scroll: b.diff_scroll, ..quiet(a) })
            &&& line_down || page_down ==> if a.diff_scroll + by <= a.diff_max_scroll {
                b.diff_scroll == a.diff_scroll + by
            } else {
                b.diff_scroll == a.diff_max_scroll
            }
            &&& line_up || page_up ==> if a.diff_scroll >= by {
                b.diff_scroll == a.diff_scroll - by
            } else {
                b.diff_scroll == 0
            }
        }),
{
    if of_an_area(key.code) {
        lemma_of_an_area(a, key, now);
    }
    reveal(AppV::key_diff);
    reveal(AppV::with_scroll);
}

/// In the diff `n` asks for the next hunk and `p` for the previous one, `J` goes to the next file
/// and `K` to the previous one.
pub proof fn law_hunks_and_files(a: AppV, ctrl: bool, now: u64)
    requires
        at_rest(a),
        a.focus == Area::Diff,
    ensures
        a.on_key(KeyEvent { code: KeyCode::Char('n'), ctrl }, now) == (
            quiet(a),
            ActionV::Jump(true),
        ),
        a.on_key(KeyEvent { code: KeyCode::Char('p'), ctrl }, now) == (
            quiet(a),
            ActionV::Jump(false),
        ),
        a.on_key(KeyEvent { code: KeyCode::Char('J'), ctrl }, now) == (
            quiet(a).step_file(true),
            ActionV::Nothing,
        ),
        a.on_key(KeyEvent { code: KeyCode::Char('K'), ctrl }, now) == (
            quiet(a).step_file(false),
            ActionV::Nothing,
        ),
{
    lemma_means_itself(a, KeyEvent { code: KeyCode::Char('n'), ctrl }, now);
    lemma_means_itself(a, KeyEvent { code: KeyCode::Char('p'), ctrl }, now);
    lemma_means_itself(a, KeyEvent { code: KeyCode::Char('J'), ctrl }, now);
    lemma_means_itself(a, KeyEvent { code: KeyCode::Char('K'), ctrl }, now);
    reveal(AppV::key_anywhere);
    reveal(AppV::key_focused);
    reveal(AppV::key_diff);
}

/// Stepping to a file leads nowhere only where no row in that direction shows one, and shows the
/// diff of the file that it leads to from the start.
pub proof fn law_step_finds_file(a: AppV, forward: bool, k: int)
    requires
        a.has_ui(),
        a.ui().cursor < a.rows().len() <= usize::MAX,
        0 <= k < a.rows().len(),
        a.rows()[k].file_idx is Some,
        forward ==> a.ui().cursor < k,
        !forward ==> k < a.ui().cursor,
    ensures
        ({
            let b = a.step_file(forward);
            &&& b == at_row(AppV { diff_scroll: 0, ..a }, b.ui().cursor as int)
            &&& a.rows()[b.ui().cursor as int].file_idx is Some
            &&& forward ==> a.ui().cursor < b.ui().cursor <= k
            &&& !forward ==> k <= b.ui().cursor < a.ui().cursor
        }),
{
    if forward {
        lemma_next_reaches(a.rows(), a.ui().cursor + 1, k);
    } else {
        lemma_prev_reaches(a.rows(), a.ui().cursor - 1, k);
    }
    let to = if forward {
        next_file(a.rows(), a.ui().cursor + 1)->0
    } else {
        prev_file(a.rows(), a.ui().cursor - 1)->0
    };
    let b = a.step_file(forward);
    assert(b == a.with_ui(WtUiV { cursor: to as usize, ..a.ui() }).with_scroll(0)) by {
        reveal(AppV::step_file);
    }
    assert(b == at_row(AppV { diff_scroll: 0, ..a }, to)) by {
        reveal(AppV::with_ui);
        reveal(AppV::with_scroll);
    }
    assert(b.ui().cursor == to);
}

proof fn lemma_next_reaches(rows: Seq<RowV>, from: int, k: int)
    requires
        0 <= from <= k < rows.len(),
        rows[k].file_idx is Some,
    ensures
        next_file(rows, from) matches Some(i) && from <= i <= k && rows[i].file_idx is Some,
    decreases k - from,
{
    if rows[from].file_idx is None {
        lemma_next_reaches(rows, from + 1, k);
    }
}

proof fn lemma_prev_reaches(rows: Seq<RowV>, from: int, k: int)
    requires
        0 <= k <= from < rows.len(),
        rows[k].file_idx is Some,
    ensures
        prev_file(rows, from) matches Some(i) && k <= i <= from && rows[i].file_idx is Some,
    decreases from - k,
{
    if rows[from].file_idx is None {
        lemma_prev_reaches(rows, from - 1, k);
    }
}

/// Enter goes down from the worktrees to the history and from there to the file list. Escape goes
/// back up: from the diff to the file list, from there to the history, and to the worktrees. From
/// the diff the keys for left do so too.
pub proof fn law_enter_and_escape(a: AppV, key: KeyEvent, now: u64)
    requires
        at_rest(a),
        means_itself(key),
    ensures
        ({
            let r = a.on_key(key, now);
            let k = key.code;
            let left = k == KeyCode::Char('h') || k == KeyCode::Left;
            &&& a.focus == Area::Worktree && k == KeyCode::Enter ==> r == (
                AppV { focus: Area::History, ..quiet(a) },
                ActionV::Nothing,
            )
            &&& a.focus == Area::History && k == KeyCode::Enter ==> r == (
                AppV { focus: Area::Tree, ..quiet(a) },
                ActionV::Nothing,
            )
            &&& a.focus == Area::Diff && (k == KeyCode::Esc || left) ==> r == (
                AppV { focus: Area::Tree, narrow_diff: false, ..quiet(a) },
                ActionV::Nothing,
            )
            &&& a.focus == Area::Tree && k == KeyCode::Esc ==> r == (
                AppV { focus: Area::History, ..quiet(a) },
                ActionV::Nothing,
            )
            &&& a.focus == Area::History && k == KeyCode::Esc ==> r == (
                AppV { focus: Area::Worktree, ..quiet(a) },
                ActionV::Nothing,
            )
            &&& a.focus == Area::Worktree && k == KeyCode::Esc ==> r == (
                quiet(a),
                ActionV::Nothing,
            )
        }),
{
    if of_an_area(key.code) {
        lemma_of_an_area(a, key, now);
        match a.focus {
            Area::Worktree => {
                assert(quiet(a).key_worktree(key.code) == quiet(a) || key.code != KeyCode::Esc) by {
                    reveal(AppV::key_worktree);
                }
                assert(key.code == KeyCode::Enter ==> quiet(a).key_worktree(key.code) == (AppV {
                    focus: Area::History,
                    ..quiet(a)
                })) by {
                    reveal(AppV::key_worktree);
                    reveal(AppV::focus_on);
                }
            },
            Area::History => {
                reveal(AppV::key_history);
                reveal(AppV::focus_on);
            },
            Area::Tree => {
                assert(key.code == KeyCode::Esc ==> quiet(a).key_tree(key.code) == (AppV {
                    focus: Area::History,
                    ..quiet(a)
                })) by {
                    reveal(AppV::key_tree);
                    reveal(AppV::focus_on);
                }
            },
            Area::Diff => {
                reveal(AppV::key_diff);
                reveal(AppV::focus_on);
                reveal(AppV::sync_narrow_diff);
            },
        }
    }
}

/// The characters that mean something somewhere.
pub open spec fn meaningful() -> Seq<char> {
    "123456789{}[]swt/oeOEf<>hjkldunpJK"@
}

/// A key that means nothing does nothing, but for taking away the message.
pub proof fn law_other_keys(a: AppV, key: KeyEvent, now: u64)
    requires
        at_rest(a),
        means_itself(key),
        match key.code {
            KeyCode::Char(c) => !meaningful().contains(c),
            KeyCode::Backspace | KeyCode::Other => true,
            KeyCode::PageUp | KeyCode::PageDown => a.focus != Area::Diff,
            _ => false,
        },
    ensures
        a.on_key(key, now) == (quiet(a), ActionV::Nothing),
{
    lemma_means_itself(a, key, now);
    reveal_strlit("123456789{}[]swt/oeOEf<>hjkldunpJK");
    if let KeyCode::Char(c) = key.code {
        assert forall|i: int| 0 <= i < 34 implies #[trigger] meaningful()[i] != c by {}
        lemma_digits(c);
        let m = meaningful();
        assert(m[9] != c && m[10] != c && m[11] != c && m[12] != c && m[13] != c && m[14] != c
            && m[15] != c && m[16] != c && m[17] != c && m[18] != c && m[19] != c && m[20] != c
            && m[21] != c && m[22] != c && m[23] != c && m[24] != c && m[25] != c && m[26] != c
            && m[27] != c && m[28] != c && m[29] != c && m[30] != c && m[31] != c && m[32] != c
            && m[33] != c);
    }
    assert(quiet(a).key_anywhere(key.code, now) is None) by {
        reveal(AppV::key_anywhere);
    }
    reveal(AppV::key_focused);
    reveal(AppV::key_worktree);
    reveal(AppV::key_history);
    reveal(AppV::key_tree);
    reveal(AppV::key_diff);
}

proof fn lemma_digits(c: char)
    requires
        !meaningful().contains(c),
    ensures
        !('1' <= c <= '9'),
{
    reveal_strlit("123456789{}[]swt/oeOEf<>hjkldunpJK");
    let m = meaningful();
    assert forall|i: int| 0 <= i < 34 implies #[trigger] m[i] != c by {}
    assert(m[0] != c && m[1] != c && m[2] != c && m[3] != c && m[4] != c && m[5] != c && m[6] != c
        && m[7] != c && m[8] != c);
}

} // verus!
