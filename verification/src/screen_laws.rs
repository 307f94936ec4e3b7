//! What the report and the bars say, in words.

use crate::app::{source_at, AppV, Area};
use crate::bars::{low16, tabs_line, tabs_width, wt_tab};
use crate::git::{badge_of, sums, totals_of, FileStatus, FileV, SourceV, WorktreeV};
use crate::refresh::{age, elapsed};
use crate::screen::minus16;
use crate::status_out::{file_line, report};
use crate::style::{joined, lemma_joined_add, SegV};
use crate::text::{blanks, decimal, left_aligned};
use crate::text_laws::ended;
use crate::width::str_columns;
use vstd::prelude::*;

verus! {

// ---- The report ------------------------------------------------------------------

/// A worktree is reported clean exactly where it has no changed file, whether it is the main
/// checkout or not. Otherwise its first line has the totals of all its files and its path, each
/// file has a line of its own, in order, with its letter, its whole path and its counts, and an
/// empty line ends the report. The name is the branch, and says of the main checkout that it is.
pub proof fn law_report(wt: WorktreeV, files: Seq<FileV>)
    ensures
        ({
            let r = report(wt, files);
            let name = if wt.is_main {
                wt.branch + " (main checkout)"@
            } else {
                wt.branch
            };
            let (a, d) = totals_of(files);
            &&& r.len() == 1 <==> files.len() == 0
            &&& files.len() == 0 ==> r[0] == name + "  clean"@
            &&& files.len() > 0 ==> {
                &&& r.len() == files.len() + 2
                &&& r[0] == name + "  "@ + ("+"@ + decimal(a as nat) + " -"@ + decimal(d as nat))
                    + "  ["@ + wt.path + "]"@
                &&& r.last() == ""@
            }
            &&& forall|i: int|
                0 <= i < files.len() ==> #[trigger] r[i + 1] == "  "@ + seq![
                    badge_of(files[i].status),
                ] + " "@ + files[i].path + blanks(
                    if files[i].path.len() < 50 {
                        (50 - files[i].path.len()) as nat
                    } else {
                        0
                    },
                ) + " "@ + counts_text(files[i].added, files[i].deleted)
        }),
{
    let r = report(wt, files);
    assert forall|i: int| 0 <= i < files.len() implies #[trigger] r[i + 1] == "  "@ + seq![
        badge_of(files[i].status),
    ] + " "@ + files[i].path + blanks(
        if files[i].path.len() < 50 {
            (50 - files[i].path.len()) as nat
        } else {
            0
        },
    ) + " "@ + counts_text(files[i].added, files[i].deleted) by {
        let f = files[i];
        let pad = blanks(
            if f.path.len() < 50 {
                (50 - f.path.len()) as nat
            } else {
                0
            },
        );
        assert(r[i + 1] == file_line(f));
        assert(left_aligned(f.path, 50) =~= f.path + pad);
        let head = "  "@ + seq![badge_of(f.status)] + " "@;
        assert(head + (f.path + pad) =~= head + f.path + pad);
    }
}

/// The counts of a file: both, or a word where one is not known, as of a binary file.
pub open spec fn counts_text(added: Option<u64>, deleted: Option<u64>) -> Seq<char> {
    if added is Some && deleted is Some {
        "+"@ + decimal(added->0 as nat) + " -"@ + decimal(deleted->0 as nat)
    } else {
        "Bin"@
    }
}

/// Each status has the letter that git has for it; a file that is not tracked has a question mark.
pub proof fn law_badges()
    ensures
        badge_of(FileStatus::Modified) == 'M',
        badge_of(FileStatus::Added) == 'A',
        badge_of(FileStatus::Deleted) == 'D',
        badge_of(FileStatus::Renamed) == 'R',
        badge_of(FileStatus::Untracked) == '?',
{
}

/// The totals of some files and of others together are the sums of both totals; a file counts
/// with what was added and what was removed, one whose lines were not counted with nothing; and no
/// files have no lines.
pub proof fn law_totals(a: Seq<FileV>, b: Seq<FileV>, f: FileV)
    ensures
        sums(a + b).0 == sums(a).0 + sums(b).0,
        sums(a + b).1 == sums(a).1 + sums(b).1,
        sums(seq![]) == (0nat, 0nat),
        f.added matches Some(n) ==> sums(seq![f]).0 == n,
        f.added is None ==> sums(seq![f]).0 == 0,
        f.deleted matches Some(n) ==> sums(seq![f]).1 == n,
        f.deleted is None ==> sums(seq![f]).1 == 0,
        sums(a).0 <= u64::MAX ==> totals_of(a).0 == sums(a).0,
        sums(a).1 <= u64::MAX ==> totals_of(a).1 == sums(a).1,
    decreases b.len(),
{
    reveal_with_fuel(sums, 2);
    assert(seq![f].drop_last() =~= Seq::<FileV>::empty());
    if b.len() == 0 {
        assert(a + b =~= a);
    } else {
        law_totals(a, b.drop_last(), f);
        assert((a + b).drop_last() =~= a + b.drop_last());
    }
}

// ---- Tabs ------------------------------------------------------------------------

proof fn lemma_one_seg(s: SegV)
    ensures
        joined(seq![s]) == s.text,
{
    reveal_with_fuel(joined, 2);
    assert(seq![s].drop_last() =~= Seq::<SegV>::empty());
    assert(Seq::<char>::empty() + s.text =~= s.text);
}

/// The history has a tab for all changes, then one for what is not committed, then one for each
/// commit, the newest first. Commits are numbered from the oldest: the tab of the oldest one says
/// `c1` and is the last, and each tab before it, up to that of the newest commit, has the next
/// number. Selecting a tab shows the changes that it stands for.
pub proof fn law_history_tabs(a: AppV, k: nat)
    ensures
        ({
            let n = a.history().len();
            let tabs = a.hist_tabs();
            &&& tabs.len() == n + 2
            &&& joined(tabs[0]) == " "@ + "All"@ + " "@
            &&& joined(tabs[1]) == " "@ + "Current"@ + " "@
            &&& 1 <= k <= n ==> joined(tabs[n + 2 - k]) == " "@ + ("c"@ + decimal(k)) + " "@
            &&& source_at(0, a.history()) == SourceV::All
            &&& source_at(1, a.history()) == SourceV::Current
            &&& 1 <= k <= n && n + 2 <= usize::MAX ==> source_at((n + 2 - k) as usize, a.history())
                == SourceV::Commit(a.history()[n - k].sha)
        }),
{
    let n = a.history().len();
    let tabs = a.hist_tabs();
    lemma_one_seg(tabs[0][0]);
    lemma_one_seg(tabs[1][0]);
    assert(tabs[0] =~= seq![tabs[0][0]]);
    assert(tabs[1] =~= seq![tabs[1][0]]);
    if 1 <= k <= n {
        let t = tabs[n + 2 - k];
        lemma_one_seg(t[0]);
        assert(t =~= seq![t[0]]);
    }
}

/// The tab of a worktree has its number, counted from 1, its branch, and its totals; where nothing
/// has changed, a check mark stands for them, and only there.
pub proof fn law_worktree_tabs(a: AppV, i: int)
    requires
        0 <= i < a.wts.len(),
    ensures
        ({
            let w = a.wts[i];
            let t = joined(a.wt_tabs()[i]);
            let name = " "@ + decimal((i + 1) as nat) + " "@ + w.info.branch;
            &&& a.wt_tabs().len() == a.wts.len()
            &&& w.all_totals == (0u64, 0u64) ==> t == name + " ✓ "@
            &&& w.all_totals != (0u64, 0u64) ==> t == name + (" +"@ + decimal(
                w.all_totals.0 as nat,
            )) + (" -"@ + decimal(w.all_totals.1 as nat) + " "@)
        }),
{
    let w = a.wts[i];
    let t = a.wt_tabs()[i];
    reveal_with_fuel(joined, 5);
    assert(t == wt_tab(w, i, i == a.sel_wt, a.focus == Area::Worktree));
    if w.all_totals == (0u64, 0u64) {
        assert(t.drop_last().drop_last().drop_last() =~= Seq::<SegV>::empty());
    } else {
        assert(t.drop_last().drop_last().drop_last().drop_last() =~= Seq::<SegV>::empty());
    }
    assert(Seq::<char>::empty() + t[0].text =~= t[0].text);
    assert(t.drop_last().last() == t[t.len() - 2]);
}

proof fn lemma_tabs_text(tabs: Seq<Seq<SegV>>)
    ensures
        joined(tabs_line(tabs)) == ended(tabs.map_values(|t: Seq<SegV>| joined(t)), ' '),
    decreases tabs.len(),
{
    let texts = tabs.map_values(|t: Seq<SegV>| joined(t));
    if tabs.len() > 0 {
        let h = tabs.drop_last();
        lemma_tabs_text(h);
        let blank = crate::screen::raw_seg(" "@);
        let l = tabs_line(h) + tabs.last();
        lemma_joined_add(tabs_line(h), tabs.last());
        lemma_joined_add(l, seq![blank]);
        lemma_one_seg(blank);
        assert(l.push(blank) =~= l + seq![blank]);
        reveal_strlit(" ");
        assert(" "@ =~= seq![' ']);
        assert(texts.drop_last() =~= h.map_values(|t: Seq<SegV>| joined(t)));
        lemma_ended_push(texts.drop_last(), texts.last(), ' ');
        assert(texts.drop_last().push(texts.last()) =~= texts);
        assert(joined(tabs_line(tabs)) =~= ended(texts, ' '));
    }
}

pub proof fn lemma_ended_push(ps: Seq<Seq<char>>, p: Seq<char>, end: char)
    ensures
        ended(ps.push(p), end) == ended(ps, end) + p + seq![end],
    decreases ps.len(),
{
    if ps.len() == 0 {
        reveal_with_fuel(ended, 2);
        assert(ps.push(p).skip(1) =~= Seq::<Seq<char>>::empty());
        assert(ended(ps.push(p), end) =~= ended(ps, end) + p + seq![end]);
    } else {
        lemma_ended_push(ps.skip(1), p, end);
        assert(ps.push(p).skip(1) =~= ps.skip(1).push(p));
        assert(ended(ps.push(p), end) =~= ended(ps, end) + p + seq![end]);
    }
}

/// Where the tabs up to the selected one fit, a bar shows its label and then all tabs, in order,
/// each with a blank behind it.
pub proof fn law_bar_shows_all(
    label: Seq<char>,
    tabs: Seq<Seq<SegV>>,
    sel: int,
    focused: bool,
    width: u16,
)
    requires
        0 <= sel < tabs.len(),
        tabs_width(tabs, 0, sel) <= minus16(width, low16(str_columns(" "@ + label + " "@))),
    ensures
        joined(crate::bars::bar(label, tabs, sel, focused, width).spans) == " "@ + label + " "@
            + ended(tabs.map_values(|t: Seq<SegV>| joined(t)), ' '),
{
    let l = crate::bars::bar_label(label, focused);
    assert(tabs.skip(0) =~= tabs);
    lemma_tabs_text(tabs);
    lemma_joined_add(seq![l], tabs_line(tabs));
    lemma_one_seg(l);
}

// ---- Ages and summaries ----------------------------------------------------------

/// An age is in seconds below a minute, in whole minutes below an hour, in whole hours below a
/// day, and else in whole days; a moment to come is no time ago.
pub proof fn law_ages(n: nat, rest: nat, now: i64, then: i64)
    ensures
        n < 60 ==> age(n as int) == decimal(n) + "s ago"@,
        1 <= n < 60 && rest < 60 ==> age((60 * n + rest) as int) == decimal(n) + "m ago"@,
        1 <= n < 24 && rest < 3600 ==> age((3600 * n + rest) as int) == decimal(n) + "h ago"@,
        1 <= n && rest < 86400 ==> age((86400 * n + rest) as int) == decimal(n) + "d ago"@,
        then <= now && now - then <= i64::MAX ==> elapsed(now, then) == now - then,
        now < then && now - then >= i64::MIN ==> elapsed(now, then) == 0,
{
    if 1 <= n && rest < 60 {
        assert((60 * n + rest) / 60 == n);
    }
    if 1 <= n && rest < 3600 {
        assert((3600 * n + rest) / 3600 == n);
    }
    if 1 <= n && rest < 86400 {
        assert((86400 * n + rest) / 86400 == n);
    }
}

/// The summary begins with the number of files and their totals, but for a commit, of which it
/// says the short name and up to forty characters of the subject first; it ends with how old the
/// commit is, or else the newest one.
pub proof fn law_summary(a: AppV, unix: i64)
    ensures
        ({
            let (x, y) = totals_of(a.files());
            let files = decimal(a.files().len()) + " files "@ + ("+"@ + decimal(x as nat) + " -"@
                + decimal(y as nat));
            let n = a.history().len();
            &&& a.hist() < 2 && n == 0 ==> a.hist_summary(unix) == files
            &&& a.hist() < 2 && n > 0 ==> a.hist_summary(unix) == files + " · commit "@ + age(
                elapsed(unix, a.history()[0].time),
            )
            &&& 2 <= a.hist() < n + 2 ==> {
                let c = a.history()[a.hist() - 2];
                let subject = if c.subject.len() <= 40 {
                    c.subject
                } else {
                    c.subject.take(40)
                };
                a.hist_summary(unix) == c.short + " \""@ + subject + "\" "@ + files + " · "@ + age(
                    elapsed(unix, c.time),
                )
            }
        }),
{
}

/// The bottom line shows the filter while it is typed; else a message, for three seconds after it
/// was given and no longer; else what the keys do.
pub proof fn law_bottom_line(a: AppV, now: u64)
    ensures
        a.filter_input ==> a.bottom_text(now) == " filter: "@ + a.filter
            + "▌  (Enter:apply Esc:clear)"@,
        !a.filter_input && a.status is None ==> a.bottom_text(now) == a.help_text(),
        !a.filter_input ==> (a.status matches Some((msg, t)) ==> {
            &&& now < t + 3000 ==> a.bottom_text(now) == " "@ + msg
            &&& now >= t + 3000 ==> a.bottom_text(now) == a.help_text()
        }),
{
}

} // verus!
