//! What the title, the tab bars and the list of openers show, and how numbers are read.

use crate::app::AppV;
use crate::bars::{bar, bar_label, first_tab, picker_rect, tab_look, tabs_line, tabs_width};
use crate::row_laws::{lemma_joined_one, lemma_joined_push};
use crate::screen::{framed, DrawV, Rect};
use crate::style::{joined, lemma_joined_add, SegV};
use crate::text::{
    digits_value, is_digit, left_aligned, right_aligned, signed_value, unsigned_value, value,
};
use crate::width::str_columns;
use vstd::prelude::*;

verus! {

/// The title names the repository. At its right stands the base branch, and while changes are
/// followed that they are.
pub proof fn law_title(a: AppV)
    ensures
        joined(a.title_line().spans) == " wtd "@ + ("— "@ + a.repo_name),
        joined(a.title_right_line().spans) == a.title_right(),
        a.follow ==> a.title_right() == "● follow  "@ + ("base: "@ + a.base),
        !a.follow ==> a.title_right() == "base: "@ + a.base,
{
    let v = a.title_line().spans;
    lemma_joined_one(v[0]);
    lemma_joined_push(seq![v[0]], v[1]);
    assert(v =~= seq![v[0]].push(v[1]));
    let r = a.title_right_line().spans;
    lemma_joined_one(r[0]);
    assert(r =~= seq![r[0]]);
}

proof fn lemma_no_tab_too_many(tabs: Seq<Seq<SegV>>, start: int, sel: int, avail: nat)
    requires
        0 <= start <= sel < tabs.len(),
    ensures
        start <= first_tab(tabs, start, sel, avail) <= sel,
        forall|k: int|
            start <= k < first_tab(tabs, start, sel, avail) ==> #[trigger] tabs_width(tabs, k, sel)
                > avail,
    decreases sel - start,
{
    if start < sel && tabs_width(tabs, start, sel) > avail {
        lemma_no_tab_too_many(tabs, start + 1, sel, avail);
    }
}

/// A tab is left out at the front only where the selected one would not fit with it.
pub proof fn law_tabs_left_out(tabs: Seq<Seq<SegV>>, sel: int, avail: nat, k: int)
    requires
        0 <= sel < tabs.len(),
        0 <= k < first_tab(tabs, 0, sel, avail),
    ensures
        tabs_width(tabs, k, sel) > avail,
{
    lemma_no_tab_too_many(tabs, 0, sel, avail);
}

/// Where tabs are left out at the front, a sign stands in their place, and the others follow.
pub proof fn law_bar_without_front(
    label: Seq<char>,
    tabs: Seq<Seq<SegV>>,
    sel: int,
    focused: bool,
    width: u16,
)
    requires
        0 <= sel < tabs.len(),
        str_columns(bar_label(label, focused).text) <= width,
    ensures
        ({
            let l = bar_label(label, focused);
            let start = first_tab(tabs, 0, sel, (width - str_columns(l.text)) as nat);
            &&& start > 0 ==> joined(bar(label, tabs, sel, focused, width).spans) == " "@ + label
                + " "@ + "… "@ + joined(tabs_line(tabs.skip(start)))
            &&& start == 0 ==> joined(bar(label, tabs, sel, focused, width).spans) == " "@ + label
                + " "@ + joined(tabs_line(tabs))
        }),
{
    let l = bar_label(label, focused);
    let start = first_tab(tabs, 0, sel, (width - str_columns(l.text)) as nat);
    let more = crate::screen::inked_seg(crate::screen::FG_DIM, "… "@);
    lemma_no_tab_too_many(tabs, 0, sel, (width - str_columns(l.text)) as nat);
    lemma_joined_one(l);
    lemma_joined_push(seq![l], more);
    assert(seq![l, more] =~= seq![l].push(more));
    lemma_joined_add(seq![l, more], tabs_line(tabs.skip(start)));
    lemma_joined_add(seq![l], tabs_line(tabs.skip(start)));
    assert(tabs.skip(0) =~= tabs);
}

/// The selected tab stands out by its background, more so while its bar has the focus; the others
/// have none.
pub proof fn law_tab_styles(focused: bool)
    ensures
        tab_look(true, focused).bg is Some,
        tab_look(false, focused).bg is None,
        tab_look(true, true) != tab_look(true, false),
        tab_look(true, true).bold,
        !tab_look(true, false).bold,
        !tab_look(false, focused).bold,
{
}

/// In the tabs of the worktrees and of the history, exactly the selected one is marked.
pub proof fn law_selected_is_marked(a: AppV, i: int)
    ensures
        0 <= i < a.wts.len() ==> (a.wt_tabs()[i][0].style.bg is Some <==> i == a.sel_wt),
        0 <= i < a.hist_len() ==> (a.hist_tabs()[i][0].style.bg is Some <==> i == a.hist()),
{
}

/// The list of openers has a line for each, in order, with a star at the default one, and exactly
/// the selected one is marked. It is drawn over what is there while one is picked, and not else.
pub proof fn law_opener_list(a: AppV, area: Rect, sel: usize, i: int)
    requires
        0 <= i < a.cfg.openers.len(),
        a.cfg.openers.len() <= usize::MAX,
    ensures
        ({
            let v = a.opener_lines(sel);
            let name = a.cfg.openers[i].0;
            &&& v.len() == a.cfg.openers.len()
            &&& name == a.cfg.default ==> joined(v[i].spans) == " "@ + "*"@ + " "@ + name + " "@
            &&& name != a.cfg.default ==> joined(v[i].spans) == " "@ + " "@ + " "@ + name + " "@
            &&& v[i].spans[0].style.bg is Some <==> i == sel
        }),
        a.picker is None ==> a.picker_draws(area).len() == 0,
        a.picker == Some(sel) ==> {
            let d = a.picker_draws(area);
            let r = picker_rect(area, a.cfg.openers.len() as usize);
            &&& d.len() == 3
            &&& d[0] == DrawV::Clear(r)
            &&& d[2] == DrawV::Text(framed(r), a.opener_lines(sel))
        },
{
    let v = a.opener_lines(sel);
    lemma_joined_one(v[i].spans[0]);
    assert(v[i].spans =~= seq![v[i].spans[0]]);
}

/// The list of openers is 34 columns wide and has two lines more than there are openers, as far as
/// the screen has room, and is in the middle of it.
pub proof fn law_picker_place(area: Rect, n: usize)
    requires
        n <= 1000,
    ensures
        ({
            let r = picker_rect(area, n);
            &&& area.width >= 34 ==> r.width == 34
            &&& area.width < 34 ==> r.width == area.width
            &&& area.height >= n + 2 ==> r.height == n + 2
            &&& area.height < n + 2 ==> r.height == area.height
            &&& r.x == (area.width - r.width) / 2
            &&& r.y == (area.height - r.height) / 2
        }),
{
}

/// A text that is aligned has spaces on the other side, and is never cut off.
pub proof fn law_aligned(s: Seq<char>, n: nat)
    ensures
        s.len() <= n ==> right_aligned(s, n).len() == n && left_aligned(s, n).len() == n,
        s.len() >= n ==> right_aligned(s, n) == s && left_aligned(s, n) == s,
        s.len() < n ==> right_aligned(s, n).skip(n - s.len()) == s && left_aligned(s, n).take(
            s.len() as int,
        ) == s,
        forall|i: int| 0 <= i < n - s.len() ==> #[trigger] right_aligned(s, n)[i] == ' ',
        forall|i: int| s.len() <= i < n ==> #[trigger] left_aligned(s, n)[i] == ' ',
{
    if s.len() < n {
        assert(right_aligned(s, n).skip(n - s.len()) =~= s);
        assert(left_aligned(s, n).take(s.len() as int) =~= s);
    }
}

proof fn lemma_value_push(s: Seq<char>, d: nat)
    requires
        d < 10,
    ensures
        value(s.push((48 + d) as char)) == 10 * value(s) + d,
{
    assert(s.push((48 + d) as char).drop_last() =~= s);
}

/// A number is read digit by digit: one more digit makes it ten times as large, and adds the
/// digit. A plus in front changes nothing, a minus turns a signed number round, and what holds
/// anything else is no number.
pub proof fn law_numbers(s: Seq<char>, d: nat, c: char)
    requires
        d < 10,
        s.len() > 0,
        forall|i: int| 0 <= i < s.len() ==> is_digit(#[trigger] s[i]),
    ensures
        digits_value(seq![(48 + d) as char]) == Some(d),
        digits_value(s.push((48 + d) as char)) == Some((10 * digits_value(s)->0 + d) as nat),
        !('0' <= c <= '9') ==> digits_value(s.push(c)) is None,
        unsigned_value(seq!['+'] + s, u64::MAX as nat) == unsigned_value(s, u64::MAX as nat),
        unsigned_value(seq!['-'] + s, u64::MAX as nat) is None,
        digits_value(s)->0 <= i64::MAX ==> signed_value(s) == Some(digits_value(s)->0 as int)
            && signed_value(seq!['-'] + s) == Some(-(digits_value(s)->0 as int)),
        digits_value(Seq::<char>::empty()) is None,
{
    let x = (48 + d) as char;
    let one = seq![x];
    assert(is_digit(x));
    assert(one.drop_last() =~= Seq::<char>::empty());
    assert(value(one.drop_last()) == 0);
    assert(value(one) == d);
    assert(one[0] == x);
    let t = s.push(x);
    lemma_value_push(s, d);
    assert forall|i: int| 0 <= i < t.len() implies is_digit(#[trigger] t[i]) by {
        if i < s.len() {
            assert(t[i] == s[i]);
        }
    }
    let u = s.push(c);
    assert(u[s.len() as int] == c);
    assert(is_digit(s[0]));
    assert((seq!['+'] + s).skip(1) =~= s);
    assert((seq!['-'] + s).skip(1) =~= s);
    let m = seq!['-'] + s;
    assert(m[0] == '-' && !is_digit(m[0]));
    assert(crate::text::without_sign(m, '+') == m);
    assert(crate::text::without_sign(s, '+') == s);
}

} // verus!
