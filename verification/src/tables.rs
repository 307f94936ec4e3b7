//! The table from rows to screen lines, which is kept from one drawing of the diff to the next.

use crate::app::{started, AppV, Area, DocEntryV, DocKeyV, LayoutKey, WtDataV, WtUiV};
use crate::config::ConfigV;
use crate::diff_pane::{
    body_height, less_by, line_count, side_width, text_width,
};
use crate::diffview::DocV;
use crate::docs::{
    cache_ok, doc_index, law_doc_built_keeps_order, law_doc_colored_keeps_order,
    law_doc_step_keeps_order, lemma_doc_index, DocStepV,
};
use crate::git::{CommitV, FileV};
use crate::keeping::DocLook;
use crate::keys::{KeyCode, KeyEvent};
use crate::screen::{framed, minus16, Rect};
use crate::ui::Body;
use crate::wrap::{law_tops_follow_heights, sxs_heights, tops, total, uni_heights};
use vstd::prelude::*;

verus! {

// ---- What most steps leave alone -------------------------------------------------

/// What is held of documents and of the table.
pub struct Held {
    pub docs: Seq<DocEntryV>,
    pub cur_doc_key: Option<DocKeyV>,
    pub cur_doc_gen: u64,
    pub next_doc_gen: u64,
    pub row_offsets: Seq<usize>,
    pub layout_key: Option<LayoutKey>,
}

/// What a state holds of documents and of the table.
#[verifier::opaque]
pub open spec fn held(a: AppV) -> Held {
    Held {
        docs: a.docs,
        cur_doc_key: a.cur_doc_key,
        cur_doc_gen: a.cur_doc_gen,
        next_doc_gen: a.next_doc_gen,
        row_offsets: a.row_offsets,
        layout_key: a.layout_key,
    }
}

proof fn lemma_view_setters()
    ensures
        forall|a: AppV, x: WtUiV| held(#[trigger] a.with_ui(x)) == held(a),
        forall|a: AppV, x: usize| held(#[trigger] a.with_wt(x)) == held(a),
        forall|a: AppV, x: usize| held(#[trigger] a.with_scroll(x)) == held(a),
        forall|a: AppV, x: bool| held(#[trigger] a.with_wrap(x)) == held(a),
        forall|a: AppV, x: bool| held(#[trigger] a.with_sides(x)) == held(a),
        forall|a: AppV, x: bool| held(#[trigger] a.with_flat(x)) == held(a),
        forall|a: AppV, x: bool| held(#[trigger] a.with_follow(x)) == held(a),
        forall|a: AppV, x: bool| held(#[trigger] a.with_typing(x)) == held(a),
        forall|a: AppV, x: bool| held(#[trigger] a.with_quit(x)) == held(a),
        forall|a: AppV, x: bool| held(#[trigger] a.with_clear(x)) == held(a),
        forall|a: AppV, x: u16| held(#[trigger] a.with_split(x)) == held(a),
        forall|a: AppV, x: Option<usize>| held(#[trigger] a.with_picker(x)) == held(a),
        forall|a: AppV, x: Seq<char>| held(#[trigger] a.with_filter(x)) == held(a),
        forall|a: AppV, x: Option<(Seq<char>, u64)>|
            held(#[trigger] a.with_status(x)) == held(a),
        forall|a: AppV, x: Area| held(#[trigger] a.focus_on(x)) == held(a),
        forall|a: AppV| held(#[trigger] a.sync_narrow_diff()) == held(a),
{
    reveal(held);
    reveal(AppV::with_ui);
    reveal(AppV::with_wt);
    reveal(AppV::with_scroll);
    reveal(AppV::with_wrap);
    reveal(AppV::with_sides);
    reveal(AppV::with_flat);
    reveal(AppV::with_follow);
    reveal(AppV::with_typing);
    reveal(AppV::with_quit);
    reveal(AppV::with_clear);
    reveal(AppV::with_split);
    reveal(AppV::with_picker);
    reveal(AppV::with_filter);
    reveal(AppV::with_status);
    reveal(AppV::focus_on);
    reveal(AppV::sync_narrow_diff);
}

proof fn lemma_other_setters()
    ensures
        forall|a: AppV, x: Seq<WtDataV>| held(#[trigger] a.with_wts(x)) == held(a),
        forall|a: AppV, x: Seq<FileV>| held(#[trigger] a.with_files(x)) == held(a),
        forall|a: AppV, x: bool| held(#[trigger] a.with_picked(x)) == held(a),
        forall|a: AppV, x: Option<(Seq<char>, i128)>|
            held(#[trigger] a.with_followed(x)) == held(a),
        forall|a: AppV, p: Seq<char>, x: WtUiV| held(#[trigger] a.with_ui_at(p, x)) == held(a),
        forall|a: AppV, x: bool| held(#[trigger] a.with_narrow(x)) == held(a),
        forall|a: AppV, x: bool| held(#[trigger] a.with_narrow_diff(x)) == held(a),
        forall|a: AppV, x: usize| held(#[trigger] a.with_tree_height(x)) == held(a),
        forall|a: AppV, x: usize| held(#[trigger] a.with_diff_height(x)) == held(a),
        forall|a: AppV, x: usize| held(#[trigger] a.with_max_scroll(x)) == held(a),
        forall|a: AppV, x: bool| held(#[trigger] a.with_shown_sides(x)) == held(a),
{
    reveal(held);
    reveal(AppV::with_wts);
    reveal(AppV::with_files);
    reveal(AppV::with_picked);
    reveal(AppV::with_followed);
    reveal(AppV::with_ui_at);
    reveal(AppV::with_narrow);
    reveal(AppV::with_narrow_diff);
    reveal(AppV::with_tree_height);
    reveal(AppV::with_diff_height);
    reveal(AppV::with_max_scroll);
    reveal(AppV::with_shown_sides);
}

proof fn lemma_moves()
    ensures
        forall|a: AppV| held(#[trigger] a.clamp_cursor()) == held(a),
        forall|a: AppV, i: int| held(#[trigger] a.set_wt(i)) == held(a),
        forall|a: AppV, i: int| held((#[trigger] a.set_hist(i)).0) == held(a),
        forall|a: AppV, i: int| held(#[trigger] a.move_cursor(i)) == held(a),
        forall|a: AppV, forward: bool| held(#[trigger] a.step_file(forward)) == held(a),
        forall|a: AppV, p: Seq<char>| held(#[trigger] a.select_file_by_path(p)) == held(a),
{
    lemma_view_setters();
    reveal(AppV::clamp_cursor);
    reveal(AppV::set_wt);
    reveal(AppV::set_hist);
    reveal(AppV::move_cursor);
    reveal(AppV::step_file);
    reveal(AppV::select_file_by_path);
}

proof fn lemma_key_tree_holds(a: AppV, k: KeyCode)
    ensures
        held(a.key_tree(k)) == held(a),
{
    lemma_view_setters();
    lemma_moves();
    reveal(AppV::key_tree);
    reveal(AppV::tree_left);
    reveal(AppV::tree_right);
    reveal(AppV::tree_enter);
}

proof fn lemma_key_focused_holds(a: AppV, k: KeyCode)
    ensures
        held(a.key_focused(k).0) == held(a),
{
    lemma_view_setters();
    lemma_moves();
    lemma_key_tree_holds(a, k);
    reveal(AppV::key_focused);
    reveal(AppV::key_worktree);
    reveal(AppV::key_history);
    reveal(AppV::key_diff);
}

proof fn lemma_key_anywhere_holds(a: AppV, k: KeyCode, now: u64)
    ensures
        a.key_anywhere(k, now) matches Some(r) ==> held(r.0) == held(a),
{
    lemma_view_setters();
    lemma_moves();
    reveal(AppV::key_anywhere);
}

/// Keys leave alone what is held of documents and of the table.
pub proof fn law_keys_leave_documents(a: AppV, key: KeyEvent, now: u64)
    ensures
        held(a.on_key(key, now).0) == held(a),
{
    let b = a.with_status(None);
    lemma_view_setters();
    lemma_moves();
    lemma_key_anywhere_holds(b, key.code, now);
    lemma_key_focused_holds(b, key.code);
    reveal(AppV::on_key);
    reveal(AppV::key_filter);
    reveal(AppV::key_picker);
    reveal(AppV::key_control);
}

proof fn lemma_sources_shown_hold(a: AppV, wts: Seq<WtDataV>)
    ensures
        held(a.sources_shown(wts)) == held(a),
    decreases wts.len(),
{
    lemma_other_setters();
    if wts.len() > 0 {
        lemma_sources_shown_hold(a, wts.drop_last());
    }
}

/// Looking at the repository anew, and following changes, leave alone what is held of documents
/// and of the table.
pub proof fn law_news_leave_documents(
    a: AppV,
    wts: Seq<WtDataV>,
    kept_wt: Option<Seq<char>>,
    kept_file: Option<Seq<char>>,
    path: Seq<char>,
    history: Seq<CommitV>,
    files: Seq<FileV>,
    uncommitted: bool,
    mtimes: Seq<Option<i128>>,
)
    ensures
        held(a.with_ui_at(path, a.ui_for(path, history))) == held(a),
        held(a.sources_shown(wts)) == held(a),
        held(a.refreshed(wts, kept_wt, kept_file)) == held(a),
        held(a.install_files(files)) == held(a),
        held(a.follow_hist(uncommitted).0) == held(a),
        held(a.follow_pick(mtimes).0) == held(a),
{
    lemma_view_setters();
    lemma_other_setters();
    lemma_moves();
    lemma_sources_shown_hold(a, wts);
    reveal(AppV::refreshed);
    reveal(AppV::install_files);
    reveal(AppV::follow_pick);
}

/// Messages, opening a file and jumping to a hunk leave alone what is held of documents and of
/// the table.
pub proof fn law_opening_leaves_documents(
    a: AppV,
    name: Option<Seq<char>>,
    line: Option<u32>,
    home: Option<Seq<char>>,
    message: Seq<char>,
    error: Option<Seq<char>>,
    report_ok: bool,
    doc: DocV,
    forward: bool,
    at: usize,
    now: u64,
)
    ensures
        held(a.says(message, now)) == held(a),
        held(a.open_check(now).0) == held(a),
        held(a.open_command(name, line, home, now).0) == held(a),
        held(a.opened(message, error, report_ok, now)) == held(a),
        held(a.jump_hunk(doc, forward, at)) == held(a),
{
    lemma_view_setters();
}

/// Sizing the screen and drawing the file list leave alone what is held of documents and of the
/// table.
pub proof fn law_sizes_leave_documents(a: AppV, width: u16, rect: Rect)
    ensures
        held(a.sized(width)) == held(a),
        held(a.tree_drawn(rect)) == held(a),
{
    lemma_view_setters();
    lemma_other_setters();
    reveal(AppV::sized);
    reveal(AppV::tree_drawn);
}

// ---- The table -------------------------------------------------------------------

/// The table from rows to screen lines of a document, for what a table is made for.
pub open spec fn table_for(doc: DocV, key: LayoutKey) -> Seq<usize> {
    if key.3 {
        tops(sxs_heights(doc.sxs, key.2, side_width(key.1) as nat))
    } else {
        tops(uni_heights(doc.unified, key.2, text_width(key.1) as nat))
    }
}

/// Whether the table belongs to what it was made for: to no document of a later generation, and
/// where the document of its generation is kept, it is the table of that document.
pub open spec fn table_ok(h: Held) -> bool {
    match h.layout_key {
        None => true,
        Some(k) => {
            &&& k.0 < h.next_doc_gen
            &&& forall|i: int|
                0 <= i < h.docs.len() && (#[trigger] h.docs[i]).gen == k.0 ==> h.row_offsets
                    == table_for(h.docs[i].doc, k)
        },
    }
}

/// Whether the documents that are kept are in order and the table belongs to what it was made
/// for.
pub open spec fn kept_ok(a: AppV) -> bool {
    cache_ok(a) && table_ok(held(a))
}

/// Whether a document is the one that is kept under the generation that is shown.
pub open spec fn is_current(a: AppV, doc: DocV) -> bool {
    exists|i: int|
        0 <= i < a.docs.len() && (#[trigger] a.docs[i]).gen == a.cur_doc_gen && a.docs[i].doc
            == doc
}

/// At the start all is in order.
pub proof fn law_kept_ok_at_start(cfg: ConfigV, repo: Seq<char>, base: Seq<char>)
    ensures
        kept_ok(started(cfg, repo, base)),
{
    reveal(held);
}

/// A step that leaves alone what is held keeps it in order, and the document that is shown.
pub proof fn law_held_keeps_order(a: AppV, b: AppV, doc: DocV)
    requires
        held(a) == held(b),
    ensures
        kept_ok(a) == kept_ok(b),
        is_current(a, doc) == is_current(b, doc),
{
    reveal(held);
    assert(held(a).docs == a.docs && held(b).docs == b.docs);
    assert(held(a).next_doc_gen == a.next_doc_gen && held(b).next_doc_gen == b.next_doc_gen);
    assert(held(a).cur_doc_gen == a.cur_doc_gen && held(b).cur_doc_gen == b.cur_doc_gen);
}

/// Looking for a document keeps all in order.
pub proof fn law_doc_step_keeps_table(a: AppV, mtime: u128)
    requires
        kept_ok(a),
    ensures
        kept_ok(a.doc_step(mtime).0),
{
    law_doc_step_keeps_order(a, mtime);
    reveal(held);
    reveal(AppV::doc_step);
    reveal(AppV::with_docs);
    reveal(AppV::with_doc_key);
    reveal(AppV::with_scroll);
    reveal(AppV::with_doc_gen);
    if a.doc_key(mtime) is Some {
        let key = a.doc_key(mtime)->0;
        lemma_doc_index(a.docs, key);
        if doc_index(a.docs, key) is Some {
            let i = doc_index(a.docs, key)->0;
            let v = seq![a.docs[i]] + a.docs.remove(i);
            assert forall|x: int| 0 <= x < v.len() implies exists|p: int|
                0 <= p < a.docs.len() && #[trigger] v[x] == a.docs[p] by {
                let p = if x == 0 {
                    i
                } else if x - 1 < i {
                    x - 1
                } else {
                    x
                };
                assert(v[x] == a.docs[p]);
            }
        }
    }
}

/// Keeping a document that was not kept before keeps all in order, as long as the generations
/// last: no table was made for a document of the new generation.
pub proof fn law_doc_built_keeps_table(a: AppV, key: DocKeyV, colored_later: bool, doc: DocV)
    requires
        kept_ok(a),
        forall|i: int| 0 <= i < a.docs.len() ==> (#[trigger] a.docs[i]).key != key,
        a.next_doc_gen < u64::MAX,
    ensures
        kept_ok(a.doc_built(key, colored_later, doc)),
        is_current(a.doc_built(key, colored_later, doc), doc),
{
    law_doc_built_keeps_order(a, key, colored_later, doc);
    reveal(held);
    reveal(AppV::doc_built);
    reveal(AppV::with_docs);
    reveal(AppV::with_next_gen);
    reveal(AppV::with_doc_gen);
    let e = DocEntryV { key, doc, hl_done: !colored_later, gen: a.next_doc_gen };
    let v = seq![e] + a.docs;
    let b = a.doc_built(key, colored_later, doc);
    assert forall|x: int| 0 < x < b.docs.len() implies #[trigger] b.docs[x] == a.docs[x - 1] by {
        assert(b.docs[x] == v[x]);
    }
    assert(b.docs[0] == e);
}

/// Taking in a colored document keeps all in order, as long as the generations last.
pub proof fn law_doc_colored_keeps_table(a: AppV, key: DocKeyV, doc: DocV)
    requires
        kept_ok(a),
        a.next_doc_gen < u64::MAX,
    ensures
        kept_ok(a.doc_colored(key, doc)),
{
    law_doc_colored_keeps_order(a, key, doc);
    reveal(held);
    reveal(AppV::doc_colored);
    reveal(AppV::with_docs);
    reveal(AppV::with_next_gen);
    lemma_doc_index(a.docs, key);
    let b = a.doc_colored(key, doc);
    if doc_index(a.docs, key) is Some {
        let i = doc_index(a.docs, key)->0;
        assert forall|x: int| 0 <= x < b.docs.len() && x != i implies #[trigger] b.docs[x]
            == a.docs[x] by {}
        assert(b.docs[i].gen == a.next_doc_gen);
    }
}

/// A look at the selected file's document keeps all in order, as long as the generations last,
/// and the document that it gives is the one of the generation that is shown.
pub proof fn law_look_keeps_table(l: DocLook)
    requires
        kept_ok(l.at),
        l.at.next_doc_gen < u64::MAX,
    ensures
        kept_ok(l.after()),
        match l.at.doc_step(l.mtime).1 {
            DocStepV::Nothing => true,
            DocStepV::Ready(d) => is_current(l.after(), d),
            DocStepV::Recolor(d, _) => is_current(l.after(), d),
            DocStepV::Build(_, _) => is_current(l.after(), l.doc),
        },
{
    reveal(DocLook::after);
    law_doc_step_keeps_order(l.at, l.mtime);
    law_doc_step_keeps_table(l.at, l.mtime);
    let (b, step) = l.at.doc_step(l.mtime);
    assert(b.next_doc_gen == l.at.next_doc_gen && (step is Ready || step is Recolor ==> {
        &&& b.docs.len() > 0
        &&& b.docs[0].gen == b.cur_doc_gen
        &&& step matches DocStepV::Ready(d) ==> d == b.docs[0].doc
        &&& step matches DocStepV::Recolor(d, _) ==> d == b.docs[0].doc
    })) by {
        reveal(AppV::doc_step);
        reveal(AppV::with_docs);
        reveal(AppV::with_doc_key);
        reveal(AppV::with_scroll);
        reveal(AppV::with_doc_gen);
    }
    if let DocStepV::Build(key, colored_later) = step {
        law_doc_built_keeps_table(b, key, colored_later, l.doc);
    }
}

/// The state before the table is made: what is shown is set, what is held stays.
proof fn lemma_ready(a: AppV, inner: Rect, noted: bool)
    ensures
        ({
            let c = a.diff_start(inner);
            let b = if noted {
                c.with_diff_height(body_height(inner.height, true))
            } else {
                c
            };
            &&& held(b) == held(a)
            &&& b.effective_sxs == (a.sxs && inner.width >= 90)
            &&& b.wrap == a.wrap
            &&& b.diff_height == body_height(inner.height, noted)
        }),
{
    lemma_other_setters();
    reveal(AppV::with_shown_sides);
    reveal(AppV::with_diff_height);
}

/// The table belongs to the document that it is made or kept for.
proof fn lemma_lay_out(a: AppV, doc: DocV, width: u16)
    requires
        kept_ok(a),
        is_current(a, doc),
    ensures
        ({
            let b = a.lay_out(doc, width);
            &&& b.effective_sxs == a.effective_sxs
            &&& b.wrap == a.wrap
            &&& b.diff_height == a.diff_height
            &&& b.row_offsets == b.table(doc, width)
            &&& b.layout_key == Some(b.wanted_layout(width))
            &&& held(b) == (Held {
                row_offsets: b.row_offsets,
                layout_key: b.layout_key,
                ..held(a)
            })
        }),
{
    let i = choose|i: int|
        0 <= i < a.docs.len() && (#[trigger] a.docs[i]).gen == a.cur_doc_gen && a.docs[i].doc
            == doc;
    reveal(held);
    reveal(AppV::lay_out);
    if a.layout_key == Some(a.wanted_layout(width)) {
        assert(held(a).docs[i] == a.docs[i]);
    } else {
        reveal(AppV::with_scroll);
        reveal(AppV::with_offsets);
        reveal(AppV::with_layout_key);
    }
}

/// Settling only sets how far the diff is scrolled.
proof fn lemma_settle(a: AppV, h: usize)
    ensures
        ({
            let b = a.settle(h);
            let n = line_count(a.row_offsets);
            &&& held(b) == held(a)
            &&& b.row_offsets == a.row_offsets
            &&& b.layout_key == a.layout_key
            &&& b.cur_doc_gen == a.cur_doc_gen
            &&& b.effective_sxs == a.effective_sxs
            &&& b.wrap == a.wrap
            &&& b.diff_height == a.diff_height
            &&& b.diff_scroll <= less_by(n, 1)
            &&& b.diff_max_scroll == less_by(n, h)
        }),
{
    reveal(held);
    reveal(AppV::settle);
    reveal(AppV::with_scroll);
    reveal(AppV::with_max_scroll);
}

/// The state after the diff was drawn with a document.
proof fn lemma_diff_drawn(a: AppV, rect: Rect, doc: DocV)
    requires
        kept_ok(a),
        is_current(a, doc),
        a.selected_file() is Some,
        rect.height >= 4,
    ensures
        ({
            let b = a.diff_drawn(rect, Some(doc));
            let width = framed(rect).width;
            let h = body_height(framed(rect).height, doc.note is Some);
            let n = line_count(b.row_offsets);
            &&& b.effective_sxs == (a.sxs && width >= 90)
            &&& b.wrap == a.wrap
            &&& b.row_offsets == b.table(doc, width)
            &&& b.layout_key == Some(b.wanted_layout(width))
            &&& b.diff_height == h
            &&& b.diff_scroll <= less_by(n, 1)
            &&& b.diff_max_scroll == less_by(n, h)
            &&& held(b) == (Held {
                row_offsets: b.row_offsets,
                layout_key: b.layout_key,
                ..held(a)
            })
        }),
{
    let inner = framed(rect);
    let noted = doc.note is Some;
    let h = body_height(inner.height, noted);
    let c = a.diff_start(inner);
    let ready = if noted {
        c.with_diff_height(body_height(inner.height, true))
    } else {
        c
    };
    lemma_ready(a, inner, noted);
    law_held_keeps_order(a, ready, doc);
    lemma_lay_out(ready, doc, inner.width);
    let laid = ready.lay_out(doc, inner.width);
    lemma_settle(laid, h);
    assert(a.diff_drawn(rect, Some(doc)) == laid.settle(h)) by {
        reveal(AppV::diff_drawn);
    }
}

/// Drawing the body keeps all in order, where the document is the one of the generation that is
/// shown.
pub proof fn law_drawing_keeps_table(a: AppV, body: Body, doc: Option<DocV>)
    requires
        kept_ok(a),
        doc matches Some(d) ==> is_current(a, d),
    ensures
        kept_ok(a.body_drawn(body, doc)),
        doc matches Some(d) ==> is_current(a.body_drawn(body, doc), d),
        a.body_drawn(body, doc).cur_doc_key == a.cur_doc_key,
        a.body_drawn(body, doc).docs == a.docs,
        a.body_drawn(body, doc).cur_doc_gen == a.cur_doc_gen,
{
    reveal(AppV::body_drawn);
    match body {
        Body::Diff(r) => {
            lemma_diff_drawn_keeps(a, r, doc);
        },
        Body::Tree(r) => {
            let b = a.with_diff_height(minus16(r.height, 3) as usize);
            lemma_other_setters();
            law_sizes_leave_documents(b, 0, r);
            lemma_same_held(a, b.tree_drawn(r), doc);
        },
        Body::Both(t, d) => {
            let b = a.tree_drawn(t);
            law_sizes_leave_documents(a, 0, t);
            lemma_same_held(a, b, doc);
            lemma_diff_drawn_keeps(b, d, doc);
        },
    }
}

proof fn lemma_same_held(a: AppV, b: AppV, doc: Option<DocV>)
    requires
        held(a) == held(b),
        kept_ok(a),
        doc matches Some(d) ==> is_current(a, d),
    ensures
        kept_ok(b),
        doc matches Some(d) ==> is_current(b, d),
        b.docs == a.docs,
        b.cur_doc_key == a.cur_doc_key,
        b.cur_doc_gen == a.cur_doc_gen,
{
    if let Some(d) = doc {
        law_held_keeps_order(a, b, d);
    }
    reveal(held);
}

proof fn lemma_diff_drawn_keeps(a: AppV, rect: Rect, doc: Option<DocV>)
    requires
        kept_ok(a),
        doc matches Some(d) ==> is_current(a, d),
    ensures
        kept_ok(a.diff_drawn(rect, doc)),
        doc matches Some(d) ==> is_current(a.diff_drawn(rect, doc), d),
        a.diff_drawn(rect, doc).docs == a.docs,
        a.diff_drawn(rect, doc).cur_doc_key == a.cur_doc_key,
        a.diff_drawn(rect, doc).cur_doc_gen == a.cur_doc_gen,
{
    let b = a.diff_drawn(rect, doc);
    if framed(rect).height >= 2 && a.selected_file() is Some && doc is Some {
        let d = doc->0;
        lemma_diff_drawn(a, rect, d);
        let k = b.layout_key->0;
        let i = choose|i: int|
            0 <= i < a.docs.len() && (#[trigger] a.docs[i]).gen == a.cur_doc_gen
                && a.docs[i].doc == d;
        reveal(held);
        assert forall|j: int|
            0 <= j < b.docs.len() && (#[trigger] b.docs[j]).gen == k.0 implies b.row_offsets
            == table_for(b.docs[j].doc, k) by {
            assert(a.docs[i].gen == a.docs[j].gen);
        }
        assert(b.docs[i].gen == b.cur_doc_gen);
    } else {
        lemma_view_setters();
        lemma_other_setters();
        reveal(AppV::diff_drawn);
        lemma_same_held(a, b, doc);
    }
}

/// After the diff was drawn with the document of the selected file: two sides are shown exactly
/// where they are wanted and the pane inside its frame has 90 columns; the table has one entry
/// more than the document has rows in that view, starts at line 0, strictly ascends and ends in
/// the number of screen lines; the diff is scrolled no further than its last line; its height is
/// that of the pane without the frame and the header, and without the note where there is one;
/// and scrolling stops where the last lines fill that height.
pub proof fn law_table_after_drawing(a: AppV, rect: Rect, doc: DocV)
    requires
        kept_ok(a),
        is_current(a, doc),
        a.selected_file() is Some,
        rect.height >= 4,
        rect.width >= 2,
        ({
            let b = a.diff_drawn(rect, Some(doc));
            total(b.heights(doc, b.wrap, (rect.width - 2) as u16)) <= usize::MAX
        }),
    ensures
        ({
            let b = a.diff_drawn(rect, Some(doc));
            let width = (rect.width - 2) as u16;
            let lines = total(b.heights(doc, b.wrap, width)) as usize;
            let rows = if b.effective_sxs {
                doc.sxs.len()
            } else {
                doc.unified.len()
            };
            &&& b.effective_sxs == (a.sxs && rect.width - 2 >= 90)
            &&& b.wrap == a.wrap
            &&& b.row_offsets == tops(b.heights(doc, b.wrap, width))
            &&& b.row_offsets.len() == rows + 1
            &&& b.row_offsets[0] == 0
            &&& forall|i: int, j: int|
                0 <= i < j < b.row_offsets.len() ==> b.row_offsets[i] < b.row_offsets[j]
            &&& b.row_offsets.last() == lines
            &&& b.diff_scroll <= less_by(lines, 1)
            &&& b.diff_height == rect.height - 3 - (if doc.note is Some {
                1int
            } else {
                0
            })
            &&& b.diff_max_scroll == less_by(lines, b.diff_height)
            &&& kept_ok(b)
            &&& is_current(b, doc)
        }),
{
    let b = a.diff_drawn(rect, Some(doc));
    let width = (rect.width - 2) as u16;
    assert(framed(rect).width == width);
    lemma_diff_drawn(a, rect, doc);
    lemma_diff_drawn_keeps(a, rect, Some(doc));
    let hs = b.heights(doc, b.wrap, width);
    assert forall|i: int| 0 <= i < hs.len() implies #[trigger] hs[i] >= 1 by {}
    law_tops_follow_heights(hs);
}

} // verus!
