//! What the file list shows of a row, how lines fall into words, and which documents are kept.

use crate::app::{AppV, DocEntryV, DocKeyV};
use crate::diffview::DocV;
use crate::docs::{doc_index, lemma_doc_index, upto, wants_color, DocStepV};
use crate::git::{FileStatus, FileV};
use crate::icons::{icon_by_ext, icon_by_name, icon_of};
use crate::status_out::stats_text;
use crate::style::{joined, lemma_joined_add, SegV};
use crate::text::decimal;
use crate::text_laws::law_after_last;
use crate::tokens::{alphanumeric, tokens_of, word_char, word_len};
use crate::tree::RowV;
use crate::tree_pane::{
    dir_spans, file_row_spans, file_spans, gap, indent, mark_spans, row_line, stats_spans,
};
use crate::width::str_columns;
use crate::wrap::spread;
use vstd::prelude::*;

verus! {

// ---- Rows of the file list -------------------------------------------------------

pub proof fn lemma_joined_one(s: SegV)
    ensures
        joined(seq![s]) == s.text,
{
    assert(seq![s].drop_last() =~= Seq::<SegV>::empty());
    assert(joined(seq![s].drop_last()) =~= Seq::<char>::empty());
    assert(joined(seq![s]) =~= s.text);
}

pub proof fn lemma_joined_push(v: Seq<SegV>, s: SegV)
    ensures
        joined(v.push(s)) == joined(v) + s.text,
{
    assert(v.push(s).drop_last() =~= v);
}

/// Some spaces.
pub open spec fn gap_of(n: nat) -> Seq<char> {
    Seq::new(n, |i: int| ' ')
}

/// The row of a directory reads: two spaces for each level and one more, an arrow down where it is
/// expanded and to the right where it is not, a space, and its label.
pub proof fn law_directory_row(row: RowV)
    requires
        2 * row.depth + 1 <= usize::MAX,
    ensures
        row.expanded ==> joined(dir_spans(row, false)) == gap_of((2 * row.depth + 1) as nat)
            + seq!['▾', ' '] + row.label,
        !row.expanded ==> joined(dir_spans(row, false)) == gap_of((2 * row.depth + 1) as nat)
            + seq!['▸', ' '] + row.label,
{
    let v = dir_spans(row, false);
    reveal_strlit("▾ ");
    reveal_strlit("▸ ");
    assert("▾ "@ =~= seq!['▾', ' ']);
    assert("▸ "@ =~= seq!['▸', ' ']);
    assert(v =~= seq![v[0]].push(v[1]).push(v[2]));
    lemma_joined_one(v[0]);
    lemma_joined_push(seq![v[0]], v[1]);
    lemma_joined_push(seq![v[0]].push(v[1]), v[2]);
    assert(indent(row.depth) =~= gap_of((2 * row.depth + 1) as nat));
}

/// The letter of a status.
pub open spec fn letter(status: FileStatus) -> char {
    match status {
        FileStatus::Modified => 'M',
        FileStatus::Added => 'A',
        FileStatus::Deleted => 'D',
        FileStatus::Renamed => 'R',
        FileStatus::Untracked => '?',
        FileStatus::Other => '·',
    }
}

proof fn lemma_file_head(row: RowV, f: FileV)
    requires
        2 * row.depth + 1 <= usize::MAX,
    ensures
        joined(file_spans(row, f, false)) == gap_of((2 * row.depth + 1) as nat) + seq![
            letter(f.status),
            ' ',
        ] + row.label,
{
    let v = file_spans(row, f, false);
    reveal_strlit(" ");
    assert(v =~= seq![v[0]].push(v[1]).push(v[2]));
    lemma_joined_one(v[0]);
    lemma_joined_push(seq![v[0]], v[1]);
    lemma_joined_push(seq![v[0]].push(v[1]), v[2]);
    assert(indent(row.depth) =~= gap_of((2 * row.depth + 1) as nat));
    assert(v[1].text =~= seq![letter(f.status), ' ']);
}

proof fn lemma_stats(f: FileV)
    ensures
        joined(stats_spans(f)) == stats_text(f),
{
    let v = stats_spans(f);
    if f.added is Some && f.deleted is Some {
        reveal_strlit(" -");
        reveal_strlit(" ");
        reveal_strlit("-");
        assert(v =~= seq![v[0]].push(v[1]).push(v[2]));
        lemma_joined_one(v[0]);
        lemma_joined_push(seq![v[0]], v[1]);
        lemma_joined_push(seq![v[0]].push(v[1]), v[2]);
        let d = decimal(f.deleted->0 as nat);
        assert(" "@ + ("-"@ + d) =~= " -"@ + d);
        assert(joined(v) =~= stats_text(f));
    } else {
        assert(v =~= seq![v[0]]);
        lemma_joined_one(v[0]);
    }
}

/// The row of a file reads: its indent, the letter of its status, a space and its label. Where
/// there is room, its counts stand at the right, one column from the edge, and behind them the
/// mark of the file that is followed.
pub proof fn law_file_row(row: RowV, f: FileV, followed: bool, width: usize)
    requires
        2 * row.depth + 1 <= usize::MAX,
    ensures
        ({
            let head = gap_of((2 * row.depth + 1) as nat) + seq![letter(f.status), ' '] + row.label;
            let used = spread(file_spans(row, f, false));
            let counts = if f.added is Some && f.deleted is Some {
                "+"@ + decimal(f.added->0 as nat) + " -"@ + decimal(f.deleted->0 as nat)
            } else {
                "Bin"@
            };
            let mark = if followed {
                " ← now"@
            } else {
                ""@
            };
            let taken = used + str_columns(counts) + str_columns(mark) + 1;
            let shown = joined(file_row_spans(row, f, false, followed, width));
            &&& taken < width ==> shown == head + gap_of((width - taken) as nat) + counts + mark
            &&& taken >= width ==> shown == head
        }),
{
    lemma_file_head(row, f);
    lemma_stats(f);
    let h = file_spans(row, f, false);
    let n = gap(spread(h), f, followed, width);
    if n > 0 {
        let blank = crate::screen::raw_seg(crate::text::blanks(n));
        lemma_joined_push(h, blank);
        lemma_joined_add(h.push(blank), stats_spans(f));
        lemma_joined_add(h.push(blank) + stats_spans(f), mark_spans(followed));
        assert(crate::text::blanks(n) =~= gap_of(n));
        if followed {
            lemma_joined_one(mark_spans(true)[0]);
            assert(mark_spans(true) =~= seq![mark_spans(true)[0]]);
        } else {
            reveal_strlit("");
            assert(joined(mark_spans(false)) =~= ""@);
        }
    }
}

/// The row under the cursor has a background, and no other row has one. Its text is the same.
pub proof fn law_cursor_row(spans: Seq<SegV>, focused: bool)
    ensures
        row_line(spans, false, focused).bg is None,
        row_line(spans, true, focused).bg is Some,
        row_line(spans, true, true).bg != row_line(spans, true, false).bg,
        row_line(spans, true, focused).spans.len() == spans.len(),
        row_line(spans, false, focused).spans == spans,
        forall|i: int|
            0 <= i < spans.len() ==> (#[trigger] row_line(spans, true, focused).spans[i]).text
                == spans[i].text,
{
    let a = crate::style::hex(crate::screen::ACCENT);
    let b = crate::style::hex(crate::screen::CURSOR_BG_UNFOCUS);
    assert(a != b);
}

// ---- Icons -----------------------------------------------------------------------

/// Whether a file has an icon by its whole name.
pub open spec fn known_name(name: Seq<char>) -> bool {
    ||| name == ".gitignore"@
    ||| name == ".gitattributes"@
    ||| name == ".gitmodules"@
    ||| name == "Dockerfile"@
    ||| name == "Makefile"@
    ||| name == "LICENSE"@
}

/// The icon goes by what stands behind the last dot, whatever stands before it, but for names that
/// have an icon of their own.
pub proof fn law_icon_by_extension(a: Seq<char>, b: Seq<char>, ext: Seq<char>)
    requires
        !ext.contains('.'),
        !known_name(a + seq!['.'] + ext),
        !known_name(b + seq!['.'] + ext),
    ensures
        icon_of(a + seq!['.'] + ext) == icon_of(b + seq!['.'] + ext),
        icon_by_ext(ext) is Some ==> icon_of(a + seq!['.'] + ext) == icon_by_ext(ext)->0,
{
    let x = a + seq!['.'] + ext;
    let y = b + seq!['.'] + ext;
    law_after_last(a, '.', ext);
    law_after_last(b, '.', ext);
    assert(x[a.len() as int] == '.');
    assert(y[b.len() as int] == '.');
    assert(x.contains('.') && y.contains('.'));
    assert(icon_by_name(x) is None && icon_by_name(y) is None);
}

// ---- Words of a line -------------------------------------------------------------

/// Whether a text is one word: letters, digits and underscores.
pub open spec fn one_word(w: Seq<char>) -> bool {
    w.len() > 0 && forall|i: int|
        0 <= i < w.len() ==> alphanumeric(#[trigger] w[i]) || w[i] == '_'
}

proof fn lemma_word_len_is(w: Seq<char>, rest: Seq<char>)
    requires
        forall|i: int| 0 <= i < w.len() ==> word_char(#[trigger] w[i]),
        rest.len() == 0 || !word_char(rest[0]),
    ensures
        word_len(w + rest) == w.len(),
    decreases w.len(),
{
    let s = w + rest;
    if w.len() == 0 {
        assert(s =~= rest);
    } else {
        let t = w.skip(1);
        assert forall|i: int| 0 <= i < t.len() implies word_char(#[trigger] t[i]) by {
            assert(t[i] == w[i + 1]);
        }
        lemma_word_len_is(t, rest);
        assert(s.skip(1) =~= t + rest);
        assert(s[0] == w[0]);
    }
}

/// A line falls into words and single other characters, in order.
pub proof fn law_words_of_line(w: Seq<char>, c: char, rest: Seq<char>)
    requires
        one_word(w),
        !alphanumeric(c),
        c != '_',
    ensures
        tokens_of(w) == seq![w],
        tokens_of(seq![c] + rest) == seq![seq![c]] + tokens_of(rest),
        tokens_of(w + (seq![c] + rest)) == seq![w] + tokens_of(seq![c] + rest),
{
    let none = Seq::<char>::empty();
    lemma_word_len_is(w, none);
    assert(w + none =~= w);
    assert(w.take(w.len() as int) =~= w);
    assert(w.skip(w.len() as int) =~= none);
    assert(tokens_of(none) =~= Seq::<Seq<char>>::empty());
    assert(tokens_of(w) =~= seq![w]);
    let s = seq![c] + rest;
    assert(s[0] == c);
    assert(s.take(1) =~= seq![c]);
    assert(s.skip(1) =~= rest);
    lemma_word_len_is(w, s);
    let t = w + s;
    assert(t.take(w.len() as int) =~= w);
    assert(t.skip(w.len() as int) =~= s);
}

// ---- Documents -------------------------------------------------------------------

/// A diff is colored where its file has at most 1200 added and deleted lines together.
pub proof fn law_colored_if_small(f: FileV)
    requires
        f.added is Some,
        f.deleted is Some,
    ensures
        wants_color(f) == (f.added->0 + f.deleted->0 <= 1200),
        wants_color(FileV { added: None, deleted: None, ..f }),
{
}

/// The key of a document names all that its contents go by: worktree, source, file, anchor, and
/// the version of the file.
pub proof fn law_document_key(a: AppV, mtime: u128)
    requires
        a.selected_file() is Some,
        a.selected_file()->0.added is Some,
        a.selected_file()->0.deleted is Some,
    ensures
        ({
            let f = a.selected_file()->0;
            let w = a.wts[a.sel_wt as int];
            let k = a.doc_key(mtime)->0;
            &&& a.doc_key(mtime) is Some
            &&& k.wt == crate::paths::components(w.info.path)
            &&& k.source == a.source()
            &&& k.path == f.path
            &&& w.merge_base is Some ==> k.mb == w.merge_base->0
            &&& w.merge_base is None ==> k.mb == "HEAD"@
            &&& k.mark.mtime == mtime
            &&& k.mark.added == f.added->0
            &&& k.mark.deleted == f.deleted->0
            &&& k.mark.status == f.status
            &&& k.mark.old_path == f.old_path
        }),
{
}

/// Whether `b` is `a` with a document selected: from its start, unless it was selected before.
pub open spec fn doc_selected(a: AppV, b: AppV, key: DocKeyV) -> bool {
    if a.cur_doc_key == Some(key) {
        b == a
    } else {
        b == (AppV { cur_doc_key: Some(key), diff_scroll: 0, ..a })
    }
}

/// A document that is kept is shown as it is and stands in front from then on; the others keep
/// their order. It is colored where it is newly selected and was not colored yet.
pub proof fn law_kept_document(a: AppV, mtime: u128, i: int)
    requires
        a.doc_key(mtime) is Some,
        0 <= i < a.docs.len(),
        a.docs[i].key == a.doc_key(mtime)->0,
        forall|k: int| 0 <= k < i ==> (#[trigger] a.docs[k]).key != a.doc_key(mtime)->0,
    ensures
        ({
            let key = a.doc_key(mtime)->0;
            let e = a.docs[i];
            let (b, step) = a.doc_step(mtime);
            &&& b.docs == seq![e] + a.docs.take(i) + a.docs.skip(i + 1)
            &&& b.cur_doc_gen == e.gen
            &&& doc_selected(a, AppV { docs: a.docs, cur_doc_gen: a.cur_doc_gen, ..b }, key)
            &&& a.cur_doc_key != Some(key) && !e.hl_done ==> step == DocStepV::Recolor(e.doc, key)
            &&& a.cur_doc_key == Some(key) || e.hl_done ==> step == DocStepV::Ready(e.doc)
        }),
{
    let key = a.doc_key(mtime)->0;
    lemma_doc_index_is(a.docs, key, i);
    reveal(AppV::doc_step);
    reveal(AppV::with_docs);
    reveal(AppV::with_doc_gen);
    reveal(AppV::with_doc_key);
    reveal(AppV::with_scroll);
    let e = a.docs[i];
    assert(seq![e] + a.docs.remove(i) =~= seq![e] + a.docs.take(i) + a.docs.skip(i + 1));
}

proof fn lemma_doc_index_is(docs: Seq<DocEntryV>, key: DocKeyV, i: int)
    requires
        0 <= i < docs.len(),
        docs[i].key == key,
        forall|k: int| 0 <= k < i ==> (#[trigger] docs[k]).key != key,
    ensures
        doc_index(docs, key) == Some(i),
    decreases i,
{
    if i > 0 {
        let t = docs.skip(1);
        assert forall|k: int| 0 <= k < i - 1 implies (#[trigger] t[k]).key != key by {
            assert(t[k] == docs[k + 1]);
        }
        assert(docs[0].key != key);
        lemma_doc_index_is(t, key, i - 1);
    }
}

/// A document that is not kept is to be built, and shown from its start where another one was
/// selected.
pub proof fn law_missing_document(a: AppV, mtime: u128)
    requires
        a.selected_file() is Some,
        forall|k: int|
            0 <= k < a.docs.len() ==> (#[trigger] a.docs[k]).key != a.doc_key(mtime)->0,
    ensures
        ({
            let key = a.doc_key(mtime)->0;
            let (b, step) = a.doc_step(mtime);
            &&& doc_selected(a, b, key)
            &&& step == DocStepV::Build(key, wants_color(a.selected_file()->0))
        }),
{
    lemma_doc_index(a.docs, a.doc_key(mtime)->0);
    reveal(AppV::doc_step);
    reveal(AppV::with_doc_key);
    reveal(AppV::with_scroll);
}

/// A new document stands in front, and of those behind it the seven used last stay. It has a
/// generation of its own, which is the one shown.
pub proof fn law_new_document(a: AppV, key: DocKeyV, colored_later: bool, doc: DocV)
    requires
        a.next_doc_gen < u64::MAX,
    ensures
        ({
            let b = a.doc_built(key, colored_later, doc);
            let e = DocEntryV { key, doc, hl_done: !colored_later, gen: a.next_doc_gen };
            &&& b == (AppV {
                docs: b.docs,
                cur_doc_gen: a.next_doc_gen,
                next_doc_gen: (a.next_doc_gen + 1) as u64,
                ..a
            })
            &&& b.docs.len() > 0 && b.docs[0] == e
            &&& a.docs.len() <= 7 ==> b.docs.len() == a.docs.len() + 1
            &&& a.docs.len() > 7 ==> b.docs.len() == 8
            &&& forall|i: int| 1 <= i < b.docs.len() ==> #[trigger] b.docs[i] == a.docs[i - 1]
        }),
{
    reveal(AppV::doc_built);
    reveal(AppV::with_docs);
    reveal(AppV::with_doc_gen);
    reveal(AppV::with_next_gen);
}

/// Where screen lines on which hunks begin go up, the hunk at a line is the last one that begins
/// at it or before it, and the first one before all of them.
pub proof fn law_hunk_at(a: AppV, doc: DocV, at: usize, i: int)
    requires
        ({
            let lines = a.lines_of_rows(a.hunks(doc));
            &&& 0 <= i < lines.len()
            &&& forall|j: int, k: int| 0 <= j < k < lines.len() ==> lines[j] <= lines[k]
            &&& lines[i] <= at || i == 0
            &&& i + 1 < lines.len() ==> at < lines[i + 1]
        }),
    ensures
        a.hunk_pos(doc, at) == Some(((i + 1) as nat, a.hunks(doc).len())),
{
    let lines = a.lines_of_rows(a.hunks(doc));
    lemma_upto_is(lines, at);
    if lines[i] <= at {
        lemma_upto_count(lines, at, i + 1);
    } else {
        lemma_upto_count(lines, at, 0);
    }
}

proof fn lemma_upto_is(lines: Seq<usize>, at: usize)
    ensures
        upto(lines, at) <= lines.len(),
    decreases lines.len(),
{
    if lines.len() > 0 {
        lemma_upto_is(lines.drop_last(), at);
    }
}

proof fn lemma_upto_count(lines: Seq<usize>, at: usize, n: int)
    requires
        0 <= n <= lines.len(),
        forall|j: int, k: int| 0 <= j < k < lines.len() ==> lines[j] <= lines[k],
        n > 0 ==> lines[n - 1] <= at,
        n < lines.len() ==> at < lines[n],
    ensures
        upto(lines, at) == n,
    decreases lines.len(),
{
    if lines.len() > 0 {
        let h = lines.drop_last();
        if n == lines.len() {
            assert(n >= 2 ==> lines[n - 2] <= lines[n - 1]);
            lemma_upto_count(h, at, n - 1);
        } else {
            assert(lines[n] <= lines.last() || n == lines.len() - 1);
            lemma_upto_count(h, at, n);
        }
    }
}

/// The hunks of the view that is shown count, and a row is on the screen line that the table says.
pub proof fn law_hunks_of_view(a: AppV, doc: DocV, i: int)
    ensures
        a.effective_sxs ==> a.hunks(doc) == doc.hunks_s,
        !a.effective_sxs ==> a.hunks(doc) == doc.hunks_u,
        0 <= i < a.hunks(doc).len() && a.hunks(doc)[i] < a.row_offsets.len() ==> a.lines_of_rows(
            a.hunks(doc),
        )[i] == a.row_offsets[a.hunks(doc)[i] as int],
        a.lines_of_rows(a.hunks(doc)).len() == a.hunks(doc).len(),
{
}

/// A jump scrolls the diff to where it leads, and nothing else changes.
pub proof fn law_jump_scrolls(a: AppV, doc: DocV, forward: bool, at: usize)
    ensures
        a.jump_target(doc, forward, at) matches Some(p) ==> a.jump_hunk(doc, forward, at) == (AppV {
            diff_scroll: p,
            ..a
        }),
        a.jump_target(doc, forward, at) is None ==> a.jump_hunk(doc, forward, at) == a,
{
    reveal(AppV::with_scroll);
}

/// A colored document takes the place of the plain one that is kept under its key, with a new
/// generation, and the others stay. One that is no longer kept changes nothing there.
pub proof fn law_colored_document(a: AppV, key: DocKeyV, doc: DocV, i: int)
    requires
        a.next_doc_gen < u64::MAX,
        0 <= i < a.docs.len(),
        forall|k: int| 0 <= k < i ==> (#[trigger] a.docs[k]).key != key,
        a.docs[i].key == key || forall|k: int|
            0 <= k < a.docs.len() ==> (#[trigger] a.docs[k]).key != key,
    ensures
        ({
            let b = a.doc_colored(key, doc);
            let e = DocEntryV { key, doc, hl_done: true, gen: a.next_doc_gen };
            &&& b == (AppV { docs: b.docs, next_doc_gen: (a.next_doc_gen + 1) as u64, ..a })
            &&& b.docs.len() == a.docs.len()
            &&& a.docs[i].key == key ==> b.docs[i] == e
            &&& forall|k: int|
                0 <= k < a.docs.len() && (k != i || a.docs[i].key != key) ==> #[trigger] b.docs[k]
                    == a.docs[k]
        }),
{
    reveal(AppV::doc_colored);
    reveal(AppV::with_docs);
    reveal(AppV::with_next_gen);
    lemma_doc_index(a.docs, key);
    if a.docs[i].key == key {
        lemma_doc_index_is(a.docs, key, i);
    }
}

} // verus!
