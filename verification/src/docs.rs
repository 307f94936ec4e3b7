//! The documents that are kept, and where their hunks are on the screen.

use crate::app::{
    base_commit, docs_view, App, AppV, DocEntry, DocEntryV, DocKey, DocKeyV, Fingerprint,
    FingerprintV,
};
use crate::diffview::{build_doc, doc_of, Brush, DiffDoc, DocV, Hl};
use crate::git::{count, DiffSource, FileChange, FileV};
use crate::highlight::{ext_of, Highlighter};
use crate::paths::same_path;
use crate::text::{same, same_opt};
use std::rc::Rc;
use vstd::prelude::*;
use vstd::string::*;

verus! {

/// Beyond this many changed lines a diff is not colored.
pub const HL_MAX_LINES: u64 = 1200;

/// How many documents are kept.
pub const DOC_CACHE: usize = 8;

// ---- Keys of documents -----------------------------------------------------------

impl Clone for DocKey {
    fn clone(&self) -> (r: Self)
        ensures
            r@ == self@,
    {
        let old_path = match &self.mark.old_path {
            Some(p) => Some(p.clone()),
            None => None,
        };
        DocKey {
            wt: self.wt.clone(),
            source: self.source.clone(),
            path: self.path.clone(),
            mb: self.mb.clone(),
            mark: Fingerprint {
                mtime: self.mark.mtime,
                added: self.mark.added,
                deleted: self.mark.deleted,
                status: self.mark.status,
                old_path,
            },
        }
    }
}

impl DocKey {
    /// Whether two keys are the same.
    pub fn is(&self, other: &DocKey) -> (r: bool)
        ensures
            r == (self@ == other@),
    {
        same_path(self.wt.as_str(), other.wt.as_str()) && self.source.is(&other.source) && same(
            self.path.as_str(),
            other.path.as_str(),
        ) && same(self.mb.as_str(), other.mb.as_str()) && self.mark.mtime == other.mark.mtime
            && self.mark.added == other.mark.added && self.mark.deleted == other.mark.deleted
            && self.mark.status == other.mark.status && same_opt(
            &self.mark.old_path,
            &other.mark.old_path,
        )
    }
}

/// What tells this version of a file's diff from others.
pub open spec fn fingerprint(f: FileV, mtime: u128) -> FingerprintV {
    FingerprintV {
        mtime,
        added: count(f.added) as u64,
        deleted: count(f.deleted) as u64,
        status: f.status,
        old_path: f.old_path,
    }
}

/// What tells this version of a file's diff from others.
pub fn file_fingerprint(f: &FileChange, mtime: u128) -> (r: Fingerprint)
    ensures
        r@ == fingerprint(f@, mtime),
{
    let old_path = match &f.old_path {
        Some(p) => Some(p.clone()),
        None => None,
    };
    Fingerprint {
        mtime,
        added: match f.added {
            Some(n) => n,
            None => 0,
        },
        deleted: match f.deleted {
            Some(n) => n,
            None => 0,
        },
        status: f.status,
        old_path,
    }
}

/// Two versions are told apart by any of: when the file was modified, its counts, its status,
/// and where it was moved from.
pub proof fn law_fingerprints_differ(f: FileV, s: u128, g: FileV, t: u128)
    ensures
        fingerprint(f, s) == fingerprint(g, t) ==> s == t && count(f.added) == count(g.added)
            && count(f.deleted) == count(g.deleted) && f.status == g.status && f.old_path
            == g.old_path,
{
}

// ---- Keeping documents -----------------------------------------------------------

/// A request to color a document.
#[derive(Debug)]
pub struct HlReq {
    pub key: DocKey,
    pub text: String,
    pub path: String,
}

/// A colored document.
#[derive(Debug)]
pub struct HlResp {
    pub key: DocKey,
    pub doc: DiffDoc,
}

/// The one request that waits; a newer one takes its place.
#[derive(Debug)]
pub struct HlSlot {
    pub req: Option<HlReq>,
}

impl HlSlot {
    /// The slot in which nothing waits.
    pub open spec fn empty() -> HlSlot {
        HlSlot { req: None }
    }

    /// The slot in which a request waits, in place of what waited before.
    pub open spec fn with(self, r: HlReq) -> HlSlot {
        HlSlot { req: Some(r) }
    }

    /// The slot after what waits was taken, and what that was.
    pub open spec fn taken(self) -> (HlSlot, Option<HlReq>) {
        (HlSlot::empty(), self.req)
    }

    /// The slot after requests were put into it, one after the other.
    pub open spec fn with_all(self, rs: Seq<HlReq>) -> HlSlot
        decreases rs.len(),
    {
        if rs.len() == 0 {
            self
        } else {
            self.with_all(rs.drop_last()).with(rs.last())
        }
    }

    /// Nothing waits.
    pub fn new() -> (r: HlSlot)
        ensures
            r == HlSlot::empty(),
    {
        HlSlot { req: None }
    }

    /// Let a request wait, in place of an older one.
    pub fn put(&mut self, r: HlReq)
        ensures
            *final(self) == old(self).with(r),
    {
        self.req = Some(r);
    }

    /// Take the request that waits, if any.
    pub fn take(&mut self) -> (r: Option<HlReq>)
        ensures
            (*final(self), r) == old(self).taken(),
    {
        self.req.take()
    }
}

/// Only the latest request is handed out, and once: after requests were put into the slot, taking
/// gives the last of them, and then nothing until another one is put.
pub proof fn law_latest_request(slot: HlSlot, rs: Seq<HlReq>)
    requires
        rs.len() > 0,
    ensures
        slot.with_all(rs).taken() == (HlSlot::empty(), Some(rs.last())),
        slot.with_all(rs).taken().0.taken() == (HlSlot::empty(), None::<HlReq>),
{
}

/// Color a document.
pub fn color(hi: &Highlighter, req: HlReq) -> (r: HlResp)
    ensures
        r.key == req.key,
        r.doc@ == doc_of(
            req.text@,
            Brush { theme: Some(hi.theme_name()), ext: ext_of(req.path@) },
            false,
        ),
{
    let doc = build_doc(req.text.as_str(), req.path.as_str(), Hl::On(hi));
    HlResp { key: req.key, doc }
}

/// The file whose diff is to be shown, and what it is compared with.
#[derive(Debug)]
pub struct DocTarget {
    pub wt: String,
    pub source: DiffSource,
    pub file: FileChange,
    pub mb: String,
}

/// How the document of the selected file is to be had.
#[derive(Debug)]
pub enum DocStep {
    /// No file is selected
    Nothing,
    /// It was kept
    Ready(Rc<DiffDoc>),
    /// It was kept, and is to be colored
    Recolor(Rc<DiffDoc>, DocKey),
    /// It is to be built, to be colored later or not
    Build(DocKey, bool),
}

/// How the document of the selected file is to be had, as a mathematical value.
pub enum DocStepV {
    Nothing,
    Ready(DocV),
    Recolor(DocV, DocKeyV),
    Build(DocKeyV, bool),
}

impl View for DocStep {
    type V = DocStepV;

    open spec fn view(&self) -> DocStepV {
        match self {
            DocStep::Nothing => DocStepV::Nothing,
            DocStep::Ready(d) => DocStepV::Ready(d@),
            DocStep::Recolor(d, k) => DocStepV::Recolor(d@, k@),
            DocStep::Build(k, b) => DocStepV::Build(k@, *b),
        }
    }
}

/// The index of the first document kept under a key.
pub open spec fn doc_index(docs: Seq<DocEntryV>, key: DocKeyV) -> Option<int>
    decreases docs.len(),
{
    if docs.len() == 0 {
        None
    } else if docs[0].key == key {
        Some(0)
    } else {
        match doc_index(docs.skip(1), key) {
            Some(i) => Some(i + 1),
            None => None,
        }
    }
}

/// At most `DOC_CACHE` documents, from the front.
pub open spec fn kept(docs: Seq<DocEntryV>) -> Seq<DocEntryV> {
    if docs.len() > DOC_CACHE {
        docs.take(DOC_CACHE as int)
    } else {
        docs
    }
}

/// The generation after `n`.
pub open spec fn next_generation(n: u64) -> u64 {
    if n == u64::MAX {
        0
    } else {
        (n + 1) as u64
    }
}

/// Whether a file is small enough for its diff to be colored.
pub open spec fn wants_color(f: FileV) -> bool {
    count(f.added) + count(f.deleted) <= HL_MAX_LINES
}

impl AppV {
    /// The key of the selected file's document.
    pub open spec fn doc_key(self, mtime: u128) -> Option<DocKeyV> {
        match self.selected_file() {
            Some(f) => Some(
                DocKeyV {
                    wt: self.wt_key(),
                    source: self.source(),
                    path: f.path,
                    mb: base_commit(self.wts[self.sel_wt as int].merge_base),
                    mark: fingerprint(f, mtime),
                },
            ),
            None => None,
        }
    }

    /// The state with a document selected: from its start where another one was selected before.
    pub open spec fn show_doc(self, key: DocKeyV) -> AppV {
        if self.cur_doc_key == Some(key) {
            self
        } else {
            self.with_doc_key(Some(key)).with_scroll(0)
        }
    }

    /// The step towards the selected file's document. A document that was kept comes first from
    /// now on; where it is not colored yet, it is colored when it is selected anew.
    #[verifier::opaque]
    pub open spec fn doc_step(self, mtime: u128) -> (AppV, DocStepV) {
        match self.doc_key(mtime) {
            None => (self, DocStepV::Nothing),
            Some(key) => match doc_index(self.docs, key) {
                None => (
                    self.show_doc(key),
                    DocStepV::Build(key, wants_color(self.selected_file()->0)),
                ),
                Some(i) => {
                    let e = self.docs[i];
                    (
                        self.show_doc(key).with_docs(seq![e] + self.docs.remove(i)).with_doc_gen(
                            e.gen,
                        ),
                        if self.cur_doc_key != Some(key) && !e.hl_done {
                            DocStepV::Recolor(e.doc, key)
                        } else {
                            DocStepV::Ready(e.doc)
                        },
                    )
                },
            },
        }
    }

    /// The state with a new document kept in front.
    #[verifier::opaque]
    pub open spec fn doc_built(self, key: DocKeyV, colored_later: bool, doc: DocV) -> AppV {
        let gen = self.next_doc_gen;
        let e = DocEntryV { key, doc, hl_done: !colored_later, gen };
        self.with_next_gen(next_generation(gen)).with_doc_gen(gen).with_docs(
            kept(seq![e] + self.docs),
        )
    }

    /// The state with a colored document in place of the plain one, if it is still kept.
    #[verifier::opaque]
    pub open spec fn doc_colored(self, key: DocKeyV, doc: DocV) -> AppV {
        let gen = self.next_doc_gen;
        let a = self.with_next_gen(next_generation(gen));
        match doc_index(self.docs, key) {
            Some(i) => a.with_docs(
                self.docs.update(i, DocEntryV { key, doc, hl_done: true, gen }),
            ),
            None => a,
        }
    }
}

fn find_doc(docs: &Vec<DocEntry>, key: &DocKey) -> (r: Option<usize>)
    ensures
        match r {
            Some(i) => i < docs@.len() && doc_index(docs_view(docs@), key@) == Some(i as int)
                && docs@[i as int].key@ == key@,
            None => doc_index(docs_view(docs@), key@) is None,
        },
{
    let ghost dv = docs_view(docs@);
    let mut i: usize = 0;
    assert(dv.skip(0) =~= dv);
    while i < docs.len()
        invariant
            dv == docs_view(docs@),
            i <= docs@.len(),
            doc_index(dv, key@) == (match doc_index(dv.skip(i as int), key@) {
                Some(k) => Some(i + k),
                None => None,
            }),
        decreases docs@.len() - i,
    {
        assert(dv.skip(i as int)[0] == docs@[i as int]@);
        if docs[i].key.is(key) {
            return Some(i);
        }
        assert(dv.skip(i as int).skip(1) =~= dv.skip(i + 1));
        i += 1;
    }
    None
}

impl App {
    /// The file whose diff is to be shown, and what it is compared with.
    pub fn doc_target(&self) -> (r: Option<DocTarget>)
        ensures
            match r {
                Some(t) => {
                    &&& self@.selected_file() == Some(t.file@)
                    &&& t.wt@ == self@.wt_path()
                    &&& t.source@ == self@.source()
                    &&& t.mb@ == base_commit(self@.wts[self@.sel_wt as int].merge_base)
                },
                None => self@.selected_file() is None,
            },
    {
        let file = match self.selected_file() {
            Some(f) => f.clone(),
            None => {
                return None;
            },
        };
        match self.cur_wt() {
            Some(w) => {
                let mb = match &w.merge_base {
                    Some(m) => m.clone(),
                    None => "HEAD".to_string(),
                };
                Some(DocTarget { wt: w.info.path.clone(), source: self.source(), file, mb })
            },
            None => None,
        }
    }

    fn show_doc(&mut self, key: &DocKey) -> (r: bool)
        ensures
            final(self)@ == old(self)@.show_doc(key@),
            r == (old(self)@.cur_doc_key != Some(key@)),
    {
        let shown = match self.doc_key_now() {
            Some(k) => k.is(key),
            None => false,
        };
        if !shown {
            self.put_doc_key(Some(key.clone()));
            self.scroll_diff(0);
        }
        !shown
    }

    /// Go for the selected file's document; the file was modified at `mtime`.
    pub fn doc_step(&mut self, mtime: u128) -> (r: DocStep)
        ensures
            (final(self)@, r@) == old(self)@.doc_step(mtime),
    {
        reveal(AppV::doc_step);
        let target = match self.doc_target() {
            Some(t) => t,
            None => {
                return DocStep::Nothing;
            },
        };
        let key = DocKey {
            wt: target.wt,
            source: target.source,
            path: target.file.path.clone(),
            mb: target.mb,
            mark: file_fingerprint(&target.file, mtime),
        };
        assert(self@.doc_key(mtime) == Some(key@));
        let found = find_doc(self.kept_docs(), &key);
        let ghost docs = self@.docs;
        let changed = self.show_doc(&key);
        assert(self@.docs == docs) by {
            reveal(AppV::with_doc_key);
            reveal(AppV::with_scroll);
        }
        match found {
            Some(i) => {
                let ghost a = self@;
                let mut all = self.take_docs();
                let ghost all0 = all@;
                let e = all.remove(i);
                let doc = Rc::clone(&e.doc);
                let gen = e.gen;
                let done = e.hl_done;
                all.insert(0, e);
                proof {
                    assert(docs_view(all0) == docs);
                    assert(docs[i as int] == all0[i as int]@);
                    assert(docs_view(all@) =~= seq![docs[i as int]] + docs.remove(i as int));
                }
                self.put_docs(all);
                self.put_doc_gen(gen);
                if changed && !done {
                    DocStep::Recolor(doc, key)
                } else {
                    DocStep::Ready(doc)
                }
            },
            None => {
                let added: u64 = match target.file.added {
                    Some(n) => n,
                    None => 0,
                };
                let deleted: u64 = match target.file.deleted {
                    Some(n) => n,
                    None => 0,
                };
                let few = added <= HL_MAX_LINES && deleted <= HL_MAX_LINES - added;
                DocStep::Build(key, few)
            },
        }
    }

    fn bump_doc_gen(&mut self) -> (r: u64)
        ensures
            r == old(self)@.next_doc_gen,
            final(self)@ == old(self)@.with_next_gen(next_generation(old(self)@.next_doc_gen)),
    {
        let g = self.next_gen();
        self.put_next_gen(g.wrapping_add(1));
        g
    }

    /// Build and keep the document of a diff text. Where it is to be colored later, the request
    /// for that comes back with it.
    pub fn doc_built(&mut self, key: DocKey, colored_later: bool, text: String) -> (r: (
        Rc<DiffDoc>,
        Option<HlReq>,
    ))
        ensures
            r.0@ == doc_of(
                text@,
                Brush { theme: None, ext: ext_of(key.path@) },
                !colored_later,
            ),
            final(self)@ == old(self)@.doc_built(key@, colored_later, r.0@),
            match r.1 {
                Some(q) => colored_later && q.key@ == key@ && q.text@ == text@ && q.path@
                    == key.path@,
                None => !colored_later,
            },
    {
        reveal(AppV::doc_built);
        let hl = if colored_later {
            Hl::Pending
        } else {
            Hl::Off
        };
        let doc = Rc::new(build_doc(text.as_str(), key.path.as_str(), hl));
        let path = key.path.clone();
        let copy = key.clone();
        let ghost docs = self@.docs;
        let gen = self.bump_doc_gen();
        self.put_doc_gen(gen);
        assert(self@.docs == docs) by {
            reveal(AppV::with_next_gen);
            reveal(AppV::with_doc_gen);
        }
        let mut all = self.take_docs();
        let ghost all0 = all@;
        let e = DocEntry { key, doc: Rc::clone(&doc), hl_done: !colored_later, gen };
        all.insert(0, e);
        assert(docs_view(all@) =~= seq![e@] + docs);
        let ghost all1 = all@;
        all.truncate(DOC_CACHE);
        assert(docs_view(all@) =~= kept(seq![e@] + docs));
        self.put_docs(all);
        let req = if colored_later {
            Some(HlReq { key: copy, text, path })
        } else {
            None
        };
        (doc, req)
    }

    /// Take in a colored document.
    pub fn poll_async(&mut self, resp: HlResp)
        ensures
            final(self)@ == old(self)@.doc_colored(resp.key@, resp.doc@),
    {
        reveal(AppV::doc_colored);
        let ghost docs = self@.docs;
        let gen = self.bump_doc_gen();
        assert(self@.docs == docs) by {
            reveal(AppV::with_next_gen);
        }
        if let Some(i) = find_doc(self.kept_docs(), &resp.key) {
            let mut all = self.take_docs();
            let ghost all0 = all@;
            all.remove(i);
            let e = DocEntry { key: resp.key, doc: Rc::new(resp.doc), hl_done: true, gen };
            all.insert(i, e);
            assert(docs_view(all@) =~= docs.update(i as int, e@));
            self.put_docs(all);
        }
    }
}

// ---- Hunks -----------------------------------------------------------------------

impl AppV {
    /// The rows at which hunks begin, in the view that is shown.
    pub open spec fn hunks(self, doc: DocV) -> Seq<usize> {
        if self.effective_sxs {
            doc.hunks_s
        } else {
            doc.hunks_u
        }
    }

    /// The screen line on which a row begins.
    pub open spec fn phys_of(self, row: usize) -> usize {
        if row < self.row_offsets.len() {
            self.row_offsets[row as int]
        } else {
            row
        }
    }

    /// The screen lines on which rows begin.
    pub open spec fn lines_of_rows(self, rows: Seq<usize>) -> Seq<usize> {
        rows.map_values(|r: usize| self.phys_of(r))
    }
}

/// The first of some lines that is after `at`.
pub open spec fn first_after(lines: Seq<usize>, at: usize) -> Option<usize>
    decreases lines.len(),
{
    if lines.len() == 0 {
        None
    } else if lines[0] > at {
        Some(lines[0])
    } else {
        first_after(lines.skip(1), at)
    }
}

/// The last of some lines that is before `at`.
pub open spec fn last_before(lines: Seq<usize>, at: usize) -> Option<usize>
    decreases lines.len(),
{
    if lines.len() == 0 {
        None
    } else if lines.last() < at {
        Some(lines.last())
    } else {
        last_before(lines.drop_last(), at)
    }
}

/// How many of some lines are not after `at`.
pub open spec fn upto(lines: Seq<usize>, at: usize) -> nat
    decreases lines.len(),
{
    if lines.len() == 0 {
        0
    } else if lines.last() <= at {
        upto(lines.drop_last(), at) + 1
    } else {
        upto(lines.drop_last(), at)
    }
}

impl AppV {
    /// Where a jump from line `at` leads.
    pub open spec fn jump_target(self, doc: DocV, forward: bool, at: usize) -> Option<usize> {
        let lines = self.lines_of_rows(self.hunks(doc));
        if forward {
            first_after(lines, at)
        } else {
            last_before(lines, at)
        }
    }

    /// The state after a jump from line `at` to the next hunk or to the previous one.
    pub open spec fn jump_hunk(self, doc: DocV, forward: bool, at: usize) -> AppV {
        match self.jump_target(doc, forward, at) {
            Some(p) => self.with_scroll(p),
            None => self,
        }
    }

    /// The hunk at line `at`, counted from 1, and how many there are.
    pub open spec fn hunk_pos(self, doc: DocV, at: usize) -> Option<(nat, nat)> {
        let lines = self.lines_of_rows(self.hunks(doc));
        if lines.len() == 0 {
            None
        } else if upto(lines, at) == 0 {
            Some((1, lines.len()))
        } else {
            Some((upto(lines, at), lines.len()))
        }
    }
}

impl App {
    fn phys_of(&self, row: usize) -> (r: usize)
        ensures
            r == self@.phys_of(row),
    {
        let offs = self.offsets();
        if row < offs.len() {
            offs[row]
        } else {
            row
        }
    }

    fn hunk_rows<'a>(&self, doc: &'a DiffDoc) -> (r: &'a Vec<usize>)
        ensures
            r@ == self@.hunks(doc@),
    {
        if self.shows_sides() {
            &doc.hunks_s
        } else {
            &doc.hunks_u
        }
    }

    fn find_after(&self, rows: &Vec<usize>, at: usize) -> (r: Option<usize>)
        ensures
            r == first_after(self@.lines_of_rows(rows@), at),
    {
        let ghost lines = self@.lines_of_rows(rows@);
        let mut i: usize = 0;
        assert(lines.skip(0) =~= lines);
        while i < rows.len()
            invariant
                lines == self@.lines_of_rows(rows@),
                i <= rows@.len(),
                first_after(lines, at) == first_after(lines.skip(i as int), at),
            decreases rows@.len() - i,
        {
            let p = self.phys_of(rows[i]);
            assert(lines.skip(i as int)[0] == p);
            if p > at {
                return Some(p);
            }
            assert(lines.skip(i as int).skip(1) =~= lines.skip(i + 1));
            i += 1;
        }
        None
    }

    fn find_before(&self, rows: &Vec<usize>, at: usize) -> (r: Option<usize>)
        ensures
            r == last_before(self@.lines_of_rows(rows@), at),
    {
        let ghost lines = self@.lines_of_rows(rows@);
        let mut i: usize = rows.len();
        assert(lines.take(lines.len() as int) =~= lines);
        while i > 0
            invariant
                lines == self@.lines_of_rows(rows@),
                i <= rows@.len(),
                last_before(lines, at) == last_before(lines.take(i as int), at),
            decreases i,
        {
            let p = self.phys_of(rows[i - 1]);
            assert(lines.take(i as int).last() == p);
            if p < at {
                return Some(p);
            }
            assert(lines.take(i as int).drop_last() =~= lines.take(i - 1));
            i -= 1;
        }
        None
    }

    /// Jump from line `at` to the next hunk or to the previous one.
    pub fn jump_hunk(&mut self, doc: &DiffDoc, forward: bool, at: usize)
        ensures
            final(self)@ == old(self)@.jump_hunk(doc@, forward, at),
    {
        let rows = self.hunk_rows(doc);
        let to = if forward {
            self.find_after(rows, at)
        } else {
            self.find_before(rows, at)
        };
        if let Some(p) = to {
            self.scroll_diff(p);
        }
    }

    /// The hunk at line `at`, counted from 1, and how many there are.
    pub fn hunk_pos(&self, doc: &DiffDoc, at: usize) -> (r: Option<(usize, usize)>)
        ensures
            match r {
                Some((k, n)) => self@.hunk_pos(doc@, at) == Some((k as nat, n as nat)),
                None => self@.hunk_pos(doc@, at) is None,
            },
    {
        let rows = self.hunk_rows(doc);
        if rows.len() == 0 {
            return None;
        }
        let ghost lines = self@.lines_of_rows(rows@);
        let mut n: usize = 0;
        let mut i: usize = 0;
        assert(lines.take(0) =~= Seq::<usize>::empty());
        while i < rows.len()
            invariant
                lines == self@.lines_of_rows(rows@),
                i <= rows.len(),
                n == upto(lines.take(i as int), at),
                n <= i,
            decreases rows.len() - i,
        {
            let p = self.phys_of(rows[i]);
            proof {
                assert(lines[i as int] == p);
                assert(lines.take(i + 1).drop_last() =~= lines.take(i as int));
                assert(lines.take(i + 1).last() == p);
            }
            if p <= at {
                n += 1;
            }
            i += 1;
        }
        assert(lines.take(lines.len() as int) =~= lines);
        Some(
            (
                if n == 0 {
                    1
                } else {
                    n
                },
                rows.len(),
            ),
        )
    }
}

// ---- Laws ------------------------------------------------------------------------

/// Whether lines are in order.
pub open spec fn ordered(lines: Seq<usize>) -> bool {
    forall|i: int, j: int| 0 <= i < j < lines.len() ==> lines[i] <= lines[j]
}

proof fn lemma_first_after(lines: Seq<usize>, at: usize)
    ensures
        first_after(lines, at) matches Some(p) ==> p > at && lines.contains(p),
        first_after(lines, at) is None ==> forall|i: int|
            0 <= i < lines.len() ==> #[trigger] lines[i] <= at,
        ordered(lines) ==> (first_after(lines, at) matches Some(p) ==> forall|i: int|
            0 <= i < lines.len() && #[trigger] lines[i] > at ==> p <= lines[i]),
    decreases lines.len(),
{
    if lines.len() > 0 {
        let t = lines.skip(1);
        lemma_first_after(t, at);
        if lines[0] <= at {
            if first_after(t, at) is Some {
                let p = first_after(t, at)->0;
                let k = choose|k: int| 0 <= k < t.len() && t[k] == p;
                assert(lines[k + 1] == p);
                if ordered(lines) {
                    assert forall|i: int, j: int| 0 <= i < j < t.len() implies t[i] <= t[j] by {
                        assert(t[i] == lines[i + 1]);
                        assert(t[j] == lines[j + 1]);
                    }
                    assert forall|i: int| 0 <= i < lines.len() && #[trigger] lines[i] > at implies p
                        <= lines[i] by {
                        assert(t[i - 1] == lines[i]);
                    }
                }
            } else {
                assert forall|i: int| 0 <= i < lines.len() implies #[trigger] lines[i] <= at by {
                    if i > 0 {
                        assert(t[i - 1] == lines[i]);
                    }
                }
            }
        }
    }
}

proof fn lemma_last_before(lines: Seq<usize>, at: usize)
    ensures
        last_before(lines, at) matches Some(p) ==> p < at && lines.contains(p),
        last_before(lines, at) is None ==> forall|i: int|
            0 <= i < lines.len() ==> #[trigger] lines[i] >= at,
        ordered(lines) ==> (last_before(lines, at) matches Some(p) ==> forall|i: int|
            0 <= i < lines.len() && #[trigger] lines[i] < at ==> p >= lines[i]),
    decreases lines.len(),
{
    if lines.len() > 0 {
        let t = lines.drop_last();
        lemma_last_before(t, at);
        if lines.last() >= at {
            if last_before(t, at) is Some {
                let p = last_before(t, at)->0;
                let k = choose|k: int| 0 <= k < t.len() && t[k] == p;
                assert(lines[k] == p);
                if ordered(lines) {
                    assert forall|i: int, j: int| 0 <= i < j < t.len() implies t[i] <= t[j] by {
                        assert(t[i] == lines[i]);
                        assert(t[j] == lines[j]);
                    }
                    assert forall|i: int| 0 <= i < lines.len() && #[trigger] lines[i] < at implies p
                        >= lines[i] by {
                        assert(t[i] == lines[i]);
                    }
                }
            } else {
                assert forall|i: int| 0 <= i < lines.len() implies #[trigger] lines[i] >= at by {
                    if i < t.len() {
                        assert(t[i] == lines[i]);
                    }
                }
            }
        } else {
            assert(lines[lines.len() - 1] == lines.last());
        }
    }
}

/// A jump leads to a line on which a hunk begins, strictly forward or strictly back; where hunks
/// are in order on the screen, to the nearest one. It leads nowhere only where there is none.
pub proof fn law_jump(a: AppV, doc: DocV, at: usize)
    ensures
        ({
            let lines = a.lines_of_rows(a.hunks(doc));
            let next = a.jump_target(doc, true, at);
            let prev = a.jump_target(doc, false, at);
            &&& next matches Some(p) ==> p > at && lines.contains(p)
            &&& prev matches Some(p) ==> p < at && lines.contains(p)
            &&& next is None ==> forall|i: int| 0 <= i < lines.len() ==> #[trigger] lines[i] <= at
            &&& prev is None ==> forall|i: int| 0 <= i < lines.len() ==> #[trigger] lines[i] >= at
            &&& ordered(lines) ==> (next matches Some(p) ==> forall|i: int|
                0 <= i < lines.len() && #[trigger] lines[i] > at ==> p <= lines[i])
            &&& ordered(lines) ==> (prev matches Some(p) ==> forall|i: int|
                0 <= i < lines.len() && #[trigger] lines[i] < at ==> p >= lines[i])
        }),
{
    let lines = a.lines_of_rows(a.hunks(doc));
    lemma_first_after(lines, at);
    lemma_last_before(lines, at);
}

/// The position among hunks is one from 1 to their number.
pub proof fn law_hunk_pos_in_range(a: AppV, doc: DocV, at: usize)
    ensures
        a.hunk_pos(doc, at) matches Some((k, n)) ==> 1 <= k <= n && n == a.hunks(doc).len(),
        a.hunk_pos(doc, at) is None <==> a.hunks(doc).len() == 0,
{
    lemma_upto(a.lines_of_rows(a.hunks(doc)), at);
}

proof fn lemma_upto(lines: Seq<usize>, at: usize)
    ensures
        upto(lines, at) <= lines.len(),
    decreases lines.len(),
{
    if lines.len() > 0 {
        lemma_upto(lines.drop_last(), at);
    }
}

/// Whether what is kept is in order: not too much, nothing twice, and every generation different
/// and older than the next one.
pub open spec fn cache_ok(a: AppV) -> bool {
    &&& a.docs.len() <= DOC_CACHE
    &&& forall|i: int, j: int|
        0 <= i < j < a.docs.len() ==> (#[trigger] a.docs[i]).key != (#[trigger] a.docs[j]).key
    &&& forall|i: int, j: int|
        0 <= i < j < a.docs.len() ==> (#[trigger] a.docs[i]).gen != (#[trigger] a.docs[j]).gen
    &&& forall|i: int| 0 <= i < a.docs.len() ==> (#[trigger] a.docs[i]).gen < a.next_doc_gen
}

pub proof fn lemma_doc_index(docs: Seq<DocEntryV>, key: DocKeyV)
    ensures
        match doc_index(docs, key) {
            Some(i) => 0 <= i < docs.len() && docs[i].key == key,
            None => forall|i: int| 0 <= i < docs.len() ==> (#[trigger] docs[i]).key != key,
        },
    decreases docs.len(),
{
    if docs.len() > 0 {
        let t = docs.skip(1);
        lemma_doc_index(t, key);
        match doc_index(t, key) {
            Some(i) => {
                assert(docs[i + 1] == t[i]);
            },
            None => {
                assert forall|i: int| 0 <= i < docs.len() && docs[0].key != key implies (
                #[trigger] docs[i]).key != key by {
                    if i > 0 {
                        assert(docs[i] == t[i - 1]);
                    }
                }
            },
        }
    }
}

/// Looking for a document keeps what is kept in order.
pub proof fn law_doc_step_keeps_order(a: AppV, mtime: u128)
    requires
        cache_ok(a),
    ensures
        cache_ok(a.doc_step(mtime).0),
        a.doc_step(mtime).1 matches DocStepV::Build(key, _) ==> forall|i: int|
            0 <= i < a.doc_step(mtime).0.docs.len() ==> (#[trigger] a.doc_step(
                mtime,
            ).0.docs[i]).key != key,
{
    reveal(AppV::doc_step);
    reveal(AppV::with_docs);
    reveal(AppV::with_doc_key);
    reveal(AppV::with_scroll);
    reveal(AppV::with_doc_gen);
    if a.doc_key(mtime) is Some {
        let key = a.doc_key(mtime)->0;
        lemma_doc_index(a.docs, key);
        if doc_index(a.docs, key) is Some {
            let i = doc_index(a.docs, key)->0;
            let v = seq![a.docs[i]] + a.docs.remove(i);
            assert forall|x: int, y: int| 0 <= x < y < v.len() implies (#[trigger] v[x]).key
                != (#[trigger] v[y]).key && v[x].gen != v[y].gen by {
                let q = if y - 1 < i {
                    y - 1
                } else {
                    y
                };
                assert(v[y] == a.docs[q]);
                if x > 0 {
                    let p = if x - 1 < i {
                        x - 1
                    } else {
                        x
                    };
                    assert(v[x] == a.docs[p]);
                }
            }
            assert forall|x: int| 0 <= x < v.len() implies (#[trigger] v[x]).gen
                < a.next_doc_gen by {
                if x > 0 {
                    let p = if x - 1 < i {
                        x - 1
                    } else {
                        x
                    };
                    assert(v[x] == a.docs[p]);
                }
            }
        }
    }
}

/// Keeping a document that was not kept before keeps what is kept in order, as long as the
/// generations last.
pub proof fn law_doc_built_keeps_order(a: AppV, key: DocKeyV, colored_later: bool, doc: DocV)
    requires
        cache_ok(a),
        forall|i: int| 0 <= i < a.docs.len() ==> (#[trigger] a.docs[i]).key != key,
        a.next_doc_gen < u64::MAX,
    ensures
        cache_ok(a.doc_built(key, colored_later, doc)),
{
    reveal(AppV::doc_built);
    reveal(AppV::with_docs);
    reveal(AppV::with_next_gen);
    reveal(AppV::with_doc_gen);
    let e = DocEntryV { key, doc, hl_done: !colored_later, gen: a.next_doc_gen };
    let v = seq![e] + a.docs;
    let k = kept(v);
    assert forall|x: int, y: int| 0 <= x < y < k.len() implies (#[trigger] k[x]).key != (
    #[trigger] k[y]).key && k[x].gen != k[y].gen by {
        assert(k[y] == a.docs[y - 1]);
        if x > 0 {
            assert(k[x] == a.docs[x - 1]);
        }
    }
    assert forall|x: int| 0 <= x < k.len() implies (#[trigger] k[x]).gen < a.next_doc_gen + 1 by {
        if x > 0 {
            assert(k[x] == a.docs[x - 1]);
        }
    }
}

/// Taking in a colored document keeps what is kept in order, as long as the generations last.
pub proof fn law_doc_colored_keeps_order(a: AppV, key: DocKeyV, doc: DocV)
    requires
        cache_ok(a),
        a.next_doc_gen < u64::MAX,
    ensures
        cache_ok(a.doc_colored(key, doc)),
{
    reveal(AppV::doc_colored);
    reveal(AppV::with_docs);
    reveal(AppV::with_next_gen);
    lemma_doc_index(a.docs, key);
    if doc_index(a.docs, key) is Some {
        let i = doc_index(a.docs, key)->0;
        let e = DocEntryV { key, doc, hl_done: true, gen: a.next_doc_gen };
        let v = a.docs.update(i, e);
        assert forall|x: int, y: int| 0 <= x < y < v.len() implies (#[trigger] v[x]).key != (
        #[trigger] v[y]).key && v[x].gen != v[y].gen by {
            assert(a.docs[x].key != a.docs[y].key);
            assert(a.docs[x].gen != a.docs[y].gen);
            assert(a.docs[x].gen < a.next_doc_gen);
            assert(a.docs[y].gen < a.next_doc_gen);
        }
        assert forall|x: int| 0 <= x < v.len() implies (#[trigger] v[x]).gen < a.next_doc_gen
            + 1 by {
            assert(a.docs[x].gen < a.next_doc_gen);
        }
    }
}

/// A document that was just built is at hand: asking for it again gives it as it is, and changes
/// nothing.
pub proof fn law_doc_is_kept(a: AppV, mtime: u128, colored_later: bool, doc: DocV)
    requires
        a.doc_step(mtime).1 matches DocStepV::Build(_, _),
    ensures
        ({
            let b = a.doc_step(mtime).0.doc_built(a.doc_key(mtime)->0, colored_later, doc);
            b.doc_step(mtime) == (b, DocStepV::Ready(doc))
        }),
{
    let key = a.doc_key(mtime)->0;
    let c = a.doc_step(mtime).0;
    let b = c.doc_built(key, colored_later, doc);
    lemma_doc_step_build(a, mtime);
    lemma_doc_built(c, key, colored_later, doc);
    lemma_same_doc_key(a, b, mtime);
    assert(b.doc_step(mtime) == (b, DocStepV::Ready(doc))) by {
        reveal(AppV::doc_step);
        assert(doc_index(b.docs, key) == Some(0int));
        assert(seq![b.docs[0]] + b.docs.remove(0) =~= b.docs);
        lemma_same_docs(b);
    }
}

/// Whether two states agree in what decides which file is selected.
spec fn same_selection(a: AppV, b: AppV) -> bool {
    &&& a.wts == b.wts
    &&& a.ui_state == b.ui_state
    &&& a.sel_wt == b.sel_wt
    &&& a.flat == b.flat
    &&& a.filter == b.filter
}

proof fn lemma_same_doc_key(a: AppV, b: AppV, mtime: u128)
    requires
        same_selection(a, b),
    ensures
        a.doc_key(mtime) == b.doc_key(mtime),
{
    reveal(AppV::rows);
    assert(a.rows() == b.rows());
}

proof fn lemma_same_docs(a: AppV)
    ensures
        a.with_docs(a.docs) == a,
        a.with_doc_gen(a.cur_doc_gen) == a,
{
    reveal(AppV::with_docs);
    reveal(AppV::with_doc_gen);
}

proof fn lemma_doc_step_build(a: AppV, mtime: u128)
    requires
        a.doc_step(mtime).1 matches DocStepV::Build(_, _),
    ensures
        a.doc_key(mtime) is Some,
        same_selection(a, a.doc_step(mtime).0),
        a.doc_step(mtime).0.cur_doc_key == a.doc_key(mtime),
{
    reveal(AppV::doc_step);
    reveal(AppV::with_doc_key);
    reveal(AppV::with_scroll);
}

proof fn lemma_doc_built(a: AppV, key: DocKeyV, colored_later: bool, doc: DocV)
    ensures
        ({
            let b = a.doc_built(key, colored_later, doc);
            &&& same_selection(a, b)
            &&& b.cur_doc_key == a.cur_doc_key
            &&& b.docs.len() > 0
            &&& b.docs[0] == (DocEntryV {
                key,
                doc,
                hl_done: !colored_later,
                gen: a.next_doc_gen,
            })
            &&& b.cur_doc_gen == a.next_doc_gen
        }),
{
    reveal(AppV::doc_built);
    reveal(AppV::with_docs);
    reveal(AppV::with_next_gen);
    reveal(AppV::with_doc_gen);
}

} // verus!
