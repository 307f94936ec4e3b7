//! For how long documents are kept.

use crate::app::{AppV, DocEntryV, DocKeyV};
use crate::diffview::DocV;
use crate::docs::{cache_ok, doc_index, kept, lemma_doc_index, DocStepV, DOC_CACHE};
use vstd::prelude::*;

verus! {

/// A look at the selected file's document: the state before it, when the file was modified, and
/// the document that is built where none was kept.
pub struct DocLook {
    pub at: AppV,
    pub mtime: u128,
    pub doc: DocV,
}

impl DocLook {
    /// The key of the document, if a file is selected.
    pub open spec fn key(self) -> Option<DocKeyV> {
        self.at.doc_key(self.mtime)
    }

    /// The state after it.
    #[verifier::opaque]
    pub open spec fn after(self) -> AppV {
        match self.at.doc_step(self.mtime) {
            (b, DocStepV::Build(key, colored_later)) => b.doc_built(key, colored_later, self.doc),
            (b, _) => b,
        }
    }
}

/// Whether looks follow each other with nothing in between that touches what is kept or which
/// document is selected.
pub open spec fn follow_each_other(looks: Seq<DocLook>) -> bool {
    forall|i: int, j: int|
        0 <= i < looks.len() && j == i + 1 && j < looks.len() ==> (#[trigger] looks[j]).at.docs == (
        #[trigger] looks[i]).after().docs && looks[j].at.cur_doc_key
            == looks[i].after().cur_doc_key
}

/// Whether no document is kept twice.
spec fn keys_differ(docs: Seq<DocEntryV>) -> bool {
    forall|i: int, j: int|
        0 <= i < j < docs.len() ==> (#[trigger] docs[i]).key != (#[trigger] docs[j]).key
}

/// Whether a document is kept at a place, behind none but some others.
spec fn kept_behind(docs: Seq<DocEntryV>, e: DocEntryV, others: Set<DocKeyV>, i: int) -> bool {
    &&& 0 <= i < docs.len()
    &&& docs[i] == e
    &&& forall|j: int| 0 <= j < i ==> others.contains((#[trigger] docs[j]).key)
}

/// Different documents with keys from a set are no more than the set has.
proof fn lemma_few(docs: Seq<DocEntryV>, others: Set<DocKeyV>)
    requires
        keys_differ(docs),
        others.finite(),
        forall|j: int| 0 <= j < docs.len() ==> others.contains((#[trigger] docs[j]).key),
    ensures
        docs.len() <= others.len(),
{
    let keys = Seq::new(docs.len(), |j: int| docs[j].key);
    assert forall|i: int, j: int| 0 <= i < keys.len() && 0 <= j < keys.len() && i != j implies
        keys[i] != keys[j] by {
        if i < j {
            assert(docs[i].key != docs[j].key);
        } else {
            assert(docs[j].key != docs[i].key);
        }
    }
    keys.unique_seq_to_set();
    assert forall|k: DocKeyV| keys.to_set().contains(k) implies others.contains(k) by {
        let j = choose|j: int| 0 <= j < keys.len() && keys[j] == k;
        assert(others.contains(docs[j].key));
    }
    vstd::set_lib::lemma_len_subset(keys.to_set(), others);
}

/// What a look does to what is kept, and to which document is selected.
proof fn lemma_look(l: DocLook)
    ensures
        match l.key() {
            None => l.after() == l.at,
            Some(key) => {
                &&& l.after().cur_doc_key == Some(key)
                &&& match doc_index(l.at.docs, key) {
                    Some(i) => l.after().docs == seq![l.at.docs[i]] + l.at.docs.remove(i)
                        && l.after().cur_doc_gen == l.at.docs[i].gen,
                    None => exists|e: DocEntryV|
                        #![trigger seq![e]]
                        e.key == key && l.after().docs == kept(seq![e] + l.at.docs)
                            && l.after().cur_doc_gen == e.gen,
                }
            },
        },
{
    reveal(DocLook::after);
    reveal(AppV::doc_step);
    reveal(AppV::with_docs);
    reveal(AppV::with_doc_key);
    reveal(AppV::with_scroll);
    reveal(AppV::with_doc_gen);
    if l.key() is Some {
        let key = l.key()->0;
        if doc_index(l.at.docs, key) is None {
            let (b, step) = l.at.doc_step(l.mtime);
            reveal(AppV::doc_built);
            reveal(AppV::with_next_gen);
            let e = DocEntryV {
                key,
                doc: l.doc,
                hl_done: !step->Build_1,
                gen: b.next_doc_gen,
            };
            assert(l.after().docs == kept(seq![e] + l.at.docs));
        }
    }
}

/// A look at a document that was kept moves it to the front.
proof fn lemma_moved(docs: Seq<DocEntryV>, e: DocEntryV, others: Set<DocKeyV>, i: int, m: int)
    requires
        keys_differ(docs),
        kept_behind(docs, e, others, i),
        0 <= m < docs.len(),
        m == i || others.contains(docs[m].key),
    ensures
        ({
            let v = seq![docs[m]] + docs.remove(m);
            &&& keys_differ(v)
            &&& exists|k: int| kept_behind(v, e, others, k)
        }),
{
    let v = seq![docs[m]] + docs.remove(m);
    assert forall|x: int| 0 < x < v.len() implies #[trigger] v[x] == docs[if x - 1 < m {
        x - 1
    } else {
        x
    }] by {}
    assert forall|x: int, y: int| 0 <= x < y < v.len() implies (#[trigger] v[x]).key != (
    #[trigger] v[y]).key by {}
    let k = if m == i {
        0
    } else if m < i {
        i
    } else {
        i + 1
    };
    assert(kept_behind(v, e, others, k));
}

/// A document that is built goes to the front, and the last of too many goes.
proof fn lemma_pushed(
    docs: Seq<DocEntryV>,
    e: DocEntryV,
    others: Set<DocKeyV>,
    i: int,
    new: DocEntryV,
)
    requires
        keys_differ(docs),
        kept_behind(docs, e, others, i),
        forall|j: int| 0 <= j < docs.len() ==> (#[trigger] docs[j]).key != new.key,
        others.contains(new.key),
        others.finite(),
        others.len() < DOC_CACHE,
    ensures
        ({
            let v = kept(seq![new] + docs);
            &&& keys_differ(v)
            &&& kept_behind(v, e, others, i + 1)
        }),
{
    let w = seq![new] + docs;
    let v = kept(w);
    assert forall|x: int| 0 < x < w.len() implies #[trigger] w[x] == docs[x - 1] by {}
    assert forall|x: int, y: int| 0 <= x < y < w.len() implies (#[trigger] w[x]).key != (
    #[trigger] w[y]).key by {}
    lemma_few(w.take(i + 1), others);
    assert(v[i + 1] == w[i + 1]);
}

proof fn lemma_look_keeps(l: DocLook, e: DocEntryV, others: Set<DocKeyV>, i: int)
    requires
        keys_differ(l.at.docs),
        kept_behind(l.at.docs, e, others, i),
        l.key() matches Some(k) ==> k == e.key || others.contains(k),
        others.finite(),
        others.len() < DOC_CACHE,
    ensures
        keys_differ(l.after().docs),
        exists|k: int| kept_behind(l.after().docs, e, others, k),
{
    lemma_look(l);
    let docs = l.at.docs;
    if l.key() is Some {
        let key = l.key()->0;
        lemma_doc_index(docs, key);
        match doc_index(docs, key) {
            Some(m) => {
                lemma_moved(docs, e, others, i, m);
            },
            None => {
                let new = choose|new: DocEntryV|
                    #![trigger seq![new]]
                    new.key == key && l.after().docs == kept(seq![new] + docs)
                        && l.after().cur_doc_gen == new.gen;
                assert(docs[i].key != key);
                lemma_pushed(docs, e, others, i, new);
            },
        }
    } else {
        assert(kept_behind(l.after().docs, e, others, i));
    }
}

proof fn lemma_looks_keep(looks: Seq<DocLook>, e: DocEntryV, others: Set<DocKeyV>)
    requires
        looks.len() > 0,
        follow_each_other(looks),
        keys_differ(looks[0].after().docs),
        kept_behind(looks[0].after().docs, e, others, 0),
        forall|i: int|
            0 < i < looks.len() ==> ((#[trigger] looks[i]).key() matches Some(k) ==> k == e.key
                || others.contains(k)),
        others.finite(),
        others.len() < DOC_CACHE,
    ensures
        keys_differ(looks.last().after().docs),
        exists|k: int| kept_behind(looks.last().after().docs, e, others, k),
    decreases looks.len(),
{
    if looks.len() > 1 {
        let h = looks.drop_last();
        assert(follow_each_other(h)) by {
            assert forall|i: int| 0 <= i < h.len() implies #[trigger] h[i] == looks[i] by {}
        }
        assert forall|i: int| 0 < i < h.len() implies ((#[trigger] h[i]).key() matches Some(k)
            ==> k == e.key || others.contains(k)) by {
            assert(h[i] == looks[i]);
        }
        lemma_looks_keep(h, e, others);
        let n = looks.len() - 1;
        assert(looks[n].at.docs == looks[n - 1].after().docs);
        assert(h.last() == looks[n - 1]);
        let k = choose|k: int| kept_behind(h.last().after().docs, e, others, k);
        lemma_look_keeps(looks[n], e, others, k);
    } else {
        assert(looks.last() == looks[0]);
    }
}

/// The document that is selected is that of the last look at a file.
proof fn lemma_looks_select(looks: Seq<DocLook>, key: DocKeyV)
    requires
        looks.len() > 0,
        follow_each_other(looks),
        looks[0].key() == Some(key),
        forall|i: int|
            0 < i < looks.len() ==> ((#[trigger] looks[i]).key() matches Some(k) ==> k == key),
    ensures
        looks.last().after().cur_doc_key == Some(key),
    decreases looks.len(),
{
    lemma_look(looks.last());
    if looks.len() > 1 {
        let h = looks.drop_last();
        assert(follow_each_other(h)) by {
            assert forall|i: int| 0 <= i < h.len() implies #[trigger] h[i] == looks[i] by {}
        }
        assert forall|i: int| 0 < i < h.len() implies ((#[trigger] h[i]).key() matches Some(k)
            ==> k == key) by {
            assert(h[i] == looks[i]);
        }
        lemma_looks_select(h, key);
        let n = looks.len() - 1;
        assert(looks[n].at.cur_doc_key == looks[n - 1].after().cur_doc_key);
        assert(h.last() == looks[n - 1]);
    } else {
        assert(looks.last() == looks[0]);
    }
}

/// A look for a document that is kept.
proof fn lemma_found(z: AppV, mtime: u128, i: int)
    requires
        z.doc_key(mtime) is Some,
        doc_index(z.docs, z.doc_key(mtime)->0) == Some(i),
        0 <= i < z.docs.len(),
    ensures
        ({
            let key = z.doc_key(mtime)->0;
            let (y, step) = z.doc_step(mtime);
            &&& step == DocStepV::Ready(z.docs[i].doc) || step == DocStepV::Recolor(
                z.docs[i].doc,
                key,
            )
            &&& y.docs.len() > 0 && y.docs[0] == z.docs[i]
            &&& y.cur_doc_gen == z.docs[i].gen
            &&& y.cur_doc_key == Some(key)
            &&& y.diff_scroll == if z.cur_doc_key == Some(key) {
                z.diff_scroll
            } else {
                0
            }
        }),
{
    reveal(AppV::doc_step);
    reveal(AppV::with_docs);
    reveal(AppV::with_doc_key);
    reveal(AppV::with_scroll);
    reveal(AppV::with_doc_gen);
}

/// What was looked at is kept in front.
proof fn lemma_first_look(l: DocLook)
    requires
        cache_ok(l.at),
        l.key() is Some,
    ensures
        l.after().docs.len() > 0,
        l.after().docs[0].key == l.key()->0,
        l.after().docs[0].gen == l.after().cur_doc_gen,
        keys_differ(l.after().docs),
{
    let key = l.key()->0;
    let docs = l.at.docs;
    lemma_look(l);
    lemma_doc_index(docs, key);
    assert(keys_differ(docs));
    match doc_index(docs, key) {
        Some(m) => {
            let all = Set::new(|k: DocKeyV| true);
            lemma_moved(docs, docs[m], all, m, m);
        },
        None => {
            let new = choose|new: DocEntryV|
                #![trigger seq![new]]
                new.key == key && l.after().docs == kept(seq![new] + docs)
                    && l.after().cur_doc_gen == new.gen;
            let w = seq![new] + docs;
            assert forall|x: int| 0 < x < w.len() implies #[trigger] w[x] == docs[x - 1] by {}
            assert(l.after().docs[0] == new);
        },
    }
}

/// A document is kept over any number of looks at up to seven other ones: looking for it again
/// builds nothing, and gives the same document under the same generation. The diff is scrolled to
/// its start where the last look was at another one, and stays where all looks were at this one.
pub proof fn law_kept_over_others(
    looks: Seq<DocLook>,
    others: Set<DocKeyV>,
    z: AppV,
    mtime: u128,
)
    requires
        looks.len() > 0,
        cache_ok(looks[0].at),
        follow_each_other(looks),
        looks[0].key() is Some,
        forall|i: int|
            0 < i < looks.len() ==> ((#[trigger] looks[i]).key() matches Some(k) ==> Some(k)
                == looks[0].key() || others.contains(k)),
        others.finite(),
        others.len() <= 7,
        z.docs == looks.last().after().docs,
        z.cur_doc_key == looks.last().after().cur_doc_key,
        z.doc_key(mtime) == looks[0].key(),
    ensures
        ({
            let key = looks[0].key()->0;
            let first = looks[0].after();
            let (y, step) = z.doc_step(mtime);
            &&& first.docs.len() > 0 && first.docs[0].key == key && first.docs[0].gen
                == first.cur_doc_gen
            &&& step == DocStepV::Ready(first.docs[0].doc) || step == DocStepV::Recolor(
                first.docs[0].doc,
                key,
            )
            &&& y.docs.len() > 0 && y.docs[0] == first.docs[0]
            &&& y.cur_doc_gen == first.cur_doc_gen
            &&& y.cur_doc_key == Some(key)
            &&& y.diff_scroll == if z.cur_doc_key == Some(key) {
                z.diff_scroll
            } else {
                0
            }
            &&& (looks.last().key() matches Some(k) ==> z.cur_doc_key == Some(k))
            &&& (forall|i: int|
                0 < i < looks.len() ==> ((#[trigger] looks[i]).key() matches Some(k) ==> k == key))
                ==> z.cur_doc_key == Some(key)
        }),
{
    let key = looks[0].key()->0;
    let first = looks[0].after();
    lemma_first_look(looks[0]);
    let e = first.docs[0];
    assert(kept_behind(first.docs, e, others, 0));
    lemma_looks_keep(looks, e, others);
    let k = choose|k: int| kept_behind(looks.last().after().docs, e, others, k);
    lemma_doc_index(z.docs, key);
    assert(z.docs[k].key == key);
    assert(doc_index(z.docs, key) == Some(k));
    lemma_look(looks.last());
    if forall|i: int|
        0 < i < looks.len() ==> ((#[trigger] looks[i]).key() matches Some(k) ==> k == key) {
        lemma_looks_select(looks, key);
    }
    lemma_found(z, mtime, k);
}

/// There is nothing to look at exactly where no file is selected.
pub proof fn law_nothing_to_look_at(a: AppV, mtime: u128)
    ensures
        a.doc_step(mtime).1 is Nothing <==> a.selected_file() is None,
        a.selected_file() is None ==> a.doc_step(mtime).0 == a,
{
    reveal(AppV::doc_step);
}

} // verus!
