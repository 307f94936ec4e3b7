//! Words of a line, and which of them differ between two lines.

use crate::bytes::{byte_len, bytes_of, count_bytes, law_bytes_join, lemma_more_bytes};
use crate::text::{chars_of, string_of, strs};
use vstd::prelude::*;
use vstd::string::*;

verus! {

// ---- Tokens --------------------------------------------------------------------

/// Whether `char::is_alphanumeric` holds of a character.
pub uninterp spec fn alphanumeric(c: char) -> bool;

/// `char::is_alphanumeric`: whether a character is alphabetic or numeric in Unicode.
pub assume_specification[ char::is_alphanumeric ](c: char) -> (r: bool)
    ensures
        r == alphanumeric(c),
;

/// Whether `c` is part of a word.
pub open spec fn word_char(c: char) -> bool {
    alphanumeric(c) || c == '_'
}

/// The number of word characters that `s` begins with.
pub open spec fn word_len(s: Seq<char>) -> nat
    decreases s.len(),
{
    if s.len() > 0 && word_char(s[0]) {
        1 + word_len(s.skip(1))
    } else {
        0
    }
}

proof fn lemma_word_len(s: Seq<char>, n: int)
    requires
        0 <= n <= s.len(),
        forall|j: int| 0 <= j < n ==> word_char(#[trigger] s[j]),
        n < s.len() ==> !word_char(s[n]),
    ensures
        word_len(s) == n,
    decreases s.len(),
{
    if n > 0 {
        let t = s.skip(1);
        assert forall|j: int| 0 <= j < n - 1 implies word_char(#[trigger] t[j]) by {
            assert(t[j] == s[j + 1]);
        }
        lemma_word_len(t, n - 1);
    }
}

proof fn lemma_word_len_bound(s: Seq<char>)
    ensures
        word_len(s) <= s.len(),
    decreases s.len(),
{
    if s.len() > 0 {
        lemma_word_len_bound(s.skip(1));
    }
}

/// The length of the first token of `s`: a run of word characters, or one other character.
pub open spec fn token_len(s: Seq<char>) -> nat {
    if word_len(s) > 0 {
        word_len(s)
    } else {
        1
    }
}

/// The tokens of `s`.
pub open spec fn tokens_of(s: Seq<char>) -> Seq<Seq<char>>
    decreases s.len(),
    via tokens_of_shrinks
{
    if s.len() == 0 {
        seq![]
    } else {
        seq![s.take(token_len(s) as int)] + tokens_of(s.skip(token_len(s) as int))
    }
}

#[via_fn]
proof fn tokens_of_shrinks(s: Seq<char>) {
    lemma_word_len_bound(s);
}

/// Split a line into tokens.
pub fn tokenize(s: &str) -> (r: Vec<String>)
    ensures
        strs(r@) == tokens_of(s@),
{
    let v = chars_of(s);
    let mut out: Vec<String> = Vec::new();
    let mut i: usize = 0;
    assert(v@.skip(0) =~= v@);
    while i < v.len()
        invariant
            v@ == s@,
            i <= v@.len(),
            strs(out@) + tokens_of(v@.skip(i as int)) =~= tokens_of(s@),
        decreases v@.len() - i,
    {
        let ghost rest = v@.skip(i as int);
        let mut e: usize = i;
        while e < v.len() && (v[e].is_alphanumeric() || v[e] == '_')
            invariant
                i <= e <= v@.len(),
                forall|j: int| i <= j < e ==> word_char(#[trigger] v@[j]),
            decreases v@.len() - e,
        {
            e += 1;
        }
        proof {
            assert forall|j: int| 0 <= j < e - i implies word_char(#[trigger] rest[j]) by {
                assert(rest[j] == v@[i + j]);
            }
            lemma_word_len(rest, e - i);
        }
        if e == i {
            e = i + 1;
        }
        let tok = string_of(&v, i, e);
        let ghost before = out@;
        out.push(tok);
        assert(tok@ =~= rest.take(e - i));
        assert(rest.skip(e - i) =~= v@.skip(e as int));
        assert(strs(out@) =~= strs(before).push(tok@));
        i = e;
    }
    out
}

/// Joined up again, the tokens of a line are the line.
pub proof fn law_tokens_join(s: Seq<char>)
    ensures
        tokens_of(s).flatten() == s,
    decreases s.len(),
{
    if s.len() > 0 {
        lemma_word_len_bound(s);
        let n = token_len(s) as int;
        law_tokens_join(s.skip(n));
        assert(tokens_of(s).drop_first() =~= tokens_of(s.skip(n)));
        assert(s.take(n) + s.skip(n) =~= s);
    }
}

// ---- Edit scripts --------------------------------------------------------------

/// One step of an edit script. Indices and lengths count tokens.
#[derive(Clone, Copy, Debug, PartialEq, Eq)]
pub enum EditOp {
    Equal { old_index: usize, new_index: usize, len: usize },
    Delete { old_index: usize, old_len: usize, new_index: usize },
    Insert { old_index: usize, new_index: usize, new_len: usize },
    Replace { old_index: usize, old_len: usize, new_index: usize, new_len: usize },
}

/// The edit script that `similar` computes with the Myers algorithm.
pub uninterp spec fn myers_script(a: Seq<Seq<char>>, b: Seq<Seq<char>>) -> Seq<EditOp>;

/// Whether the steps lead from `a[i..]` to `b[j..]`: they cover both from left to right, and
/// what they call equal is.
pub open spec fn leads(ops: Seq<EditOp>, a: Seq<Seq<char>>, i: int, b: Seq<Seq<char>>, j: int) -> bool
    decreases ops.len(),
{
    if ops.len() == 0 {
        i == a.len() && j == b.len()
    } else {
        let rest = ops.skip(1);
        match ops[0] {
            EditOp::Equal { old_index, new_index, len } => {
                &&& old_index == i
                &&& new_index == j
                &&& i + len <= a.len()
                &&& j + len <= b.len()
                &&& a.subrange(i, i + len) == b.subrange(j, j + len)
                &&& leads(rest, a, i + len, b, j + len)
            },
            EditOp::Delete { old_index, old_len, new_index: _ } => {
                &&& old_index == i
                &&& i + old_len <= a.len()
                &&& leads(rest, a, i + old_len, b, j)
            },
            EditOp::Insert { old_index: _, new_index, new_len } => {
                &&& new_index == j
                &&& j + new_len <= b.len()
                &&& leads(rest, a, i, b, j + new_len)
            },
            EditOp::Replace { old_index, old_len, new_index, new_len } => {
                &&& old_index == i
                &&& new_index == j
                &&& i + old_len <= a.len()
                &&& j + new_len <= b.len()
                &&& leads(rest, a, i + old_len, b, j + new_len)
            },
        }
    }
}

/// Whether a step is about at least one token, on each side that it changes.
pub open spec fn op_filled(op: EditOp) -> bool {
    match op {
        EditOp::Equal { len, .. } => len > 0,
        EditOp::Delete { old_len, .. } => old_len > 0,
        EditOp::Insert { new_len, .. } => new_len > 0,
        EditOp::Replace { old_len, new_len, .. } => old_len > 0 && new_len > 0,
    }
}

/// Whether no step of a script is empty.
pub open spec fn filled(ops: Seq<EditOp>) -> bool {
    forall|k: int| 0 <= k < ops.len() ==> op_filled(#[trigger] ops[k])
}

/// Whether a script changes nothing.
pub open spec fn unchanging(ops: Seq<EditOp>) -> bool {
    forall|k: int| 0 <= k < ops.len() ==> (#[trigger] ops[k]) is Equal
}

/// `similar::capture_diff_slices` with `Algorithm::Myers`: an edit script that leads from the
/// old tokens to the new ones. No step of it is empty, and between equal tokens it changes
/// nothing.
#[verifier::external_body]
pub(crate) fn diff_tokens(a: &Vec<String>, b: &Vec<String>) -> (r: Vec<EditOp>)
    ensures
        r@ == myers_script(strs(a@), strs(b@)),
        leads(r@, strs(a@), 0, strs(b@), 0),
        filled(r@),
        strs(a@) == strs(b@) ==> unchanging(r@),
{
    similar::capture_diff_slices(similar::Algorithm::Myers, a, b)
        .into_iter()
        .map(|op| match op {
            similar::DiffOp::Equal { old_index, new_index, len } => EditOp::Equal { old_index, new_index, len },
            similar::DiffOp::Delete { old_index, old_len, new_index } => EditOp::Delete { old_index, old_len, new_index },
            similar::DiffOp::Insert { old_index, new_index, new_len } => EditOp::Insert { old_index, new_index, new_len },
            similar::DiffOp::Replace { old_index, old_len, new_index, new_len } => EditOp::Replace { old_index, old_len, new_index, new_len },
        })
        .collect()
}

/// The number of bytes of the first `k` tokens.
pub open spec fn bytes_upto(toks: Seq<Seq<char>>, k: int) -> nat
    decreases k,
{
    if k <= 0 {
        0
    } else {
        bytes_upto(toks, k - 1) + byte_len(toks[k - 1])
    }
}

/// The byte ranges of the old line that a script removes.
pub open spec fn old_marks(ops: Seq<EditOp>, toks: Seq<Seq<char>>) -> Seq<(usize, usize)>
    decreases ops.len(),
{
    if ops.len() == 0 {
        seq![]
    } else {
        let head = match ops[0] {
            EditOp::Delete { old_index, old_len, new_index: _ } => seq![
                span(toks, old_index as int, old_len as int),
            ],
            EditOp::Replace { old_index, old_len, new_index: _, new_len: _ } => seq![
                span(toks, old_index as int, old_len as int),
            ],
            _ => seq![],
        };
        head + old_marks(ops.skip(1), toks)
    }
}

/// The byte ranges of the new line that a script brings in.
pub open spec fn new_marks(ops: Seq<EditOp>, toks: Seq<Seq<char>>) -> Seq<(usize, usize)>
    decreases ops.len(),
{
    if ops.len() == 0 {
        seq![]
    } else {
        let head = match ops[0] {
            EditOp::Insert { old_index: _, new_index, new_len } => seq![
                span(toks, new_index as int, new_len as int),
            ],
            EditOp::Replace { old_index: _, old_len: _, new_index, new_len } => seq![
                span(toks, new_index as int, new_len as int),
            ],
            _ => seq![],
        };
        head + new_marks(ops.skip(1), toks)
    }
}

/// The byte range of `n` tokens from token `k` on.
pub open spec fn span(toks: Seq<Seq<char>>, k: int, n: int) -> (usize, usize) {
    (bytes_upto(toks, k) as usize, bytes_upto(toks, k + n) as usize)
}

/// Whether every step of a script stays within `n` old and `m` new tokens.
pub open spec fn within(ops: Seq<EditOp>, n: nat, m: nat) -> bool {
    forall|k: int| 0 <= k < ops.len() ==> op_within(#[trigger] ops[k], n, m)
}

/// Whether the ranges of one step stay within `n` old and `m` new tokens.
pub open spec fn op_within(op: EditOp, n: nat, m: nat) -> bool {
    match op {
        EditOp::Equal { .. } => true,
        EditOp::Delete { old_index, old_len, .. } => old_index + old_len <= n,
        EditOp::Insert { new_index, new_len, .. } => new_index + new_len <= m,
        EditOp::Replace { old_index, old_len, new_index, new_len } => old_index + old_len <= n
            && new_index + new_len <= m,
    }
}

proof fn lemma_leads_within(ops: Seq<EditOp>, a: Seq<Seq<char>>, i: int, b: Seq<Seq<char>>, j: int)
    requires
        leads(ops, a, i, b, j),
    ensures
        within(ops, a.len(), b.len()),
    decreases ops.len(),
{
    if ops.len() > 0 {
        let rest = ops.skip(1);
        let (i2, j2) = match ops[0] {
            EditOp::Equal { old_index: _, new_index: _, len } => (i + len, j + len),
            EditOp::Delete { old_index: _, old_len, new_index: _ } => (i + old_len, j),
            EditOp::Insert { old_index: _, new_index: _, new_len } => (i, j + new_len),
            EditOp::Replace { old_index: _, old_len, new_index: _, new_len } => (
                i + old_len,
                j + new_len,
            ),
        };
        lemma_leads_within(rest, a, i2, b, j2);
        assert forall|k: int| 0 <= k < ops.len() implies op_within(#[trigger] ops[k], a.len(), b.len()) by {
            if k > 0 {
                assert(ops[k] == rest[k - 1]);
            }
        }
    }
}

pub proof fn lemma_bytes_upto(toks: Seq<Seq<char>>, k: int)
    requires
        0 <= k <= toks.len(),
    ensures
        bytes_upto(toks, k) == byte_len(toks.take(k).flatten()),
        bytes_upto(toks, k) <= byte_len(toks.flatten()),
        bytes_of(toks.flatten()).take(bytes_upto(toks, k) as int) == bytes_of(
            toks.take(k).flatten(),
        ),
    decreases k,
{
    lemma_flatten_add(toks.take(k), toks.skip(k));
    assert(toks.take(k) + toks.skip(k) =~= toks);
    law_bytes_join(toks.take(k).flatten(), toks.skip(k).flatten());
    if k == 0 {
        assert(toks.take(0) =~= Seq::<Seq<char>>::empty());
    } else {
        lemma_bytes_upto(toks, k - 1);
        assert(toks.take(k) =~= toks.take(k - 1).push(toks[k - 1]));
        toks.take(k - 1).lemma_flatten_push(toks[k - 1]);
        law_bytes_join(toks.take(k - 1).flatten(), toks[k - 1]);
    }
    assert(bytes_of(toks.flatten()).take(bytes_upto(toks, k) as int) =~= bytes_of(
        toks.take(k).flatten(),
    ));
}

proof fn lemma_flatten_add(a: Seq<Seq<char>>, b: Seq<Seq<char>>)
    ensures
        (a + b).flatten() == a.flatten() + b.flatten(),
    decreases a.len(),
{
    if a.len() == 0 {
        assert(a + b =~= b);
        assert(a.flatten() + b.flatten() =~= b.flatten());
    } else {
        lemma_flatten_add(a.drop_first(), b);
        assert((a + b).drop_first() =~= a.drop_first() + b);
        assert((a + b).first() == a.first());
        assert(a.first() + (a.drop_first().flatten() + b.flatten()) =~= (a.first()
            + a.drop_first().flatten()) + b.flatten());
    }
}

/// The running totals of token lengths: entry `k` counts the bytes of the first `k` tokens.
fn running_bytes(toks: &Vec<String>) -> (r: Vec<usize>)
    requires
        byte_len(strs(toks@).flatten()) <= usize::MAX,
    ensures
        r@.len() == toks@.len() + 1,
        forall|k: int| 0 <= k <= toks@.len() ==> #[trigger] r@[k] == bytes_upto(strs(toks@), k),
{
    let mut r: Vec<usize> = Vec::new();
    r.push(0);
    let mut sum: usize = 0;
    let mut k: usize = 0;
    while k < toks.len()
        invariant
            k <= toks@.len(),
            byte_len(strs(toks@).flatten()) <= usize::MAX,
            sum == bytes_upto(strs(toks@), k as int),
            r@.len() == k + 1,
            forall|j: int| 0 <= j <= k ==> #[trigger] r@[j] == bytes_upto(strs(toks@), j),
        decreases toks@.len() - k,
    {
        let n = count_bytes(toks[k].as_str());
        proof {
            lemma_bytes_upto(strs(toks@), k + 1);
        }
        sum = sum + n;
        r.push(sum);
        k += 1;
    }
    r
}

/// The byte ranges that a script removes from the old line and brings into the new one.
pub fn marks_of(ops: &Vec<EditOp>, a: &Vec<String>, b: &Vec<String>) -> (r: (
    Vec<(usize, usize)>,
    Vec<(usize, usize)>,
))
    requires
        within(ops@, a@.len(), b@.len()),
        byte_len(strs(a@).flatten()) <= usize::MAX,
        byte_len(strs(b@).flatten()) <= usize::MAX,
    ensures
        r.0@ == old_marks(ops@, strs(a@)),
        r.1@ == new_marks(ops@, strs(b@)),
{
    let ca = running_bytes(a);
    let cb = running_bytes(b);
    let mut old: Vec<(usize, usize)> = Vec::new();
    let mut new: Vec<(usize, usize)> = Vec::new();
    let mut k: usize = 0;
    assert(ops@.skip(0) =~= ops@);
    while k < ops.len()
        invariant
            k <= ops@.len(),
            a.len() == a@.len(),
            b.len() == b@.len(),
            within(ops@, a@.len(), b@.len()),
            ca@.len() == a@.len() + 1,
            cb@.len() == b@.len() + 1,
            forall|k: int| 0 <= k <= a@.len() ==> #[trigger] ca@[k] == bytes_upto(strs(a@), k),
            forall|k: int| 0 <= k <= b@.len() ==> #[trigger] cb@[k] == bytes_upto(strs(b@), k),
            old@ + old_marks(ops@.skip(k as int), strs(a@)) =~= old_marks(ops@, strs(a@)),
            new@ + new_marks(ops@.skip(k as int), strs(b@)) =~= new_marks(ops@, strs(b@)),
        decreases ops@.len() - k,
    {
        let op = ops[k];
        assert(ops@.skip(k as int)[0] == op);
        assert(ops@.skip(k as int).skip(1) =~= ops@.skip(k + 1));
        assert(op_within(ops@[k as int], a@.len(), b@.len()));
        match op {
            EditOp::Delete { old_index, old_len, new_index: _ } => {
                old.push((ca[old_index], ca[old_index + old_len]));
            },
            EditOp::Insert { old_index: _, new_index, new_len } => {
                new.push((cb[new_index], cb[new_index + new_len]));
            },
            EditOp::Replace { old_index, old_len, new_index, new_len } => {
                old.push((ca[old_index], ca[old_index + old_len]));
                new.push((cb[new_index], cb[new_index + new_len]));
            },
            EditOp::Equal { .. } => {},
        }
        k += 1;
    }
    (old, new)
}

/// Whether no marked range is empty.
pub open spec fn no_empty(marks: Seq<(usize, usize)>) -> bool {
    forall|k: int| 0 <= k < marks.len() ==> (#[trigger] marks[k]).0 < marks[k].1
}

proof fn lemma_tokens_filled(s: Seq<char>)
    ensures
        forall|k: int| 0 <= k < tokens_of(s).len() ==> (#[trigger] tokens_of(s)[k]).len() > 0,
    decreases s.len(),
{
    if s.len() > 0 {
        lemma_word_len_bound(s);
        let n = token_len(s) as int;
        let rest = tokens_of(s.skip(n));
        lemma_tokens_filled(s.skip(n));
        assert forall|k: int| 0 <= k < tokens_of(s).len() implies (#[trigger] tokens_of(
            s,
        )[k]).len() > 0 by {
            if k > 0 {
                assert(tokens_of(s)[k] == rest[k - 1]);
            }
        }
    }
}

proof fn lemma_span_filled(toks: Seq<Seq<char>>, k: int, n: int)
    requires
        forall|i: int| 0 <= i < toks.len() ==> (#[trigger] toks[i]).len() > 0,
        byte_len(toks.flatten()) <= usize::MAX,
        0 <= k,
        0 < n,
        k + n <= toks.len(),
    ensures
        span(toks, k, n).0 < span(toks, k, n).1,
{
    lemma_token_span(toks, k, n);
    lemma_token_span(toks, k, n - 1);
    let t = toks[k + n - 1];
    assert(t.len() > 0);
    lemma_more_bytes(t, 0, t.len() as int);
    assert(t.take(t.len() as int) =~= t);
}

proof fn lemma_marks_filled(ops: Seq<EditOp>, a: Seq<Seq<char>>, b: Seq<Seq<char>>)
    requires
        filled(ops),
        within(ops, a.len(), b.len()),
        forall|i: int| 0 <= i < a.len() ==> (#[trigger] a[i]).len() > 0,
        forall|i: int| 0 <= i < b.len() ==> (#[trigger] b[i]).len() > 0,
        byte_len(a.flatten()) <= usize::MAX,
        byte_len(b.flatten()) <= usize::MAX,
    ensures
        no_empty(old_marks(ops, a)),
        no_empty(new_marks(ops, b)),
        unchanging(ops) ==> old_marks(ops, a).len() == 0 && new_marks(ops, b).len() == 0,
    decreases ops.len(),
{
    if ops.len() > 0 {
        let rest = ops.skip(1);
        assert forall|k: int| 0 <= k < rest.len() implies #[trigger] rest[k] == ops[k + 1] by {}
        assert(op_filled(ops[0]) && op_within(ops[0], a.len(), b.len()));
        lemma_marks_filled(rest, a, b);
        let om = old_marks(ops, a);
        let nm = new_marks(ops, b);
        let om1 = old_marks(rest, a);
        let nm1 = new_marks(rest, b);
        match ops[0] {
            EditOp::Equal { .. } => {
                assert(om =~= om1);
                assert(nm =~= nm1);
            },
            EditOp::Delete { old_index, old_len, .. } => {
                lemma_span_filled(a, old_index as int, old_len as int);
                assert forall|k: int| 1 <= k < om.len() implies #[trigger] om[k] == om1[k - 1] by {}
                assert(nm =~= nm1);
            },
            EditOp::Insert { new_index, new_len, .. } => {
                lemma_span_filled(b, new_index as int, new_len as int);
                assert forall|k: int| 1 <= k < nm.len() implies #[trigger] nm[k] == nm1[k - 1] by {}
                assert(om =~= om1);
            },
            EditOp::Replace { old_index, old_len, new_index, new_len } => {
                lemma_span_filled(a, old_index as int, old_len as int);
                lemma_span_filled(b, new_index as int, new_len as int);
                assert forall|k: int| 1 <= k < om.len() implies #[trigger] om[k] == om1[k - 1] by {}
                assert forall|k: int| 1 <= k < nm.len() implies #[trigger] nm[k] == nm1[k - 1] by {}
            },
        }
    }
}

/// The word-level differences between an old and a new line: the byte ranges of each that
/// the other lacks. None of them is empty, and equal lines have none.
pub fn word_emphasis(old: &str, new: &str) -> (r: (Vec<(usize, usize)>, Vec<(usize, usize)>))
    ensures
        r.0@ == old_marks(myers_script(tokens_of(old@), tokens_of(new@)), tokens_of(old@)),
        r.1@ == new_marks(myers_script(tokens_of(old@), tokens_of(new@)), tokens_of(new@)),
        leads(myers_script(tokens_of(old@), tokens_of(new@)), tokens_of(old@), 0, tokens_of(new@), 0),
        no_empty(r.0@),
        no_empty(r.1@),
        old@ == new@ ==> r.0@.len() == 0 && r.1@.len() == 0,
{
    let a = tokenize(old);
    let b = tokenize(new);
    let ops = diff_tokens(&a, &b);
    let n = count_bytes(old);
    let m = count_bytes(new);
    proof {
        lemma_leads_within(ops@, strs(a@), 0, strs(b@), 0);
        law_tokens_join(old@);
        law_tokens_join(new@);
        lemma_tokens_filled(old@);
        lemma_tokens_filled(new@);
        lemma_marks_filled(ops@, strs(a@), strs(b@));
    }
    marks_of(&ops, &a, &b)
}

// ---- What the marks leave ------------------------------------------------------

/// What is left of some bytes from `pos` on without the marked ranges.
pub open spec fn kept(s: Seq<u8>, pos: int, marks: Seq<(usize, usize)>) -> Seq<u8>
    decreases marks.len(),
{
    if marks.len() == 0 {
        s.skip(pos)
    } else {
        s.subrange(pos, marks[0].0 as int) + kept(s, marks[0].1 as int, marks.skip(1))
    }
}

/// Whether the marked ranges lie between `pos` and `n`, one after the other.
pub open spec fn orderly(marks: Seq<(usize, usize)>, pos: int, n: int) -> bool
    decreases marks.len(),
{
    if marks.len() == 0 {
        pos <= n
    } else {
        pos <= marks[0].0 <= marks[0].1 <= n && orderly(marks.skip(1), marks[0].1 as int, n)
    }
}

proof fn lemma_kept_step(s: Seq<u8>, pos: int, q: int, marks: Seq<(usize, usize)>)
    requires
        0 <= pos <= q,
        orderly(marks, q, s.len() as int),
    ensures
        q <= s.len(),
        orderly(marks, pos, s.len() as int),
        kept(s, pos, marks) == s.subrange(pos, q) + kept(s, q, marks),
    decreases marks.len(),
{
    if marks.len() == 0 {
        assert(s.skip(pos) =~= s.subrange(pos, q) + s.skip(q));
    } else {
        lemma_orderly_end(marks.skip(1), marks[0].1 as int, s.len() as int);
        assert(s.subrange(pos, marks[0].0 as int) =~= s.subrange(pos, q) + s.subrange(
            q,
            marks[0].0 as int,
        ));
        let t = kept(s, marks[0].1 as int, marks.skip(1));
        assert((s.subrange(pos, q) + s.subrange(q, marks[0].0 as int)) + t =~= s.subrange(pos, q)
            + (s.subrange(q, marks[0].0 as int) + t));
    }
}

proof fn lemma_orderly_end(marks: Seq<(usize, usize)>, pos: int, n: int)
    requires
        orderly(marks, pos, n),
    ensures
        pos <= n,
{
}

proof fn lemma_token_span(toks: Seq<Seq<char>>, k: int, n: int)
    requires
        0 <= k,
        0 <= n,
        k + n <= toks.len(),
    ensures
        bytes_upto(toks, k) <= bytes_upto(toks, k + n) <= byte_len(toks.flatten()),
        bytes_of(toks.flatten()).subrange(
            bytes_upto(toks, k) as int,
            bytes_upto(toks, k + n) as int,
        ) == bytes_of(toks.subrange(k, k + n).flatten()),
{
    let s = bytes_of(toks.flatten());
    lemma_bytes_upto(toks, k);
    lemma_bytes_upto(toks, k + n);
    assert(toks.take(k + n) =~= toks.take(k) + toks.subrange(k, k + n));
    lemma_flatten_add(toks.take(k), toks.subrange(k, k + n));
    law_bytes_join(toks.take(k).flatten(), toks.subrange(k, k + n).flatten());
    let p = bytes_upto(toks, k) as int;
    let q = bytes_upto(toks, k + n) as int;
    assert(s.subrange(p, q) =~= s.take(q).skip(p));
    assert((bytes_of(toks.take(k).flatten()) + bytes_of(toks.subrange(k, k + n).flatten())).skip(p)
        =~= bytes_of(toks.subrange(k, k + n).flatten()));
}

proof fn lemma_marks(ops: Seq<EditOp>, a: Seq<Seq<char>>, i: int, b: Seq<Seq<char>>, j: int)
    requires
        0 <= i <= a.len(),
        0 <= j <= b.len(),
        leads(ops, a, i, b, j),
        byte_len(a.flatten()) <= usize::MAX,
        byte_len(b.flatten()) <= usize::MAX,
    ensures
        orderly(old_marks(ops, a), bytes_upto(a, i) as int, byte_len(a.flatten()) as int),
        orderly(new_marks(ops, b), bytes_upto(b, j) as int, byte_len(b.flatten()) as int),
        kept(bytes_of(a.flatten()), bytes_upto(a, i) as int, old_marks(ops, a)) == kept(
            bytes_of(b.flatten()),
            bytes_upto(b, j) as int,
            new_marks(ops, b),
        ),
    decreases ops.len(),
{
    let s = bytes_of(a.flatten());
    let t = bytes_of(b.flatten());
    let p = bytes_upto(a, i) as int;
    let q = bytes_upto(b, j) as int;
    lemma_bytes_upto(a, i);
    lemma_bytes_upto(b, j);
    if ops.len() == 0 {
        assert(a.take(i) =~= a);
        assert(b.take(j) =~= b);
        assert(s.skip(p) =~= t.skip(q));
    } else {
        let rest = ops.skip(1);
        let om = old_marks(rest, a);
        let nm = new_marks(rest, b);
        let (x, y): (int, int) = match ops[0] {
            EditOp::Equal { old_index: _, new_index: _, len } => (len as int, len as int),
            EditOp::Delete { old_index: _, old_len, new_index: _ } => (old_len as int, 0),
            EditOp::Insert { old_index: _, new_index: _, new_len } => (0, new_len as int),
            EditOp::Replace { old_index: _, old_len, new_index: _, new_len } => (
                old_len as int,
                new_len as int,
            ),
        };
        lemma_token_span(a, i, x);
        lemma_token_span(b, j, y);
        lemma_marks(rest, a, i + x, b, j + y);
        let p2 = bytes_upto(a, i + x) as int;
        let q2 = bytes_upto(b, j + y) as int;
        match ops[0] {
            EditOp::Equal { .. } => {
                assert(old_marks(ops, a) =~= om);
                assert(new_marks(ops, b) =~= nm);
                lemma_kept_step(s, p, p2, om);
                lemma_kept_step(t, q, q2, nm);
            },
            EditOp::Delete { .. } => {
                assert(new_marks(ops, b) =~= nm);
                assert(old_marks(ops, a).skip(1) =~= om);
                assert(s.subrange(p, p) + kept(s, p2, om) =~= kept(s, p2, om));
            },
            EditOp::Insert { .. } => {
                assert(old_marks(ops, a) =~= om);
                assert(new_marks(ops, b).skip(1) =~= nm);
                assert(t.subrange(q, q) + kept(t, q2, nm) =~= kept(t, q2, nm));
            },
            EditOp::Replace { .. } => {
                assert(old_marks(ops, a).skip(1) =~= om);
                assert(new_marks(ops, b).skip(1) =~= nm);
                assert(s.subrange(p, p) + kept(s, p2, om) =~= kept(s, p2, om));
                assert(t.subrange(q, q) + kept(t, q2, nm) =~= kept(t, q2, nm));
            },
        }
    }
}

/// Without what is emphasised in them an old and a new line are the same bytes, and the
/// emphasised ranges of each lie in it one after the other.
pub proof fn law_emphasis_is_the_difference(old: Seq<char>, new: Seq<char>, ops: Seq<EditOp>)
    requires
        leads(ops, tokens_of(old), 0, tokens_of(new), 0),
        byte_len(old) <= usize::MAX,
        byte_len(new) <= usize::MAX,
    ensures
        orderly(old_marks(ops, tokens_of(old)), 0, byte_len(old) as int),
        orderly(new_marks(ops, tokens_of(new)), 0, byte_len(new) as int),
        kept(bytes_of(old), 0, old_marks(ops, tokens_of(old))) == kept(
            bytes_of(new),
            0,
            new_marks(ops, tokens_of(new)),
        ),
{
    law_tokens_join(old);
    law_tokens_join(new);
    lemma_marks(ops, tokens_of(old), 0, tokens_of(new), 0);
}

/// Whether a range of bytes holds whole characters of `s`.
pub open spec fn whole_characters(s: Seq<char>, range: (usize, usize)) -> bool {
    exists|i: int, j: int|
        0 <= i <= j <= s.len() && range == (
            #[trigger] byte_len(s.take(i)) as usize,
            #[trigger] byte_len(s.take(j)) as usize,
        )
}

proof fn lemma_span_whole(toks: Seq<Seq<char>>, k: int, n: int)
    requires
        0 <= k,
        0 <= n,
        k + n <= toks.len(),
    ensures
        whole_characters(toks.flatten(), span(toks, k, n)),
{
    let s = toks.flatten();
    let a = toks.take(k).flatten();
    let b = toks.subrange(k, k + n).flatten();
    let c = toks.skip(k + n).flatten();
    lemma_flatten_add(toks.take(k), toks.skip(k));
    lemma_flatten_add(toks.subrange(k, k + n), toks.skip(k + n));
    assert(toks.take(k) + toks.skip(k) =~= toks);
    assert(toks.subrange(k, k + n) + toks.skip(k + n) =~= toks.skip(k));
    assert(toks.take(k) + toks.subrange(k, k + n) =~= toks.take(k + n));
    lemma_flatten_add(toks.take(k), toks.subrange(k, k + n));
    lemma_bytes_upto(toks, k);
    lemma_bytes_upto(toks, k + n);
    assert(s.take(a.len() as int) =~= a);
    assert(s.take((a + b).len() as int) =~= a + b);
}

proof fn lemma_marks_whole(ops: Seq<EditOp>, a: Seq<Seq<char>>, b: Seq<Seq<char>>)
    requires
        within(ops, a.len(), b.len()),
    ensures
        forall|k: int|
            0 <= k < old_marks(ops, a).len() ==> whole_characters(
                a.flatten(),
                #[trigger] old_marks(ops, a)[k],
            ),
        forall|k: int|
            0 <= k < new_marks(ops, b).len() ==> whole_characters(
                b.flatten(),
                #[trigger] new_marks(ops, b)[k],
            ),
    decreases ops.len(),
{
    if ops.len() > 0 {
        let rest = ops.skip(1);
        assert forall|k: int| 0 <= k < rest.len() implies #[trigger] rest[k] == ops[k + 1] by {}
        assert(op_within(ops[0], a.len(), b.len()));
        lemma_marks_whole(rest, a, b);
        match ops[0] {
            EditOp::Equal { .. } => {},
            EditOp::Delete { old_index, old_len, .. } => {
                lemma_span_whole(a, old_index as int, old_len as int);
            },
            EditOp::Insert { new_index, new_len, .. } => {
                lemma_span_whole(b, new_index as int, new_len as int);
            },
            EditOp::Replace { old_index, old_len, new_index, new_len } => {
                lemma_span_whole(a, old_index as int, old_len as int);
                lemma_span_whole(b, new_index as int, new_len as int);
            },
        }
        let om = old_marks(ops, a);
        let nm = new_marks(ops, b);
        let om1 = old_marks(rest, a);
        let nm1 = new_marks(rest, b);
        assert forall|k: int| 0 <= k < om.len() implies whole_characters(
            a.flatten(),
            #[trigger] om[k],
        ) by {
            let d = om.len() - om1.len();
            if k >= d {
                assert(om[k] == om1[k - d]);
            }
        }
        assert forall|k: int| 0 <= k < nm.len() implies whole_characters(
            b.flatten(),
            #[trigger] nm[k],
        ) by {
            let d = nm.len() - nm1.len();
            if k >= d {
                assert(nm[k] == nm1[k - d]);
            }
        }
    }
}

/// No character is emphasised in part.
pub proof fn law_emphasis_is_whole_characters(old: Seq<char>, new: Seq<char>, ops: Seq<EditOp>)
    requires
        leads(ops, tokens_of(old), 0, tokens_of(new), 0),
    ensures
        forall|k: int|
            0 <= k < old_marks(ops, tokens_of(old)).len() ==> whole_characters(
                old,
                #[trigger] old_marks(ops, tokens_of(old))[k],
            ),
        forall|k: int|
            0 <= k < new_marks(ops, tokens_of(new)).len() ==> whole_characters(
                new,
                #[trigger] new_marks(ops, tokens_of(new))[k],
            ),
{
    law_tokens_join(old);
    law_tokens_join(new);
    lemma_leads_within(ops, tokens_of(old), 0, tokens_of(new), 0);
    lemma_marks_whole(ops, tokens_of(old), tokens_of(new));
}

} // verus!
