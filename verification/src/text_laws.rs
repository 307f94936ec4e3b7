//! What taking text apart and putting it together have to do with each other.

use crate::text::{
    after_last, before, begins, decimal, find, is_white, lemma_find, lemma_find_is, lines_of,
    replaced, split_on, trimmed, trimmed_end, trimmed_start, without_cr, words_of, Stop,
};
use vstd::prelude::*;

verus! {

// ---- Pieces and lines ------------------------------------------------------------

/// Pieces one after the other, each with `end` behind it.
pub open spec fn ended(pieces: Seq<Seq<char>>, end: char) -> Seq<char>
    decreases pieces.len(),
{
    if pieces.len() == 0 {
        seq![]
    } else {
        pieces[0] + seq![end] + ended(pieces.skip(1), end)
    }
}

/// Whether no piece holds a character.
pub open spec fn all_free_of(pieces: Seq<Seq<char>>, c: char) -> bool {
    forall|i: int| 0 <= i < pieces.len() ==> !(#[trigger] pieces[i]).contains(c)
}

proof fn lemma_skip_free(pieces: Seq<Seq<char>>, c: char)
    requires
        pieces.len() > 0,
        all_free_of(pieces, c),
    ensures
        all_free_of(pieces.skip(1), c),
        !pieces[0].contains(c),
{
    assert forall|i: int| 0 <= i < pieces.skip(1).len() implies !(
    #[trigger] pieces.skip(1)[i]).contains(c) by {
        assert(pieces.skip(1)[i] == pieces[i + 1]);
    }
}

pub proof fn lemma_first_end(a: Seq<char>, c: char, rest: Seq<char>)
    requires
        !a.contains(c),
    ensures
        find(a + seq![c] + rest, Stop::At(c)) == a.len(),
        (a + seq![c] + rest).take(a.len() as int) == a,
        (a + seq![c] + rest).skip((a.len() + 1) as int) == rest,
{
    let s = a + seq![c] + rest;
    assert forall|j: int| 0 <= j < a.len() implies s[j] != c by {
        assert(s[j] == a[j]);
        assert(a.contains(a[j]));
    }
    lemma_find_is(s, Stop::At(c), a.len() as int);
    assert(s.take(a.len() as int) =~= a);
    assert(s.skip((a.len() + 1) as int) =~= rest);
}

/// Splitting undoes joining: pieces that do not hold the separator, each with one behind it, and
/// what follows the last separator, come back as they are and in order.
pub proof fn law_split_of_ended(pieces: Seq<Seq<char>>, sep: char, last: Seq<char>)
    requires
        all_free_of(pieces, sep),
        !last.contains(sep),
    ensures
        split_on(ended(pieces, sep) + last, sep) == pieces.push(last),
    decreases pieces.len(),
{
    if pieces.len() == 0 {
        assert(ended(pieces, sep) + last =~= last);
        lemma_find(last, Stop::At(sep));
        let i = find(last, Stop::At(sep));
        if i < last.len() {
            assert(last.contains(last[i]));
        }
        assert(split_on(last, sep) =~= seq![last]);
        assert(pieces.push(last) =~= seq![last]);
    } else {
        lemma_skip_free(pieces, sep);
        let rest = pieces.skip(1);
        law_split_of_ended(rest, sep, last);
        lemma_first_end(pieces[0], sep, ended(rest, sep) + last);
        assert(ended(pieces, sep) + last =~= pieces[0] + seq![sep] + (ended(rest, sep) + last));
        assert(seq![pieces[0]] + rest.push(last) =~= pieces.push(last));
    }
}

/// Joining undoes splitting: no piece holds the separator, and the pieces with the separators
/// behind them are the text and one separator more.
pub proof fn law_split_rejoins(s: Seq<char>, sep: char)
    ensures
        all_free_of(split_on(s, sep), sep),
        ended(split_on(s, sep), sep) == s.push(sep),
    decreases s.len(),
{
    lemma_find(s, Stop::At(sep));
    let i = find(s, Stop::At(sep));
    let ps = split_on(s, sep);
    if i >= s.len() {
        reveal_with_fuel(ended, 2);
        assert(ps.skip(1) =~= Seq::<Seq<char>>::empty());
        assert(ended(ps, sep) =~= s.push(sep));
    } else {
        let rest = split_on(s.skip(i + 1), sep);
        law_split_rejoins(s.skip(i + 1), sep);
        assert(ps.skip(1) =~= rest);
        assert(ended(ps, sep) =~= s.push(sep));
        assert forall|k: int| 0 <= k < ps.len() implies !(#[trigger] ps[k]).contains(sep) by {
            if k > 0 {
                assert(ps[k] == rest[k - 1]);
            }
        }
    }
}

/// Whether no line holds a line feed or ends in a carriage return.
pub open spec fn all_lines(ls: Seq<Seq<char>>) -> bool {
    &&& all_free_of(ls, '\n')
    &&& forall|i: int|
        0 <= i < ls.len() ==> (#[trigger] ls[i]).len() == 0 || ls[i].last() != '\r'
}

pub proof fn lemma_skip_lines(ls: Seq<Seq<char>>)
    requires
        ls.len() > 0,
        all_lines(ls),
    ensures
        all_lines(ls.skip(1)),
{
    lemma_skip_free(ls, '\n');
    assert forall|i: int| 0 <= i < ls.skip(1).len() implies (#[trigger] ls.skip(1)[i]).len() == 0
        || ls.skip(1)[i].last() != '\r' by {
        assert(ls.skip(1)[i] == ls[i + 1]);
    }
}

/// Lines, each with a line feed behind it, come back as they are and in order; so they do where
/// the last one has no line feed, unless it is empty.
pub proof fn law_lines_of_ended(ls: Seq<Seq<char>>, last: Seq<char>)
    requires
        all_lines(ls),
        !last.contains('\n'),
    ensures
        lines_of(ended(ls, '\n')) == ls,
        last.len() > 0 ==> lines_of(ended(ls, '\n') + last) == ls.push(last),
    decreases ls.len(),
{
    if ls.len() == 0 {
        assert(lines_of(ended(ls, '\n')) =~= ls);
        assert(ended(ls, '\n') + last =~= last);
        lemma_find(last, Stop::At('\n'));
        if last.len() > 0 {
            let i = find(last, Stop::At('\n'));
            if i < last.len() {
                assert(last.contains(last[i]));
            }
            assert(lines_of(last) =~= seq![last]);
            assert(ls.push(last) =~= seq![last]);
        }
    } else {
        lemma_skip_lines(ls);
        let rest = ls.skip(1);
        law_lines_of_ended(rest, last);
        lemma_first_end(ls[0], '\n', ended(rest, '\n'));
        lemma_first_end(ls[0], '\n', ended(rest, '\n') + last);
        assert(!ls[0].contains('\n'));
        assert(without_cr(ls[0]) == ls[0]);
        assert(ended(ls, '\n') + last =~= ls[0] + seq!['\n'] + (ended(rest, '\n') + last));
        assert(seq![ls[0]] + rest =~= ls);
        assert(seq![ls[0]] + rest.push(last) =~= ls.push(last));
    }
}

/// A carriage return in front of a line feed belongs to the end of the line.
pub proof fn law_carriage_returns(l: Seq<char>, rest: Seq<char>)
    requires
        !l.contains('\n'),
    ensures
        lines_of(l + seq!['\r', '\n'] + rest) == seq![l] + lines_of(rest),
{
    let a = l.push('\r');
    assert forall|i: int| 0 <= i < a.len() implies a[i] != '\n' by {
        if i < l.len() {
            assert(l.contains(l[i]));
        }
    }
    lemma_first_end(a, '\n', rest);
    assert(l + seq!['\r', '\n'] + rest =~= a + seq!['\n'] + rest);
    assert(a.drop_last() =~= l);
}

// ---- Words -----------------------------------------------------------------------

/// Whether a text is a word: not empty and without white space.
pub open spec fn is_word(w: Seq<char>) -> bool {
    w.len() > 0 && forall|i: int| 0 <= i < w.len() ==> !is_white(#[trigger] w[i])
}

/// White space in front of a text counts for nothing; a word comes first where it ends the text
/// or white space follows it; a text without words has none.
pub proof fn law_words(w: Seq<char>, c: char, rest: Seq<char>)
    requires
        is_word(w),
        is_white(c),
    ensures
        words_of(seq![]) == Seq::<Seq<char>>::empty(),
        words_of(w) == seq![w],
        words_of(seq![c] + rest) == words_of(rest),
        words_of(w + seq![c] + rest) == seq![w] + words_of(rest),
{
    lemma_find(Seq::<char>::empty(), Stop::Solid);
    assert(words_of(Seq::<char>::empty()) =~= Seq::<Seq<char>>::empty());
    // A word alone
    assert(!is_white(w[0]));
    lemma_find_is(w, Stop::Solid, 0);
    assert(w.skip(0) =~= w);
    lemma_find_is(w, Stop::White, w.len() as int);
    assert(w.take(w.len() as int) =~= w);
    assert(w.skip(w.len() as int) =~= Seq::<char>::empty());
    assert(words_of(w) =~= seq![w]);
    // White space in front
    let s = seq![c] + rest;
    lemma_find(rest, Stop::Solid);
    let b = find(rest, Stop::Solid);
    assert forall|j: int| 0 <= j < b + 1 implies is_white(#[trigger] s[j]) by {
        if j > 0 {
            assert(s[j] == rest[j - 1]);
        }
    }
    if b < rest.len() {
        assert(s[b + 1] == rest[b]);
    }
    lemma_find_is(s, Stop::Solid, b + 1);
    assert(s.skip(b + 1) =~= rest.skip(b));
    assert(words_of(s) =~= words_of(rest));
    // A word with white space behind it
    let t = w + seq![c] + rest;
    assert(t[0] == w[0]);
    lemma_find_is(t, Stop::Solid, 0);
    assert(t.skip(0) =~= t);
    assert forall|j: int| 0 <= j < w.len() implies !is_white(#[trigger] t[j]) by {
        assert(t[j] == w[j]);
    }
    lemma_find_is(t, Stop::White, w.len() as int);
    assert(t.take(w.len() as int) =~= w);
    assert(t.skip(w.len() as int) =~= s);
    assert(words_of(t) =~= seq![w] + words_of(s));
}

/// Whether a text is white space alone.
pub open spec fn all_white(s: Seq<char>) -> bool {
    forall|i: int| 0 <= i < s.len() ==> is_white(#[trigger] s[i])
}

proof fn lemma_trim_end(s: Seq<char>, post: Seq<char>)
    requires
        all_white(post),
        s.len() == 0 || !is_white(s.last()),
    ensures
        trimmed_end(s + post) == s,
    decreases post.len(),
{
    if post.len() > 0 {
        assert((s + post).drop_last() =~= s + post.drop_last());
        assert((s + post).last() == post[post.len() - 1]);
        assert forall|i: int| 0 <= i < post.drop_last().len() implies is_white(
            #[trigger] post.drop_last()[i],
        ) by {
            assert(post.drop_last()[i] == post[i]);
        }
        lemma_trim_end(s, post.drop_last());
    } else {
        assert(s + post =~= s);
    }
}

/// Trimming takes off the white space at both ends and nothing else.
pub proof fn law_trim(pre: Seq<char>, s: Seq<char>, post: Seq<char>)
    requires
        all_white(pre),
        all_white(post),
        s.len() == 0 || (!is_white(s[0]) && !is_white(s.last())),
    ensures
        trimmed(pre + s + post) == s,
{
    let t = pre + s + post;
    if s.len() > 0 {
        assert forall|j: int| 0 <= j < pre.len() implies is_white(#[trigger] t[j]) by {
            assert(t[j] == pre[j]);
        }
        assert(t[pre.len() as int] == s[0]);
        lemma_find_is(t, Stop::Solid, pre.len() as int);
        assert(trimmed_start(t) =~= s + post);
        lemma_trim_end(s, post);
    } else {
        assert forall|j: int| 0 <= j < t.len() implies is_white(#[trigger] t[j]) by {
            if j < pre.len() {
                assert(t[j] == pre[j]);
            } else {
                assert(t[j] == post[j - pre.len()]);
            }
        }
        lemma_find_is(t, Stop::Solid, t.len() as int);
        assert(trimmed_start(t) =~= Seq::<char>::empty());
        assert(s =~= Seq::<char>::empty());
    }
}

// ---- Parts of text ---------------------------------------------------------------

/// What follows the last separator is what it is whatever stands before it.
pub proof fn law_after_last(a: Seq<char>, sep: char, b: Seq<char>)
    requires
        !b.contains(sep),
    ensures
        after_last(a + seq![sep] + b, sep) == b,
        after_last(b, sep) == b,
    decreases b.len(),
{
    let s = a + seq![sep] + b;
    if b.len() == 0 {
        assert(s.last() == sep);
        assert(b =~= Seq::<char>::empty());
    } else {
        let t = b.drop_last();
        assert(b.contains(b[b.len() - 1]));
        assert forall|i: int| 0 <= i < t.len() implies t[i] != sep by {
            assert(b.contains(b[i]));
        }
        law_after_last(a, sep, t);
        assert(s.drop_last() =~= a + seq![sep] + t);
        assert(s.last() == b.last());
        assert(t.push(b.last()) =~= b);
    }
}

/// Whether a placeholder does not begin anywhere in `a`, when `a` stands in front of `rest`.
pub open spec fn not_within(a: Seq<char>, p: Seq<char>, rest: Seq<char>) -> bool {
    forall|i: int| 0 <= i < a.len() ==> !begins(#[trigger] (a + rest).skip(i), p)
}

/// Replacing leaves alone what stands before the first occurrence, puts the other text in its
/// place, and goes on behind it.
pub proof fn law_replace(a: Seq<char>, p: Seq<char>, rest: Seq<char>, w: Seq<char>)
    requires
        p.len() > 0,
        not_within(a, p, p + rest),
    ensures
        replaced(a + p + rest, p, w) == a + w + replaced(rest, p, w),
    decreases a.len(),
{
    let s = a + p + rest;
    assert(s =~= a + (p + rest));
    if a.len() == 0 {
        assert(s =~= p + rest);
        assert(s.take(p.len() as int) =~= p);
        assert(s.skip(p.len() as int) =~= rest);
        assert(a + w + replaced(rest, p, w) =~= w + replaced(rest, p, w));
    } else {
        let b = a.skip(1);
        assert((a + (p + rest)).skip(0) =~= s);
        assert(!begins(s, p));
        assert(s.skip(1) =~= b + p + rest);
        assert forall|i: int| 0 <= i < b.len() implies !begins(
            #[trigger] (b + (p + rest)).skip(i),
            p,
        ) by {
            assert((b + (p + rest)).skip(i) =~= (a + (p + rest)).skip(i + 1));
        }
        law_replace(b, p, rest, w);
        assert(seq![s[0]] + (b + w + replaced(rest, p, w)) =~= a + w + replaced(rest, p, w));
    }
}

/// Where there is no occurrence, replacing changes nothing.
pub proof fn law_nothing_to_replace(s: Seq<char>, p: Seq<char>, w: Seq<char>)
    requires
        p.len() > 0,
        not_within(s, p, seq![]),
    ensures
        replaced(s, p, w) == s,
    decreases s.len(),
{
    if s.len() > 0 {
        assert((s + Seq::<char>::empty()).skip(0) =~= s);
        let t = s.skip(1);
        assert forall|i: int| 0 <= i < t.len() implies !begins(
            #[trigger] (t + Seq::<char>::empty()).skip(i),
            p,
        ) by {
            assert((t + Seq::<char>::empty()).skip(i) =~= (s + Seq::<char>::empty()).skip(i + 1));
        }
        law_nothing_to_replace(t, p, w);
        assert(seq![s[0]] + t =~= s);
    }
}

// ---- Numbers and order -----------------------------------------------------------

/// A number in decimal ends in its last digit, in front of which stands the rest of the number;
/// the digits are the characters from `0` to `9`.
pub proof fn law_decimal_digits(n: nat, d: nat)
    requires
        d < 10,
    ensures
        decimal(d) == seq![(48 + d) as char],
        n > 0 ==> decimal(10 * n + d) == decimal(n).push((48 + d) as char),
{
    assert((10 * n + d) / 10 == n && (10 * n + d) % 10 == d);
}

/// Texts are in order by the first character in which they differ; what begins with another text
/// and goes on comes behind it.
pub proof fn law_order(p: Seq<char>, x: char, a: Seq<char>, y: char, b: Seq<char>)
    ensures
        before(p, p + seq![x] + a),
        !before(p + seq![x] + a, p),
        x != y ==> before(p + seq![x] + a, p + seq![y] + b) == ((x as u32) < (y as u32)),
    decreases p.len(),
{
    let s = p + seq![x] + a;
    let t = p + seq![y] + b;
    if p.len() > 0 {
        law_order(p.skip(1), x, a, y, b);
        assert(s.skip(1) =~= p.skip(1) + seq![x] + a);
        assert(t.skip(1) =~= p.skip(1) + seq![y] + b);
        assert(s[0] == p[0] && t[0] == p[0]);
    } else {
        assert(s[0] == x && t[0] == y);
    }
}

} // verus!
