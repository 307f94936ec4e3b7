//! What a diff says, as it is written.

use crate::parse::{
    clean, header_number, hunk_number, run_start, sanitized, says_binary, scan_line, scan_lines,
    scan_start, with_line, with_marks, without_signs, Kind, PHunkV, PLineV, Scan, MAX_LINES,
};
use crate::text::{
    begins, decimal, is_digit, is_white, law_decimal_reads_back, lines_of, split_on, unsigned_value,
    without_sign,
};
use crate::text_laws::{
    all_lines, ended, is_word, law_lines_of_ended, law_split_of_ended, law_words,
};
use vstd::prelude::*;

verus! {

// ---- Hunks as they are written ---------------------------------------------------

/// A line of a hunk as the diff writes it.
pub struct Written {
    pub kind: Kind,
    pub text: Seq<char>,
}

/// A hunk as the diff writes it: where it begins in the old and in the new version and how many
/// lines it has there, which is left out where there is one, what follows in its header, and its
/// lines.
pub struct Hunk {
    pub old: u32,
    pub old_len: Option<nat>,
    pub new: u32,
    pub new_len: Option<nat>,
    pub rest: Seq<char>,
    pub lines: Seq<Written>,
}

/// The character that a line of a hunk begins with.
pub open spec fn mark(kind: Kind) -> char {
    match kind {
        Kind::Ctx => ' ',
        Kind::Add => '+',
        Kind::Del => '-',
    }
}

/// The place of a hunk in a version: the number of its first line, and of its lines.
pub open spec fn place_text(sign: char, first: u32, len: Option<nat>) -> Seq<char> {
    match len {
        Some(n) => seq![sign] + decimal(first as nat) + seq![','] + decimal(n),
        None => seq![sign] + decimal(first as nat),
    }
}

/// The header of a hunk.
pub open spec fn header_text(h: Hunk) -> Seq<char> {
    seq!['@', '@', ' '] + place_text('-', h.old, h.old_len) + seq![' '] + place_text(
        '+',
        h.new,
        h.new_len,
    ) + seq![' ', '@', '@'] + h.rest
}

/// The lines of a hunk, with its header in front.
pub open spec fn hunk_text(h: Hunk) -> Seq<Seq<char>> {
    seq![header_text(h)] + h.lines.map_values(|l: Written| seq![mark(l.kind)] + l.text)
}

/// The lines of hunks.
pub open spec fn hunks_text(hs: Seq<Hunk>) -> Seq<Seq<char>>
    decreases hs.len(),
{
    if hs.len() == 0 {
        seq![]
    } else {
        hunks_text(hs.drop_last()) + hunk_text(hs.last())
    }
}

/// The number of lines in hunks, without their headers.
pub open spec fn line_total(hs: Seq<Hunk>) -> nat
    decreases hs.len(),
{
    if hs.len() == 0 {
        0
    } else {
        line_total(hs.drop_last()) + hs.last().lines.len()
    }
}

/// How many of the first `k` lines are in the old version: all but the added ones.
pub open spec fn old_before(ls: Seq<Written>, k: int) -> nat
    decreases k,
{
    if k <= 0 {
        0
    } else if ls[k - 1].kind == Kind::Add {
        old_before(ls, k - 1)
    } else {
        old_before(ls, k - 1) + 1
    }
}

/// How many of the first `k` lines are in the new version: all but the removed ones.
pub open spec fn new_before(ls: Seq<Written>, k: int) -> nat
    decreases k,
{
    if k <= 0 {
        0
    } else if ls[k - 1].kind == Kind::Del {
        new_before(ls, k - 1)
    } else {
        new_before(ls, k - 1) + 1
    }
}

/// A line number, which goes on from 0 behind the largest one.
pub open spec fn line_no(first: u32, k: nat) -> u32 {
    ((first + k) % 0x1_0000_0000) as u32
}

// ---- Headers ---------------------------------------------------------------------

proof fn lemma_decimal_word(n: nat)
    ensures
        decimal(n).len() > 0,
        forall|i: int| 0 <= i < decimal(n).len() ==> is_digit(#[trigger] decimal(n)[i]),
{
    law_decimal_reads_back(n);
}

proof fn lemma_place_number(sign: char, first: u32, len: Option<nat>)
    requires
        sign == '-' || sign == '+',
    ensures
        hunk_number(place_text(sign, first, len)) == first,
        is_word(place_text(sign, first, len)),
{
    let d = decimal(first as nat);
    let t = place_text(sign, first, len);
    lemma_decimal_word(first as nat);
    law_decimal_reads_back(first as nat);
    assert(is_digit(d[0]));
    let rest = t.skip(1);
    assert(without_signs(rest) == rest) by {
        assert(rest[0] == d[0]);
    }
    assert(without_signs(t) == rest);
    assert(!d.contains(',')) by {
        if d.contains(',') {
            let i = choose|i: int| 0 <= i < d.len() && d[i] == ',';
            assert(is_digit(d[i]));
        }
    }
    match len {
        Some(n) => {
            let e = decimal(n);
            lemma_decimal_word(n);
            assert(!e.contains(',')) by {
                if e.contains(',') {
                    let i = choose|i: int| 0 <= i < e.len() && e[i] == ',';
                    assert(is_digit(e[i]));
                }
            }
            law_split_of_ended(seq![d], ',', e);
            reveal_with_fuel(ended, 2);
            assert(seq![d].skip(1) =~= Seq::<Seq<char>>::empty());
            assert(rest =~= ended(seq![d], ',') + e);
            assert(split_on(rest, ',')[0] == d);
            assert forall|i: int| 0 <= i < t.len() implies !is_white(#[trigger] t[i]) by {
                if 0 < i <= d.len() {
                    assert(t[i] == d[i - 1]);
                    assert(is_digit(d[i - 1]));
                } else if i > d.len() + 1 {
                    assert(t[i] == e[i - d.len() - 2]);
                    assert(is_digit(e[i - d.len() - 2]));
                }
            }
        },
        None => {
            law_split_of_ended(Seq::empty(), ',', d);
            assert(ended(Seq::empty(), ',') + d =~= d);
            assert(rest =~= d);
            assert(split_on(rest, ',')[0] == d);
            assert forall|i: int| 0 <= i < t.len() implies !is_white(#[trigger] t[i]) by {
                if i > 0 {
                    assert(t[i] == d[i - 1]);
                    assert(is_digit(d[i - 1]));
                }
            }
        },
    }
    assert(without_sign(d, '+') == d);
    assert(unsigned_value(d, u32::MAX as nat) == Some(first as nat));
}

/// The header of a hunk says where the hunk begins in the old and in the new version, whatever
/// follows.
pub proof fn law_header_numbers(h: Hunk)
    ensures
        header_number(header_text(h), 1) == h.old,
        header_number(header_text(h), 2) == h.new,
{
    let a = place_text('-', h.old, h.old_len);
    let b = place_text('+', h.new, h.new_len);
    lemma_place_number('-', h.old, h.old_len);
    lemma_place_number('+', h.new, h.new_len);
    let at = seq!['@', '@'];
    let s2 = seq!['@', '@'] + h.rest;
    let s1 = b + seq![' '] + s2;
    let s0 = a + seq![' '] + s1;
    assert(is_white(' '));
    assert(!is_white('@'));
    assert(is_word(at));
    law_words(at, ' ', s0);
    law_words(a, ' ', s1);
    law_words(b, ' ', s2);
    assert(header_text(h) =~= at + seq![' '] + s0);
}

// ---- Lines -----------------------------------------------------------------------

proof fn lemma_scan_add(st: Scan, a: Seq<Seq<char>>, b: Seq<Seq<char>>)
    ensures
        scan_lines(st, a + b) == scan_lines(scan_lines(st, a), b),
    decreases a.len(),
{
    if a.len() == 0 || st.count > MAX_LINES {
        assert(a.len() == 0 ==> a + b =~= b);
    } else {
        assert((a + b)[0] == a[0]);
        assert((a + b).skip(1) =~= a.skip(1) + b);
        lemma_scan_add(scan_line(st, a[0]), a.skip(1), b);
    }
}

proof fn lemma_scan_one(st: Scan, l: Seq<char>)
    requires
        st.count <= MAX_LINES,
    ensures
        scan_lines(st, seq![l]) == scan_line(st, l),
{
    reveal_with_fuel(scan_lines, 2);
    assert(seq![l].skip(1) =~= Seq::<Seq<char>>::empty());
}

proof fn lemma_not_binary(l: Seq<char>)
    requires
        l.len() > 0,
        l[0] != 'B',
        l[0] != 'G',
    ensures
        !says_binary(l),
{
    reveal_strlit("Binary files ");
    reveal_strlit("GIT binary patch");
    if begins(l, "Binary files "@) {
        assert(l.take("Binary files "@.len() as int)[0] == l[0]);
    }
    if begins(l, "GIT binary patch"@) {
        assert(l.take("GIT binary patch"@.len() as int)[0] == l[0]);
    }
}

proof fn lemma_first(l: Seq<char>)
    requires
        l.len() > 0,
    ensures
        begins(l, "+"@) == (l[0] == '+'),
        begins(l, "-"@) == (l[0] == '-'),
        begins(l, " "@) == (l[0] == ' '),
        l[0] != '@' ==> !begins(l, "@@"@),
{
    reveal_strlit("+");
    reveal_strlit("-");
    reveal_strlit(" ");
    reveal_strlit("@@");
    assert(l.take(1) =~= seq![l[0]]);
    assert(seq![l[0]][0] == l[0]);
    assert(seq!['+'][0] == '+' && seq!['-'][0] == '-' && seq![' '][0] == ' ');
    assert("+"@ =~= seq!['+']);
    assert("-"@ =~= seq!['-']);
    assert(" "@ =~= seq![' ']);
    if begins(l, "@@"@) {
        assert(l.take(2)[0] == l[0]);
    }
}

proof fn lemma_scan_header(st: Scan, h: Hunk)
    requires
        st.count <= MAX_LINES,
    ensures
        scan_line(st, header_text(h)) == (Scan {
            hunks: st.hunks.push(PHunkV { header: sanitized(header_text(h)), lines: seq![] }),
            old_no: h.old,
            new_no: h.new,
            ..st
        }),
{
    let l = header_text(h);
    law_header_numbers(h);
    lemma_not_binary(l);
    reveal_strlit("@@");
    assert(l.take(2) =~= "@@"@);
}

/// What is read of a line of a hunk.
spec fn read_line(h: Hunk, k: int) -> PLineV {
    PLineV {
        kind: h.lines[k].kind,
        old_no: if h.lines[k].kind == Kind::Add {
            None
        } else {
            Some(line_no(h.old, old_before(h.lines, k)))
        },
        new_no: if h.lines[k].kind == Kind::Del {
            None
        } else {
            Some(line_no(h.new, new_before(h.lines, k)))
        },
        text: sanitized(h.lines[k].text),
        emph: seq![],
    }
}

spec fn read_hunk(h: Hunk, k: int) -> PHunkV {
    PHunkV { header: sanitized(header_text(h)), lines: Seq::new(k as nat, |i: int| read_line(h, i)) }
}

proof fn lemma_scan_body(st: Scan, h: Hunk, k: int)
    requires
        0 <= k <= h.lines.len(),
        st.count + h.lines.len() <= MAX_LINES,
    ensures
        scan_lines(st, hunk_text(h).take(k + 1)) == (Scan {
            hunks: st.hunks.push(read_hunk(h, k)),
            old_no: line_no(h.old, old_before(h.lines, k)),
            new_no: line_no(h.new, new_before(h.lines, k)),
            count: st.count + k as nat,
            ..st
        }),
    decreases k,
{
    let t = hunk_text(h);
    if k == 0 {
        lemma_scan_header(st, h);
        lemma_scan_one(st, header_text(h));
        assert(t.take(1) =~= seq![header_text(h)]);
        assert(read_hunk(h, 0).lines =~= Seq::<PLineV>::empty());
        assert(st.hunks.push(read_hunk(h, 0)) =~= st.hunks.push(
            PHunkV { header: sanitized(header_text(h)), lines: seq![] },
        ));
    } else {
        lemma_scan_body(st, h, k - 1);
        let before = scan_lines(st, t.take(k));
        let w = h.lines[k - 1];
        let l = seq![mark(w.kind)] + w.text;
        assert(t.take(k + 1) =~= t.take(k) + seq![l]);
        lemma_scan_add(st, t.take(k), seq![l]);
        lemma_scan_one(before, l);
        lemma_not_binary(l);
        lemma_first(l);
        assert(l.skip(1) =~= w.text);
        let was = st.hunks.push(read_hunk(h, k - 1));
        assert(was.drop_last() =~= st.hunks);
        assert(read_hunk(h, k - 1).lines.push(read_line(h, k - 1)) =~= read_hunk(h, k).lines);
        assert(with_line(was, read_line(h, k - 1)) =~= st.hunks.push(read_hunk(h, k)));
    }
}

proof fn lemma_scan_hunks(st: Scan, hs: Seq<Hunk>)
    requires
        st.count + line_total(hs) <= MAX_LINES,
    ensures
        ({
            let r = scan_lines(st, hunks_text(hs));
            &&& r.hunks == st.hunks + Seq::new(
                hs.len(),
                |i: int| read_hunk(hs[i], hs[i].lines.len() as int),
            )
            &&& r.count == st.count + line_total(hs)
            &&& r.binary == st.binary
        }),
    decreases hs.len(),
{
    let all = Seq::new(hs.len(), |i: int| read_hunk(hs[i], hs[i].lines.len() as int));
    if hs.len() == 0 {
        assert(all =~= Seq::<PHunkV>::empty());
        assert(st.hunks + all =~= st.hunks);
    } else {
        let a = hs.drop_last();
        let h = hs.last();
        lemma_scan_hunks(st, a);
        let mid = scan_lines(st, hunks_text(a));
        lemma_scan_add(st, hunks_text(a), hunk_text(h));
        lemma_scan_body(mid, h, h.lines.len() as int);
        assert(hunk_text(h).take((h.lines.len() + 1) as int) =~= hunk_text(h));
        let some = Seq::new(a.len(), |i: int| read_hunk(a[i], a[i].lines.len() as int));
        assert(all =~= some.push(read_hunk(h, h.lines.len() as int)));
        assert((st.hunks + some).push(read_hunk(h, h.lines.len() as int)) =~= st.hunks + all);
    }
}

/// Whether a line stands outside of all hunks and says nothing of binary files.
pub open spec fn is_preamble(l: Seq<char>) -> bool {
    !begins(l, "@@"@) && !says_binary(l)
}

proof fn lemma_scan_preamble(ls: Seq<Seq<char>>)
    requires
        forall|i: int| 0 <= i < ls.len() ==> is_preamble(#[trigger] ls[i]),
    ensures
        scan_lines(scan_start(), ls) == scan_start(),
    decreases ls.len(),
{
    if ls.len() > 0 {
        assert(is_preamble(ls[0]));
        assert forall|i: int| 0 <= i < ls.skip(1).len() implies is_preamble(
            #[trigger] ls.skip(1)[i],
        ) by {
            assert(ls.skip(1)[i] == ls[i + 1]);
        }
        lemma_scan_preamble(ls.skip(1));
    }
}

/// Of a diff that is not too long every hunk and every line is read, in order, with its kind and
/// its text, control characters apart. The lines that the old version has are numbered one by one
/// from the first old number in the hunk's header on, and have no other number there; the lines
/// that the new version has, from the first new number on. An added line has no old number, and a
/// removed one no new number.
pub proof fn law_hunks_are_read(preamble: Seq<Seq<char>>, hs: Seq<Hunk>)
    requires
        forall|i: int| 0 <= i < preamble.len() ==> is_preamble(#[trigger] preamble[i]),
        all_lines(preamble + hunks_text(hs)),
        line_total(hs) <= MAX_LINES,
    ensures
        ({
            let r = scan_lines(scan_start(), lines_of(ended(preamble + hunks_text(hs), '\n')));
            &&& !r.binary
            &&& r.hunks.len() == hs.len()
            &&& forall|i: int|
                0 <= i < hs.len() ==> (#[trigger] r.hunks[i]).lines.len() == hs[i].lines.len()
                    && r.hunks[i].header == sanitized(header_text(hs[i]))
            &&& forall|i: int, k: int|
                0 <= i < hs.len() && 0 <= k < hs[i].lines.len() ==> {
                    let l = #[trigger] r.hunks[i].lines[k];
                    let w = hs[i].lines[k];
                    &&& l.kind == w.kind
                    &&& l.text == sanitized(w.text)
                    &&& w.kind == Kind::Add ==> l.old_no is None
                    &&& w.kind == Kind::Del ==> l.new_no is None
                    &&& w.kind != Kind::Add ==> l.old_no == Some(
                        line_no(hs[i].old, old_before(hs[i].lines, k)),
                    )
                    &&& w.kind != Kind::Del ==> l.new_no == Some(
                        line_no(hs[i].new, new_before(hs[i].lines, k)),
                    )
                }
        }),
{
    let all = preamble + hunks_text(hs);
    law_lines_of_ended(all, seq![]);
    lemma_scan_add(scan_start(), preamble, hunks_text(hs));
    lemma_scan_preamble(preamble);
    lemma_scan_hunks(scan_start(), hs);
    let r = scan_lines(scan_start(), all);
    let read = Seq::new(hs.len(), |i: int| read_hunk(hs[i], hs[i].lines.len() as int));
    assert(r.hunks =~= read);
    assert forall|i: int, k: int| 0 <= i < hs.len() && 0 <= k < hs[i].lines.len() implies {
        let l = #[trigger] r.hunks[i].lines[k];
        let w = hs[i].lines[k];
        &&& l.kind == w.kind
        &&& l.text == sanitized(w.text)
        &&& w.kind == Kind::Add ==> l.old_no is None
        &&& w.kind == Kind::Del ==> l.new_no is None
        &&& w.kind != Kind::Add ==> l.old_no == Some(
            line_no(hs[i].old, old_before(hs[i].lines, k)),
        )
        &&& w.kind != Kind::Del ==> l.new_no == Some(
            line_no(hs[i].new, new_before(hs[i].lines, k)),
        )
    } by {
        assert(r.hunks[i] == read_hunk(hs[i], hs[i].lines.len() as int));
        assert(r.hunks[i].lines[k] == read_line(hs[i], k));
    }
}

/// A line in a hunk that is neither kept nor added nor removed, such as a note on a missing line
/// feed, shows nothing and is not numbered.
pub proof fn law_notes_are_skipped(st: Scan, l: Seq<char>)
    requires
        l.len() > 0,
        l[0] == '\\',
    ensures
        scan_line(st, l).hunks == st.hunks,
        scan_line(st, l).old_no == st.old_no,
        scan_line(st, l).new_no == st.new_no,
        scan_line(st, l).binary == st.binary,
{
    lemma_not_binary(l);
    lemma_first(l);
}

/// A diff says that the files are binary exactly where one of the lines outside of hunks says so.
pub proof fn law_binary_is_said(ls: Seq<Seq<char>>)
    requires
        forall|i: int| 0 <= i < ls.len() ==> !begins(#[trigger] ls[i], "@@"@),
    ensures
        scan_lines(scan_start(), ls).hunks.len() == 0,
        scan_lines(scan_start(), ls).binary == exists|i: int|
            0 <= i < ls.len() && (begins(#[trigger] ls[i], "Binary files "@) || begins(
                ls[i],
                "GIT binary patch"@,
            )),
{
    lemma_binary(scan_start(), ls);
}

proof fn lemma_binary(st: Scan, ls: Seq<Seq<char>>)
    requires
        st.hunks.len() == 0,
        st.count == 0,
        forall|i: int| 0 <= i < ls.len() ==> !begins(#[trigger] ls[i], "@@"@),
    ensures
        scan_lines(st, ls).hunks.len() == 0,
        scan_lines(st, ls).binary == (st.binary || exists|i: int|
            0 <= i < ls.len() && (begins(#[trigger] ls[i], "Binary files "@) || begins(
                ls[i],
                "GIT binary patch"@,
            ))),
    decreases ls.len(),
{
    if ls.len() > 0 {
        let t = ls.skip(1);
        assert forall|i: int| 0 <= i < t.len() implies !begins(#[trigger] t[i], "@@"@) by {
            assert(t[i] == ls[i + 1]);
        }
        assert(!begins(ls[0], "@@"@));
        lemma_binary(scan_line(st, ls[0]), t);
        if exists|i: int|
            0 <= i < t.len() && (begins(#[trigger] t[i], "Binary files "@) || begins(
                t[i],
                "GIT binary patch"@,
            )) {
            let i = choose|i: int|
                0 <= i < t.len() && (begins(#[trigger] t[i], "Binary files "@) || begins(
                    t[i],
                    "GIT binary patch"@,
                ));
            assert(ls[i + 1] == t[i]);
        }
        if exists|i: int|
            0 <= i < ls.len() && (begins(#[trigger] ls[i], "Binary files "@) || begins(
                ls[i],
                "GIT binary patch"@,
            )) {
            let i = choose|i: int|
                0 <= i < ls.len() && (begins(#[trigger] ls[i], "Binary files "@) || begins(
                    ls[i],
                    "GIT binary patch"@,
                ));
            if i > 0 {
                assert(t[i - 1] == ls[i]);
            }
        }
    }
}

/// Cleaning goes character by character: a tab becomes four blanks, another control character
/// one, and any other character stays.
pub proof fn law_sanitize_each(a: Seq<char>, c: char, b: Seq<char>)
    ensures
        sanitized(a + b) == sanitized(a) + sanitized(b),
        c == '\t' ==> sanitized(seq![c]) == seq![' ', ' ', ' ', ' '],
        c != '\t' && ((c as u32) < 0x20 || c as u32 == 0x7f) ==> sanitized(seq![c]) == seq![' '],
        (c as u32) >= 0x20 && c as u32 != 0x7f ==> sanitized(seq![c]) == seq![c],
    decreases b.len(),
{
    reveal_with_fuel(sanitized, 2);
    assert(seq![c].drop_last() =~= Seq::<char>::empty());
    assert(Seq::<char>::empty() + clean(c) =~= clean(c));
    if b.len() == 0 {
        assert(a + b =~= a);
        assert(sanitized(a) + sanitized(b) =~= sanitized(a));
    } else {
        law_sanitize_each(a, c, b.drop_last());
        assert((a + b).drop_last() =~= a + b.drop_last());
        assert((sanitized(a) + sanitized(b.drop_last())) + clean(b.last()) =~= sanitized(a) + (
        sanitized(b.drop_last()) + clean(b.last())));
    }
}

/// Emphasis is only in a removed line and the added line that it is compared with: a line of the
/// context has none, nor has an added line in a run with no removed line right before it. Nothing
/// else of a line changes.
pub proof fn law_marks_elsewhere(ls: Seq<PLineV>, a: int, e: int, i: int)
    requires
        0 <= a <= i < e <= ls.len(),
        forall|j: int| a <= j < e ==> (#[trigger] ls[j]).kind == Kind::Add,
        a > 0 ==> ls[a - 1].kind == Kind::Ctx,
    ensures
        with_marks(ls)[i].emph.len() == 0,
        forall|j: int|
            0 <= j < ls.len() && (#[trigger] ls[j]).kind == Kind::Ctx ==> with_marks(
                ls,
            )[j].emph.len() == 0,
        forall|j: int|
            0 <= j < ls.len() ==> (#[trigger] with_marks(ls)[j]) == (PLineV {
                emph: with_marks(ls)[j].emph,
                ..ls[j]
            }),
{
    lemma_added_run(ls, a, i);
    assert(run_start(ls, a, Kind::Del) == a);
}

proof fn lemma_added_run(ls: Seq<PLineV>, a: int, i: int)
    requires
        0 <= a <= i < ls.len(),
        forall|j: int| a <= j <= i ==> (#[trigger] ls[j]).kind == Kind::Add,
        a > 0 ==> ls[a - 1].kind == Kind::Ctx,
    ensures
        run_start(ls, i, Kind::Add) == a,
    decreases i - a,
{
    if a < i {
        lemma_added_run(ls, a, i - 1);
        assert(ls[i - 1].kind == Kind::Add);
    }
}

} // verus!
