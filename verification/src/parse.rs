//! Unified diff text, read into hunks of numbered lines.

use crate::text::{
    begins, chars_of, lines, lines_of, parse_unsigned, split, split_on, starts_with, string_of,
    strip_prefix, strs, unsigned_value, words, words_of,
};
use crate::tokens::{myers_script, new_marks, old_marks, tokens_of, word_emphasis};
use vstd::prelude::*;
use vstd::string::*;

verus! {

/// The number of diff lines that are read without a note; with one line more reading stops.
pub const MAX_LINES: usize = 4000;

/// What a diff line stands for.
#[derive(Clone, Copy, Debug, PartialEq, Eq, Structural)]
pub enum Kind {
    /// In both versions
    Ctx,
    /// In the new version only
    Add,
    /// In the old version only
    Del,
}

/// A line of a hunk.
#[derive(Debug)]
pub struct PLine {
    pub kind: Kind,
    pub old_no: Option<u32>,
    pub new_no: Option<u32>,
    pub text: String,
    /// Byte ranges for word emphasis
    pub emph: Vec<(usize, usize)>,
}

/// A hunk: its header and its lines.
#[derive(Debug)]
pub struct PHunk {
    pub header: String,
    pub lines: Vec<PLine>,
}

/// A line of a hunk, as a mathematical value.
#[verifier::ext_equal]
pub struct PLineV {
    pub kind: Kind,
    pub old_no: Option<u32>,
    pub new_no: Option<u32>,
    pub text: Seq<char>,
    pub emph: Seq<(usize, usize)>,
}

/// A hunk, as a mathematical value.
#[verifier::ext_equal]
pub struct PHunkV {
    pub header: Seq<char>,
    pub lines: Seq<PLineV>,
}

impl View for PLine {
    type V = PLineV;

    open spec fn view(&self) -> PLineV {
        PLineV {
            kind: self.kind,
            old_no: self.old_no,
            new_no: self.new_no,
            text: self.text@,
            emph: self.emph@,
        }
    }
}

/// The values of a sequence of lines.
pub open spec fn plines(v: Seq<PLine>) -> Seq<PLineV> {
    v.map_values(|l: PLine| l@)
}

impl View for PHunk {
    type V = PHunkV;

    open spec fn view(&self) -> PHunkV {
        PHunkV { header: self.header@, lines: plines(self.lines@) }
    }
}

/// The values of a sequence of hunks.
pub open spec fn phunks(v: Seq<PHunk>) -> Seq<PHunkV> {
    v.map_values(|h: PHunk| h@)
}

// ---- Control characters --------------------------------------------------------

/// Whether writing `c` to a terminal would move its cursor.
pub open spec fn is_control(c: char) -> bool {
    (c as u32) < 0x20 || c as u32 == 0x7f
}

/// What is shown for `c`: four spaces for a tab, one for another control character.
pub open spec fn clean(c: char) -> Seq<char> {
    if c == '\t' {
        seq![' ', ' ', ' ', ' ']
    } else if is_control(c) {
        seq![' ']
    } else {
        seq![c]
    }
}

/// What is shown for `s`.
pub open spec fn sanitized(s: Seq<char>) -> Seq<char>
    decreases s.len(),
{
    if s.len() == 0 {
        seq![]
    } else {
        sanitized(s.drop_last()) + clean(s.last())
    }
}

/// Replace control characters by spaces.
pub fn sanitize(s: &str) -> (r: String)
    ensures
        r@ == sanitized(s@),
{
    let v = chars_of(s);
    let mut out = String::new();
    let mut i: usize = 0;
    while i < v.len()
        invariant
            v@ == s@,
            i <= v@.len(),
            out@ == sanitized(s@.take(i as int)),
        decreases v@.len() - i,
    {
        let c = v[i];
        assert(s@.take(i + 1).drop_last() =~= s@.take(i as int));
        if c == '\t' {
            out.push(' ');
            out.push(' ');
            out.push(' ');
            out.push(' ');
        } else if (c as u32) < 0x20 || c as u32 == 0x7f {
            out.push(' ');
        } else {
            out.push(c);
        }
        assert(out@ =~= sanitized(s@.take(i as int)) + clean(c));
        i += 1;
    }
    assert(s@.take(s@.len() as int) =~= s@);
    out
}

/// What is shown holds no control character.
pub proof fn law_sanitized_is_clean(s: Seq<char>)
    ensures
        forall|i: int| 0 <= i < sanitized(s).len() ==> !is_control(#[trigger] sanitized(s)[i]),
    decreases s.len(),
{
    if s.len() > 0 {
        law_sanitized_is_clean(s.drop_last());
        let t = sanitized(s.drop_last());
        let c = clean(s.last());
        assert forall|i: int| 0 <= i < sanitized(s).len() implies !is_control(
            #[trigger] sanitized(s)[i],
        ) by {
            if i < t.len() {
                assert(sanitized(s)[i] == t[i]);
            } else {
                assert(sanitized(s)[i] == c[i - t.len()]);
            }
        }
    }
}

/// A text without control characters is shown as it is.
pub proof fn law_sanitized_keeps_clean(s: Seq<char>)
    requires
        forall|i: int| 0 <= i < s.len() ==> !is_control(#[trigger] s[i]),
    ensures
        sanitized(s) == s,
    decreases s.len(),
{
    if s.len() > 0 {
        assert forall|i: int| 0 <= i < s.drop_last().len() implies !is_control(
            #[trigger] s.drop_last()[i],
        ) by {
            assert(s.drop_last()[i] == s[i]);
        }
        law_sanitized_keeps_clean(s.drop_last());
        assert(!is_control(s[s.len() - 1]));
        assert(s.last() != '\t');
        assert(s.drop_last() + seq![s.last()] =~= s);
    } else {
        assert(s =~= Seq::<char>::empty());
    }
}

// ---- Hunk headers --------------------------------------------------------------

/// `s` without plus and minus signs at its start.
pub open spec fn without_signs(s: Seq<char>) -> Seq<char>
    decreases s.len(),
{
    if s.len() > 0 && (s[0] == '-' || s[0] == '+') {
        without_signs(s.skip(1))
    } else {
        s
    }
}

/// The line number in a part of a hunk header such as `-12,7`; 1 where there is none.
pub open spec fn hunk_number(part: Seq<char>) -> u32 {
    match unsigned_value(split_on(without_signs(part), ',')[0], u32::MAX as nat) {
        Some(n) => n as u32,
        None => 1,
    }
}

/// The line number in a part of a hunk header.
pub fn parse_no(part: &str) -> (r: u32)
    ensures
        r == hunk_number(part@),
{
    let v = chars_of(part);
    let mut i: usize = 0;
    assert(v@.skip(0) =~= v@);
    while i < v.len() && (v[i] == '-' || v[i] == '+')
        invariant
            i <= v@.len(),
            without_signs(v@.skip(i as int)) == without_signs(part@),
        decreases v@.len() - i,
    {
        assert(v@.skip(i as int)[0] == v@[i as int]);
        assert(v@.skip(i as int).skip(1) =~= v@.skip(i + 1));
        i += 1;
    }
    assert(i < v@.len() ==> v@.skip(i as int)[0] == v@[i as int]);
    let rest = string_of(&v, i, v.len());
    assert(rest@ =~= v@.skip(i as int));
    let parts = split(rest.as_str(), ',');
    assert(strs(parts@)[0] == parts@[0]@);
    match parse_unsigned(parts[0].as_str(), u32::MAX as u64) {
        Some(n) => n as u32,
        None => 1,
    }
}

/// The line number in word `k` of a hunk header; 1 where there is no such word.
pub open spec fn header_number(header: Seq<char>, k: int) -> u32 {
    if k < words_of(header).len() {
        hunk_number(words_of(header)[k])
    } else {
        1
    }
}

// ---- Reading lines -------------------------------------------------------------

/// How far the reading of a diff has come.
#[verifier::ext_equal]
pub struct Scan {
    pub hunks: Seq<PHunkV>,
    pub binary: bool,
    pub old_no: u32,
    pub new_no: u32,
    pub count: nat,
}

/// Nothing read yet.
pub open spec fn scan_start() -> Scan {
    Scan { hunks: seq![], binary: false, old_no: 0, new_no: 0, count: 0 }
}

/// Whether a line says that the files are binary.
pub open spec fn says_binary(line: Seq<char>) -> bool {
    begins(line, "Binary files "@) || begins(line, "GIT binary patch"@)
}

/// The number after `n`; after the largest comes 0.
pub open spec fn next_no(n: u32) -> u32 {
    if n == u32::MAX {
        0
    } else {
        (n + 1) as u32
    }
}

/// The hunks with `line` at the end of the last one.
pub open spec fn with_line(hunks: Seq<PHunkV>, line: PLineV) -> Seq<PHunkV> {
    hunks.drop_last().push(
        PHunkV { header: hunks.last().header, lines: hunks.last().lines.push(line) },
    )
}

/// The step from one line to the next.
pub open spec fn scan_line(st: Scan, line: Seq<char>) -> Scan {
    if says_binary(line) {
        Scan { binary: true, ..st }
    } else if begins(line, "@@"@) {
        Scan {
            hunks: st.hunks.push(PHunkV { header: sanitized(line), lines: seq![] }),
            old_no: header_number(line, 1),
            new_no: header_number(line, 2),
            ..st
        }
    } else if st.hunks.len() == 0 {
        st
    } else if begins(line, "+"@) {
        let l = PLineV {
            kind: Kind::Add,
            old_no: None,
            new_no: Some(st.new_no),
            text: sanitized(line.skip(1)),
            emph: seq![],
        };
        Scan {
            hunks: with_line(st.hunks, l),
            new_no: next_no(st.new_no),
            count: st.count + 1,
            ..st
        }
    } else if begins(line, "-"@) {
        let l = PLineV {
            kind: Kind::Del,
            old_no: Some(st.old_no),
            new_no: None,
            text: sanitized(line.skip(1)),
            emph: seq![],
        };
        Scan {
            hunks: with_line(st.hunks, l),
            old_no: next_no(st.old_no),
            count: st.count + 1,
            ..st
        }
    } else if begins(line, " "@) {
        let l = PLineV {
            kind: Kind::Ctx,
            old_no: Some(st.old_no),
            new_no: Some(st.new_no),
            text: sanitized(line.skip(1)),
            emph: seq![],
        };
        Scan {
            hunks: with_line(st.hunks, l),
            old_no: next_no(st.old_no),
            new_no: next_no(st.new_no),
            count: st.count + 1,
            ..st
        }
    } else {
        Scan { count: st.count + 1, ..st }
    }
}

/// Reading goes on until more than `MAX_LINES` lines of hunks have been read.
pub open spec fn scan_lines(st: Scan, rest: Seq<Seq<char>>) -> Scan
    decreases rest.len(),
{
    if rest.len() == 0 || st.count > MAX_LINES {
        st
    } else {
        scan_lines(scan_line(st, rest[0]), rest.skip(1))
    }
}

fn push_line(hunks: &mut Vec<PHunk>, line: PLine)
    requires
        old(hunks)@.len() > 0,
    ensures
        phunks(final(hunks)@) == with_line(phunks(old(hunks)@), line@),
{
    let ghost h0 = hunks@;
    let mut last = hunks.pop().unwrap();
    last.lines.push(line);
    assert(plines(last.lines@) =~= plines(h0.last().lines@).push(line@));
    hunks.push(last);
    assert(phunks(hunks@) =~= with_line(phunks(h0), line@));
}

fn word_or_one(ws: &Vec<String>, k: usize) -> (r: u32)
    ensures
        r == (if k < ws@.len() {
            hunk_number(strs(ws@)[k as int])
        } else {
            1
        }),
{
    if k < ws.len() {
        parse_no(ws[k].as_str())
    } else {
        1
    }
}

/// Read the hunks of a diff, without word emphasis; also whether it says that the files are
/// binary.
pub fn scan(diff: &str) -> (r: (Vec<PHunk>, bool))
    ensures
        phunks(r.0@) == scan_lines(scan_start(), lines_of(diff@)).hunks,
        r.1 == scan_lines(scan_start(), lines_of(diff@)).binary,
{
    let ls = lines(diff);
    let mut hunks: Vec<PHunk> = Vec::new();
    let mut binary = false;
    let mut old_no: u32 = 0;
    let mut new_no: u32 = 0;
    let mut count: usize = 0;
    let mut i: usize = 0;
    let ghost all = lines_of(diff@);
    let ghost mut st = scan_start();
    assert(all.skip(0) =~= all);
    assert(phunks(hunks@) =~= st.hunks);
    while i < ls.len() && count <= MAX_LINES
        invariant
            strs(ls@) == all,
            i <= ls@.len(),
            count <= MAX_LINES + 1,
            st == (Scan {
                hunks: phunks(hunks@),
                binary,
                old_no,
                new_no,
                count: count as nat,
            }),
            scan_lines(st, all.skip(i as int)) == scan_lines(scan_start(), all),
        decreases ls@.len() - i,
    {
        let line = ls[i].as_str();
        let ghost st0 = st;
        proof {
            assert(all.skip(i as int)[0] == line@);
            assert(all.skip(i as int).skip(1) =~= all.skip(i + 1));
            st = scan_line(st0, line@);
            reveal_strlit("+");
            reveal_strlit("-");
            reveal_strlit(" ");
        }
        if starts_with(line, "Binary files ") || starts_with(line, "GIT binary patch") {
            binary = true;
        } else if starts_with(line, "@@") {
            let ws = words(line);
            old_no = word_or_one(&ws, 1);
            new_no = word_or_one(&ws, 2);
            let ghost h0 = hunks@;
            let hunk = PHunk { header: sanitize(line), lines: Vec::new() };
            hunks.push(hunk);
            assert(plines(hunk.lines@) =~= Seq::<PLineV>::empty());
            assert(phunks(hunks@) =~= phunks(h0).push(hunk@));
        } else if hunks.len() > 0 {
            count += 1;
            if let Some(t) = strip_prefix(line, "+") {
                push_line(
                    &mut hunks,
                    PLine {
                        kind: Kind::Add,
                        old_no: None,
                        new_no: Some(new_no),
                        text: sanitize(t.as_str()),
                        emph: Vec::new(),
                    },
                );
                new_no = new_no.wrapping_add(1);
            } else if let Some(t) = strip_prefix(line, "-") {
                push_line(
                    &mut hunks,
                    PLine {
                        kind: Kind::Del,
                        old_no: Some(old_no),
                        new_no: None,
                        text: sanitize(t.as_str()),
                        emph: Vec::new(),
                    },
                );
                old_no = old_no.wrapping_add(1);
            } else if let Some(t) = strip_prefix(line, " ") {
                push_line(
                    &mut hunks,
                    PLine {
                        kind: Kind::Ctx,
                        old_no: Some(old_no),
                        new_no: Some(new_no),
                        text: sanitize(t.as_str()),
                        emph: Vec::new(),
                    },
                );
                old_no = old_no.wrapping_add(1);
                new_no = new_no.wrapping_add(1);
            }
        }
        i += 1;
    }
    (hunks, binary)
}

// ---- Word emphasis ---------------------------------------------------------------

/// The index behind the run of lines of kind `k` that starts at `i`.
pub open spec fn run_end(ls: Seq<PLineV>, i: int, k: Kind) -> int
    decreases ls.len() - i,
{
    if 0 <= i < ls.len() && ls[i].kind == k {
        run_end(ls, i + 1, k)
    } else {
        i
    }
}

/// The index at which the run of lines of kind `k` that ends before `i` starts.
pub open spec fn run_start(ls: Seq<PLineV>, i: int, k: Kind) -> int
    decreases i,
{
    if 0 < i <= ls.len() && ls[i - 1].kind == k {
        run_start(ls, i - 1, k)
    } else {
        i
    }
}

/// The line that line `i` is compared with word by word. In a run of removed lines that a run
/// of added lines follows, the lines are paired in order: the first with the first, and so on.
pub open spec fn partner(ls: Seq<PLineV>, i: int) -> Option<int> {
    match ls[i].kind {
        Kind::Ctx => None,
        Kind::Del => {
            let start = run_start(ls, i, Kind::Del);
            let adds = run_end(ls, i, Kind::Del);
            if adds + (i - start) < run_end(ls, adds, Kind::Add) {
                Some(adds + (i - start))
            } else {
                None
            }
        },
        Kind::Add => {
            let adds = run_start(ls, i, Kind::Add);
            let start = run_start(ls, adds, Kind::Del);
            if start + (i - adds) < adds {
                Some(start + (i - adds))
            } else {
                None
            }
        },
    }
}

/// The emphasised ranges of line `i`: what its partner lacks.
pub open spec fn line_marks(ls: Seq<PLineV>, i: int) -> Seq<(usize, usize)> {
    match partner(ls, i) {
        None => seq![],
        Some(j) => if ls[i].kind == Kind::Del {
            let a = tokens_of(ls[i].text);
            old_marks(myers_script(a, tokens_of(ls[j].text)), a)
        } else {
            let b = tokens_of(ls[i].text);
            new_marks(myers_script(tokens_of(ls[j].text), b), b)
        },
    }
}

/// The lines of a hunk with their emphasis.
pub open spec fn with_marks(ls: Seq<PLineV>) -> Seq<PLineV> {
    Seq::new(ls.len(), |i: int| PLineV { emph: line_marks(ls, i), ..ls[i] })
}

/// The hunks with the emphasis of their lines.
pub open spec fn all_with_marks(hunks: Seq<PHunkV>) -> Seq<PHunkV> {
    hunks.map_values(|h: PHunkV| PHunkV { header: h.header, lines: with_marks(h.lines) })
}

proof fn lemma_run_end(ls: Seq<PLineV>, i: int, e: int, k: Kind)
    requires
        0 <= i <= e <= ls.len(),
        forall|j: int| i <= j < e ==> (#[trigger] ls[j]).kind == k,
        e < ls.len() ==> ls[e].kind != k,
    ensures
        run_end(ls, i, k) == e,
    decreases e - i,
{
    if i < e {
        lemma_run_end(ls, i + 1, e, k);
    }
}

proof fn lemma_run_start(ls: Seq<PLineV>, i: int, b: int, k: Kind)
    requires
        0 <= b <= i <= ls.len(),
        forall|j: int| b <= j < i ==> (#[trigger] ls[j]).kind == k,
        b > 0 ==> ls[b - 1].kind != k,
    ensures
        run_start(ls, i, k) == b,
    decreases i - b,
{
    if b < i {
        lemma_run_start(ls, i - 1, b, k);
    }
}

proof fn lemma_run_start_facts(ls: Seq<PLineV>, i: int, k: Kind)
    requires
        0 <= i <= ls.len(),
    ensures
        0 <= run_start(ls, i, k) <= i,
        forall|j: int| run_start(ls, i, k) <= j < i ==> (#[trigger] ls[j]).kind == k,
        run_start(ls, i, k) > 0 ==> ls[run_start(ls, i, k) - 1].kind != k,
    decreases i,
{
    if 0 < i && ls[i - 1].kind == k {
        lemma_run_start_facts(ls, i - 1, k);
    }
}

proof fn lemma_run_end_facts(ls: Seq<PLineV>, i: int, k: Kind)
    requires
        0 <= i <= ls.len(),
    ensures
        i <= run_end(ls, i, k) <= ls.len(),
        forall|j: int| i <= j < run_end(ls, i, k) ==> (#[trigger] ls[j]).kind == k,
        run_end(ls, i, k) < ls.len() ==> ls[run_end(ls, i, k)].kind != k,
    decreases ls.len() - i,
{
    if i < ls.len() && ls[i].kind == k {
        lemma_run_end_facts(ls, i + 1, k);
    }
}

/// In a block of removed lines `d..a` and added lines `a..e`, line `d + k` and line `a + k` are
/// partners; the rest have none.
proof fn lemma_block_partners(ls: Seq<PLineV>, d: int, a: int, e: int)
    requires
        0 <= d <= a <= e <= ls.len(),
        forall|j: int| d <= j < a ==> (#[trigger] ls[j]).kind == Kind::Del,
        forall|j: int| a <= j < e ==> (#[trigger] ls[j]).kind == Kind::Add,
        d > 0 ==> ls[d - 1].kind != Kind::Del,
        d < a,
        e < ls.len() ==> ls[e].kind != Kind::Add,
        a == e && a < ls.len() ==> ls[a].kind != Kind::Del,
    ensures
        forall|i: int|
            d <= i < a ==> #[trigger] partner(ls, i) == (if a + (i - d) < e {
                Some(a + (i - d))
            } else {
                None
            }),
        forall|i: int|
            a <= i < e ==> #[trigger] partner(ls, i) == (if d + (i - a) < a {
                Some(d + (i - a))
            } else {
                None
            }),
{
    assert forall|i: int| d <= i < a implies #[trigger] partner(ls, i) == (if a + (i - d) < e {
        Some(a + (i - d))
    } else {
        None
    }) by {
        lemma_run_start(ls, i, d, Kind::Del);
        lemma_run_end(ls, i, a, Kind::Del);
        lemma_run_end(ls, a, e, Kind::Add);
    }
    assert forall|i: int| a <= i < e implies #[trigger] partner(ls, i) == (if d + (i - a) < a {
        Some(d + (i - a))
    } else {
        None
    }) by {
        assert(ls[a - 1].kind == Kind::Del);
        lemma_run_start(ls, i, a, Kind::Add);
        lemma_run_start(ls, a, d, Kind::Del);
    }
}

/// Removed lines are compared in order with the added lines right behind them: of `d..a` removed
/// and `a..e` added, line `d + k` with line `a + k`. Lines without a counterpart are compared
/// with nothing.
pub proof fn law_compared_in_order(ls: Seq<PLineV>, d: int, a: int, e: int, k: int)
    requires
        0 <= d < a <= e <= ls.len(),
        forall|j: int| d <= j < a ==> (#[trigger] ls[j]).kind == Kind::Del,
        forall|j: int| a <= j < e ==> (#[trigger] ls[j]).kind == Kind::Add,
        d > 0 ==> ls[d - 1].kind != Kind::Del,
        e < ls.len() ==> ls[e].kind != Kind::Add,
        a == e && a < ls.len() ==> ls[a].kind != Kind::Del,
        0 <= k,
    ensures
        d + k < a && a + k < e ==> partner(ls, d + k) == Some(a + k) && partner(ls, a + k) == Some(
            d + k,
        ),
        d + k < a && a + k >= e ==> partner(ls, d + k) is None,
        d + k >= a && a + k < e ==> partner(ls, a + k) is None,
{
    lemma_block_partners(ls, d, a, e);
}

/// Comparing goes both ways: the partner of a line's partner is the line itself, of the other
/// kind.
pub proof fn law_partners(ls: Seq<PLineV>, i: int, j: int)
    requires
        0 <= i < ls.len(),
        partner(ls, i) == Some(j),
    ensures
        0 <= j < ls.len(),
        partner(ls, j) == Some(i),
        ls[i].kind == Kind::Del ==> ls[j].kind == Kind::Add && i < j,
        ls[i].kind == Kind::Add ==> ls[j].kind == Kind::Del && j < i,
{
    let (d, a) = match ls[i].kind {
        Kind::Del => (run_start(ls, i, Kind::Del), run_end(ls, i, Kind::Del)),
        _ => {
            let a = run_start(ls, i, Kind::Add);
            (run_start(ls, a, Kind::Del), a)
        },
    };
    if ls[i].kind == Kind::Del {
        lemma_run_start_facts(ls, i, Kind::Del);
        lemma_run_end_facts(ls, i, Kind::Del);
    } else {
        lemma_run_start_facts(ls, i, Kind::Add);
        lemma_run_start_facts(ls, a, Kind::Del);
    }
    let e = run_end(ls, a, Kind::Add);
    lemma_run_end_facts(ls, a, Kind::Add);
    assert(forall|k: int| d <= k < a ==> (#[trigger] ls[k]).kind == Kind::Del);
    if ls[i].kind == Kind::Add && e <= i {
        assert(ls[e].kind == Kind::Add);
    }
    lemma_block_partners(ls, d, a, e);
}

fn add_marks(ls: &Vec<PLine>) -> (r: Vec<Vec<(usize, usize)>>)
    ensures
        r@.len() == ls@.len(),
        forall|i: int| 0 <= i < ls@.len() ==> (#[trigger] r@[i])@ == line_marks(plines(ls@), i),
{
    let ghost lv = plines(ls@);
    let mut marks: Vec<Vec<(usize, usize)>> = Vec::new();
    let mut n: usize = 0;
    while n < ls.len()
        invariant
            n <= ls@.len(),
            marks@.len() == n,
            forall|k: int| 0 <= k < n ==> (#[trigger] marks@[k])@ == Seq::<(usize, usize)>::empty(),
        decreases ls@.len() - n,
    {
        marks.push(Vec::new());
        n += 1;
    }
    let mut i: usize = 0;
    while i < ls.len()
        invariant
            lv == plines(ls@),
            i <= ls@.len(),
            marks@.len() == ls@.len(),
            forall|k: int| 0 <= k < i ==> (#[trigger] marks@[k])@ == line_marks(lv, k),
            forall|k: int|
                i <= k < ls@.len() ==> (#[trigger] marks@[k])@ == Seq::<(usize, usize)>::empty(),
            i < ls@.len() && lv[i as int].kind == Kind::Del ==> i == 0 || lv[i - 1].kind
                != Kind::Del,
            i < ls@.len() && lv[i as int].kind == Kind::Add ==> {
                let a = run_start(lv, i as int, Kind::Add);
                a == 0 || lv[a - 1].kind != Kind::Del
            },
        decreases ls@.len() - i,
    {
        assert(lv[i as int] == ls@[i as int]@);
        if ls[i].kind == Kind::Del {
            let del_start = i;
            let mut add_start: usize = i;
            while add_start < ls.len() && ls[add_start].kind == Kind::Del
                invariant
                    lv == plines(ls@),
                    del_start <= add_start <= ls@.len(),
                    forall|j: int| del_start <= j < add_start ==> (#[trigger] lv[j]).kind == Kind::Del,
                decreases ls@.len() - add_start,
            {
                assert(lv[add_start as int] == ls@[add_start as int]@);
                add_start += 1;
            }
            assert(add_start < ls@.len() ==> lv[add_start as int] == ls@[add_start as int]@);
            let mut end: usize = add_start;
            while end < ls.len() && ls[end].kind == Kind::Add
                invariant
                    lv == plines(ls@),
                    add_start <= end <= ls@.len(),
                    forall|j: int| add_start <= j < end ==> (#[trigger] lv[j]).kind == Kind::Add,
                decreases ls@.len() - end,
            {
                assert(lv[end as int] == ls@[end as int]@);
                end += 1;
            }
            assert(end < ls@.len() ==> lv[end as int] == ls@[end as int]@);
            proof {
                lemma_block_partners(lv, del_start as int, add_start as int, end as int);
            }
            let pairs = if end - add_start < add_start - del_start {
                end - add_start
            } else {
                add_start - del_start
            };
            let mut k: usize = 0;
            while k < pairs
                invariant
                    lv == plines(ls@),
                    k <= pairs,
                    pairs <= end - add_start,
                    pairs <= add_start - del_start,
                    del_start < add_start <= end <= ls@.len(),
                    marks@.len() == ls@.len(),
                    forall|j: int| del_start <= j < add_start ==> (#[trigger] lv[j]).kind == Kind::Del,
                    forall|j: int| add_start <= j < end ==> (#[trigger] lv[j]).kind == Kind::Add,
                    forall|j: int|
                        del_start <= j < add_start ==> #[trigger] partner(lv, j) == (if add_start
                            + (j - del_start) < end {
                            Some(add_start + (j - del_start))
                        } else {
                            None
                        }),
                    forall|j: int|
                        add_start <= j < end ==> #[trigger] partner(lv, j) == (if del_start + (j
                            - add_start) < add_start {
                            Some(del_start + (j - add_start))
                        } else {
                            None
                        }),
                    forall|j: int| 0 <= j < del_start ==> (#[trigger] marks@[j])@ == line_marks(lv, j),
                    forall|j: int|
                        del_start <= j < del_start + k ==> (#[trigger] marks@[j])@ == line_marks(lv, j),
                    forall|j: int|
                        add_start <= j < add_start + k ==> (#[trigger] marks@[j])@ == line_marks(lv, j),
                    forall|j: int|
                        del_start + k <= j < add_start ==> (#[trigger] marks@[j])@ == Seq::<
                            (usize, usize),
                        >::empty(),
                    forall|j: int|
                        add_start + k <= j < ls@.len() ==> (#[trigger] marks@[j])@ == Seq::<
                            (usize, usize),
                        >::empty(),
                decreases pairs - k,
            {
                let x = del_start + k;
                let y = add_start + k;
                assert(lv[x as int] == ls@[x as int]@);
                assert(lv[y as int] == ls@[y as int]@);
                assert(partner(lv, x as int) == Some(y as int));
                assert(partner(lv, y as int) == Some(x as int));
                let (old, new) = word_emphasis(ls[x].text.as_str(), ls[y].text.as_str());
                marks.set(x, old);
                marks.set(y, new);
                k += 1;
            }
            proof {
                assert forall|j: int| 0 <= j < end implies (#[trigger] marks@[j])@ == line_marks(
                    lv,
                    j,
                ) by {
                    if del_start + pairs <= j < add_start {
                        assert(partner(lv, j) is None);
                    }
                    if add_start + pairs <= j {
                        assert(partner(lv, j) is None);
                    }
                }
                if end < ls@.len() {
                    if end == add_start {
                        assert(lv[end as int].kind != Kind::Del);
                    } else {
                        assert(lv[end - 1].kind == Kind::Add);
                    }
                }
            }
            i = end;
        } else {
            proof {
                lemma_run_start_facts(lv, i as int, Kind::Add);
                assert(partner(lv, i as int) is None);
            }
            i += 1;
        }
    }
    marks
}

/// Read a unified diff into hunks, with the words emphasised in which paired lines differ; also
/// whether it says that the files are binary.
pub fn parse(diff: &str) -> (r: (Vec<PHunk>, bool))
    ensures
        phunks(r.0@) == all_with_marks(scan_lines(scan_start(), lines_of(diff@)).hunks),
        r.1 == scan_lines(scan_start(), lines_of(diff@)).binary,
{
    let (scanned, binary) = scan(diff);
    let ghost all = phunks(scanned@);
    let mut out: Vec<PHunk> = Vec::new();
    let mut i: usize = 0;
    while i < scanned.len()
        invariant
            all == phunks(scanned@),
            i <= scanned@.len(),
            phunks(out@) =~= all_with_marks(all).take(i as int),
        decreases scanned@.len() - i,
    {
        let ghost out0 = out@;
        let marked = mark_hunk(&scanned[i]);
        out.push(marked);
        assert(all[i as int] == scanned@[i as int]@);
        assert(phunks(out@) =~= phunks(out0).push(marked@));
        assert(all_with_marks(all).take(i + 1) =~= all_with_marks(all).take(i as int).push(
            marked@,
        ));
        i += 1;
    }
    assert(all_with_marks(all).take(all.len() as int) =~= all_with_marks(all));
    (out, binary)
}

fn copy_ranges(v: &Vec<(usize, usize)>) -> (r: Vec<(usize, usize)>)
    ensures
        r@ == v@,
{
    let mut r: Vec<(usize, usize)> = Vec::new();
    let mut i: usize = 0;
    while i < v.len()
        invariant
            i <= v@.len(),
            r@ =~= v@.take(i as int),
        decreases v@.len() - i,
    {
        r.push(v[i]);
        i += 1;
    }
    assert(v@.take(v@.len() as int) =~= v@);
    r
}

fn mark_hunk(h: &PHunk) -> (r: PHunk)
    ensures
        r@ == (PHunkV { header: h@.header, lines: with_marks(h@.lines) }),
{
    let marks = add_marks(&h.lines);
    let mut out: Vec<PLine> = Vec::new();
    let mut i: usize = 0;
    let ghost lv = plines(h.lines@);
    while i < h.lines.len()
        invariant
            lv == plines(h.lines@),
            i <= h.lines@.len(),
            marks@.len() == h.lines@.len(),
            forall|k: int| 0 <= k < marks@.len() ==> (#[trigger] marks@[k])@ == line_marks(lv, k),
            plines(out@) =~= with_marks(lv).take(i as int),
        decreases h.lines@.len() - i,
    {
        let l = &h.lines[i];
        let line = PLine {
            kind: l.kind,
            old_no: l.old_no,
            new_no: l.new_no,
            text: l.text.clone(),
            emph: copy_ranges(&marks[i]),
        };
        assert(lv[i as int] == l@);
        assert(line@ =~= with_marks(lv)[i as int]);
        let ghost out0 = out@;
        out.push(line);
        assert(plines(out@) =~= plines(out0).push(line@));
        assert(with_marks(lv).take(i + 1) =~= with_marks(lv).take(i as int).push(
            with_marks(lv)[i as int],
        ));
        i += 1;
    }
    assert(with_marks(lv).take(lv.len() as int) =~= with_marks(lv));
    PHunk { header: h.header.clone(), lines: out }
}

} // verus!
