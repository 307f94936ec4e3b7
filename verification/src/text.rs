//! Strings as sequences of characters: splitting, trimming, searching, numbers and order.

use vstd::prelude::*;
use vstd::string::*;

verus! {

/// `String::push` appends one character.
pub assume_specification[ String::push ](s: &mut String, c: char)
    ensures
        final(s)@ == old(s)@.push(c),
;

/// The character sequences of a sequence of strings.
pub open spec fn strs(v: Seq<String>) -> Seq<Seq<char>> {
    v.map_values(|s: String| s@)
}

/// The character sequence of an optional string.
pub open spec fn opt_str(o: Option<String>) -> Option<Seq<char>> {
    match o {
        Some(s) => Some(s@),
        None => None,
    }
}

// ---- Characters in and out -------------------------------------------------

/// The characters of `s`, in order.
pub fn chars_of(s: &str) -> (r: Vec<char>)
    ensures
        r@ == s@,
        s@.len() <= usize::MAX,
{
    let mut v: Vec<char> = Vec::new();
    for c in it: s.chars()
        invariant
            it.seq() == s@,
            v@ == s@.take(it.index()),
    {
        v.push(c);
        assert(s@.take(it.index() + 1) =~= s@.take(it.index()).push(c));
    }
    assert(s@.take(s@.len() as int) =~= s@);
    assert(v.len() == s@.len());
    v
}

/// The string made of the characters `from..to` of `v`.
pub fn string_of(v: &Vec<char>, from: usize, to: usize) -> (r: String)
    requires
        from <= to <= v@.len(),
    ensures
        r@ == v@.subrange(from as int, to as int),
{
    let mut s = String::new();
    let mut i: usize = from;
    while i < to
        invariant
            from <= i <= to <= v@.len(),
            s@ == v@.subrange(from as int, i as int),
        decreases to - i,
    {
        s.push(v[i]);
        assert(v@.subrange(from as int, i + 1) =~= v@.subrange(from as int, i as int).push(
            v@[i as int],
        ));
        i += 1;
    }
    s
}

/// Whether two strings hold the same characters.
pub fn same(a: &str, b: &str) -> (r: bool)
    ensures
        r == (a@ == b@),
{
    let x = a.to_string();
    let y = b.to_string();
    x == y
}

/// Whether two optional strings are both absent or hold the same characters.
pub fn same_opt(a: &Option<String>, b: &Option<String>) -> (r: bool)
    ensures
        r == (opt_str(*a) == opt_str(*b)),
{
    match (a, b) {
        (Some(x), Some(y)) => same(x.as_str(), y.as_str()),
        (None, None) => true,
        _ => false,
    }
}

/// `a` followed by `b`.
pub fn cat(a: &str, b: &str) -> (r: String)
    ensures
        r@ == a@ + b@,
{
    let mut s = a.to_string();
    s.append(b);
    s
}

/// `n` copies of the space character.
pub open spec fn blanks(n: nat) -> Seq<char> {
    Seq::new(n, |i: int| ' ')
}

/// `n` spaces.
pub fn spaces(n: usize) -> (r: String)
    ensures
        r@ == blanks(n as nat),
{
    let mut s = String::new();
    let mut i: usize = 0;
    while i < n
        invariant
            i <= n,
            s@ == blanks(i as nat),
        decreases n - i,
    {
        s.push(' ');
        assert(blanks((i + 1) as nat) =~= blanks(i as nat).push(' '));
        i += 1;
    }
    s
}

/// `s` with spaces in front, so that it is at least `n` characters long.
pub open spec fn right_aligned(s: Seq<char>, n: nat) -> Seq<char> {
    if s.len() >= n {
        s
    } else {
        blanks((n - s.len()) as nat) + s
    }
}

/// Right-align `s` in `n` characters.
pub fn align_right(s: &str, n: usize) -> (r: String)
    ensures
        r@ == right_aligned(s@, n as nat),
{
    let len = chars_of(s).len();
    if len >= n {
        s.to_string()
    } else {
        let mut r = spaces(n - len);
        r.append(s);
        r
    }
}

/// `s` with spaces behind, so that it is at least `n` characters long.
pub open spec fn left_aligned(s: Seq<char>, n: nat) -> Seq<char> {
    if s.len() >= n {
        s
    } else {
        s + blanks((n - s.len()) as nat)
    }
}

/// Left-align `s` in `n` characters.
pub fn align_left(s: &str, n: usize) -> (r: String)
    ensures
        r@ == left_aligned(s@, n as nat),
{
    let len = chars_of(s).len();
    let mut r = s.to_string();
    if len < n {
        let pad = spaces(n - len);
        r.append(pad.as_str());
    }
    r
}

/// The first `n` characters of `s`, or all of it.
pub open spec fn first_chars(s: Seq<char>, n: nat) -> Seq<char> {
    if s.len() <= n {
        s
    } else {
        s.take(n as int)
    }
}

/// At most `n` leading characters of `s`.
pub fn take_chars(s: &str, n: usize) -> (r: String)
    ensures
        r@ == first_chars(s@, n as nat),
{
    let v = chars_of(s);
    if v.len() <= n {
        s.to_string()
    } else {
        string_of(&v, 0, n)
    }
}

// ---- Searching ---------------------------------------------------------------

/// The White_Space property of Unicode.
pub open spec fn is_white(c: char) -> bool {
    let n = c as u32;
    ||| 0x09 <= n <= 0x0d
    ||| n == 0x20
    ||| n == 0x85
    ||| n == 0xa0
    ||| n == 0x1680
    ||| 0x2000 <= n <= 0x200a
    ||| n == 0x2028
    ||| n == 0x2029
    ||| n == 0x202f
    ||| n == 0x205f
    ||| n == 0x3000
}

/// Whether `c` is white space.
pub fn white(c: char) -> (r: bool)
    ensures
        r == is_white(c),
{
    let n: u32 = c as u32;
    (0x09 <= n && n <= 0x0d) || n == 0x20 || n == 0x85 || n == 0xa0 || n == 0x1680 || (0x2000 <= n
        && n <= 0x200a) || n == 0x2028 || n == 0x2029 || n == 0x202f || n == 0x205f || n == 0x3000
}

/// What a search stops at.
#[derive(Clone, Copy)]
pub enum Stop {
    /// This character
    At(char),
    /// White space
    White,
    /// Anything but white space
    Solid,
}

/// Whether the search stops at `c`.
pub open spec fn stops(p: Stop, c: char) -> bool {
    match p {
        Stop::At(x) => c == x,
        Stop::White => is_white(c),
        Stop::Solid => !is_white(c),
    }
}

/// The index of the first character of `s` that the search stops at; the length if none.
pub open spec fn find(s: Seq<char>, p: Stop) -> int
    decreases s.len(),
{
    if s.len() == 0 {
        0
    } else if stops(p, s[0]) {
        0
    } else {
        1 + find(s.drop_first(), p)
    }
}

/// `find` gives the first index that stops the search.
pub proof fn lemma_find(s: Seq<char>, p: Stop)
    ensures
        0 <= find(s, p) <= s.len(),
        forall|j: int| 0 <= j < find(s, p) ==> !stops(p, #[trigger] s[j]),
        find(s, p) < s.len() ==> stops(p, s[find(s, p)]),
    decreases s.len(),
{
    if s.len() > 0 && !stops(p, s[0]) {
        let t = s.drop_first();
        lemma_find(t, p);
        assert forall|j: int| 0 <= j < find(s, p) implies !stops(p, #[trigger] s[j]) by {
            if j > 0 {
                assert(s[j] == t[j - 1]);
            }
        }
        if find(s, p) < s.len() {
            assert(s[find(s, p)] == t[find(t, p)]);
        }
    }
}

/// An index that stops the search with nothing before it that does is what `find` gives.
pub proof fn lemma_find_is(s: Seq<char>, p: Stop, i: int)
    requires
        0 <= i <= s.len(),
        forall|j: int| 0 <= j < i ==> !stops(p, #[trigger] s[j]),
        i < s.len() ==> stops(p, s[i]),
    ensures
        find(s, p) == i,
{
    lemma_find(s, p);
    let f = find(s, p);
    if f < i {
        assert(!stops(p, s[f]));
    }
    if i < f {
        assert(!stops(p, s[i]));
    }
}

/// The first index at or after `from` that stops the search; the length if none.
pub fn find_from(v: &Vec<char>, from: usize, p: Stop) -> (r: usize)
    requires
        from <= v@.len(),
    ensures
        from <= r <= v@.len(),
        r == from + find(v@.skip(from as int), p),
{
    let mut i: usize = from;
    while i < v.len()
        invariant_except_break
            from <= i <= v@.len(),
            forall|j: int| from <= j < i ==> !stops(p, #[trigger] v@[j]),
        ensures
            from <= i <= v@.len(),
            forall|j: int| from <= j < i ==> !stops(p, #[trigger] v@[j]),
            i < v@.len() ==> stops(p, v@[i as int]),
        decreases v.len() - i,
    {
        let c = v[i];
        let hit = match p {
            Stop::At(x) => c == x,
            Stop::White => white(c),
            Stop::Solid => !white(c),
        };
        if hit {
            break;
        }
        i += 1;
    }
    proof {
        let s = v@.skip(from as int);
        assert forall|j: int| 0 <= j < i - from implies !stops(p, #[trigger] s[j]) by {
            assert(s[j] == v@[j + from]);
        }
        lemma_find_is(s, p, i - from);
    }
    i
}

/// Whether `s` begins with `p`.
pub open spec fn begins(s: Seq<char>, p: Seq<char>) -> bool {
    p.len() <= s.len() && s.take(p.len() as int) == p
}

/// Whether the characters of `v` from `at` on begin with `p`.
pub fn begins_at(v: &Vec<char>, at: usize, p: &Vec<char>) -> (r: bool)
    requires
        at <= v@.len(),
    ensures
        r == begins(v@.skip(at as int), p@),
{
    if p.len() > v.len() - at {
        return false;
    }
    let mut i: usize = 0;
    while i < p.len()
        invariant
            at + p.len() <= v.len(),
            i <= p@.len(),
            forall|j: int| 0 <= j < i ==> v@[at + j] == #[trigger] p@[j],
        decreases p.len() - i,
    {
        if v[at + i] != p[i] {
            proof {
                let t = v@.skip(at as int).take(p@.len() as int);
                assert(t[i as int] == v@[at + i]);
            }
            return false;
        }
        i += 1;
    }
    assert(v@.skip(at as int).take(p@.len() as int) =~= p@);
    true
}

/// Whether `s` begins with `p`.
pub fn starts_with(s: &str, p: &str) -> (r: bool)
    ensures
        r == begins(s@, p@),
{
    let v = chars_of(s);
    let w = chars_of(p);
    assert(v@.skip(0) =~= v@);
    begins_at(&v, 0, &w)
}

/// What follows the prefix `p` of `s`, if `s` begins with it.
pub fn strip_prefix(s: &str, p: &str) -> (r: Option<String>)
    ensures
        opt_str(r) == (if begins(s@, p@) {
            Some(s@.skip(p@.len() as int))
        } else {
            None
        }),
{
    let v = chars_of(s);
    let w = chars_of(p);
    assert(v@.skip(0) =~= v@);
    if begins_at(&v, 0, &w) {
        let r = string_of(&v, w.len(), v.len());
        assert(r@ =~= s@.skip(p@.len() as int));
        Some(r)
    } else {
        None
    }
}

/// Whether `p` occurs in `s`.
pub open spec fn occurs(s: Seq<char>, p: Seq<char>) -> bool {
    exists|i: int| 0 <= i <= s.len() && #[trigger] begins(s.skip(i), p)
}

/// Whether `p` occurs in `s`.
pub fn contains(s: &str, p: &str) -> (r: bool)
    ensures
        r == occurs(s@, p@),
{
    let v = chars_of(s);
    let w = chars_of(p);
    let mut i: usize = 0;
    loop
        invariant
            v@ == s@,
            w@ == p@,
            i <= v@.len(),
            forall|j: int| 0 <= j < i ==> !#[trigger] begins(s@.skip(j), p@),
        decreases v@.len() - i,
    {
        if begins_at(&v, i, &w) {
            return true;
        }
        if i == v.len() {
            return false;
        }
        i += 1;
    }
}

/// Every occurrence of `p` in `s`, from the left and without overlap, replaced by `w`.
pub open spec fn replaced(s: Seq<char>, p: Seq<char>, w: Seq<char>) -> Seq<char>
    recommends
        p.len() > 0,
    decreases s.len(),
{
    if s.len() == 0 || p.len() == 0 {
        s
    } else if begins(s, p) {
        w + replaced(s.skip(p.len() as int), p, w)
    } else {
        seq![s[0]] + replaced(s.skip(1), p, w)
    }
}

/// Replace every occurrence of `p` in `s` by `w`.
pub fn replace(s: &str, p: &str, w: &str) -> (r: String)
    requires
        p@.len() > 0,
    ensures
        r@ == replaced(s@, p@, w@),
{
    let v = chars_of(s);
    let q = chars_of(p);
    let mut out = String::new();
    let mut i: usize = 0;
    assert(v@.skip(0) =~= v@);
    while i < v.len()
        invariant
            q@ == p@,
            p@.len() > 0,
            i <= v@.len(),
            out@ + replaced(v@.skip(i as int), p@, w@) =~= replaced(v@, p@, w@),
        decreases v@.len() - i,
    {
        let ghost rest = v@.skip(i as int);
        if begins_at(&v, i, &q) {
            out.append(w);
            assert(rest.skip(p@.len() as int) =~= v@.skip(i + p@.len()));
            i += q.len();
        } else {
            out.push(v[i]);
            assert(rest.skip(1) =~= v@.skip(i + 1));
            assert(rest[0] == v@[i as int]);
            i += 1;
        }
    }
    out
}

// ---- Splitting ---------------------------------------------------------------

/// The pieces of `s` between the separators; one piece where there is none.
pub open spec fn split_on(s: Seq<char>, sep: char) -> Seq<Seq<char>>
    decreases s.len(),
    via split_on_shrinks
{
    let i = find(s, Stop::At(sep));
    if i >= s.len() {
        seq![s]
    } else {
        seq![s.take(i)] + split_on(s.skip(i + 1), sep)
    }
}

#[via_fn]
proof fn split_on_shrinks(s: Seq<char>, sep: char) {
    lemma_find(s, Stop::At(sep));
}

/// Split `s` at every `sep`.
pub fn split(s: &str, sep: char) -> (r: Vec<String>)
    ensures
        strs(r@) == split_on(s@, sep),
        r@.len() > 0,
{
    let v = chars_of(s);
    let mut out: Vec<String> = Vec::new();
    let mut pos: usize = 0;
    assert(v@.skip(0) =~= v@);
    loop
        invariant
            v@ == s@,
            pos <= v@.len(),
            strs(out@) + split_on(v@.skip(pos as int), sep) =~= split_on(s@, sep),
        decreases v@.len() - pos,
    {
        let ghost rest = v@.skip(pos as int);
        let end = find_from(&v, pos, Stop::At(sep));
        let piece = string_of(&v, pos, end);
        let ghost before = out@;
        assert(piece@ =~= rest.take(end - pos));
        out.push(piece);
        assert(strs(out@) =~= strs(before).push(piece@));
        if end == v.len() {
            assert(rest.take(end - pos) =~= rest);
            return out;
        }
        assert(rest.skip(end - pos + 1) =~= v@.skip(end + 1));
        pos = end + 1;
    }
}

/// `s` without a carriage return at its end.
pub open spec fn without_cr(s: Seq<char>) -> Seq<char> {
    if s.len() > 0 && s.last() == '\r' {
        s.drop_last()
    } else {
        s
    }
}

/// The lines of `s`: each ends at a line feed, which a carriage return may precede; a last
/// line needs no line feed.
pub open spec fn lines_of(s: Seq<char>) -> Seq<Seq<char>>
    decreases s.len(),
    via lines_of_shrinks
{
    let i = find(s, Stop::At('\n'));
    if s.len() == 0 {
        seq![]
    } else if i >= s.len() {
        seq![s]
    } else {
        seq![without_cr(s.take(i))] + lines_of(s.skip(i + 1))
    }
}

#[via_fn]
proof fn lines_of_shrinks(s: Seq<char>) {
    lemma_find(s, Stop::At('\n'));
}

/// Split `s` into lines.
pub fn lines(s: &str) -> (r: Vec<String>)
    ensures
        strs(r@) == lines_of(s@),
{
    let v = chars_of(s);
    let mut out: Vec<String> = Vec::new();
    let mut pos: usize = 0;
    assert(v@.skip(0) =~= v@);
    while pos < v.len()
        invariant
            v@ == s@,
            pos <= v@.len(),
            strs(out@) + lines_of(v@.skip(pos as int)) =~= lines_of(s@),
        decreases v@.len() - pos,
    {
        let ghost rest = v@.skip(pos as int);
        let ghost before = out@;
        let end = find_from(&v, pos, Stop::At('\n'));
        if end == v.len() {
            let piece = string_of(&v, pos, end);
            assert(piece@ =~= rest);
            out.push(piece);
            assert(strs(out@) =~= strs(before).push(piece@));
            assert(v@.skip(end as int) =~= Seq::<char>::empty());
            pos = end;
        } else {
            let stop = if end > pos && v[end - 1] == '\r' {
                end - 1
            } else {
                end
            };
            let piece = string_of(&v, pos, stop);
            assert(rest.take(end - pos) =~= v@.subrange(pos as int, end as int));
            assert(piece@ =~= without_cr(rest.take(end - pos)));
            out.push(piece);
            assert(strs(out@) =~= strs(before).push(piece@));
            assert(rest.skip(end - pos + 1) =~= v@.skip(end + 1));
            pos = end + 1;
        }
    }
    out
}

/// The runs of `s` that hold no white space.
pub open spec fn words_of(s: Seq<char>) -> Seq<Seq<char>>
    decreases s.len(),
    via words_of_shrinks
{
    let b = find(s, Stop::Solid);
    if b >= s.len() {
        seq![]
    } else {
        let t = s.skip(b);
        let e = find(t, Stop::White);
        seq![t.take(e)] + words_of(t.skip(e))
    }
}

#[via_fn]
proof fn words_of_shrinks(s: Seq<char>) {
    lemma_word_progress(s);
}

proof fn lemma_word_progress(s: Seq<char>)
    ensures
        0 <= find(s, Stop::Solid) <= s.len(),
        find(s, Stop::Solid) < s.len() ==> 0 < find(s.skip(find(s, Stop::Solid)), Stop::White)
            <= s.len() - find(s, Stop::Solid),
{
    lemma_find(s, Stop::Solid);
    let b = find(s, Stop::Solid);
    if b < s.len() {
        let t = s.skip(b);
        lemma_find(t, Stop::White);
        assert(t[0] == s[b]);
        assert(find(t, Stop::White) > 0);
    }
}

/// Split `s` into words.
pub fn words(s: &str) -> (r: Vec<String>)
    ensures
        strs(r@) == words_of(s@),
{
    let v = chars_of(s);
    let mut out: Vec<String> = Vec::new();
    let mut pos: usize = 0;
    assert(v@.skip(0) =~= v@);
    loop
        invariant
            v@ == s@,
            pos <= v@.len(),
            strs(out@) + words_of(v@.skip(pos as int)) =~= words_of(s@),
        decreases v@.len() - pos,
    {
        let ghost rest = v@.skip(pos as int);
        let ghost before = out@;
        let b = find_from(&v, pos, Stop::Solid);
        if b == v.len() {
            return out;
        }
        let e = find_from(&v, b, Stop::White);
        proof {
            lemma_word_progress(rest);
            assert(rest.skip(b - pos) =~= v@.skip(b as int));
            assert(v@.skip(b as int).take(e - b) =~= v@.subrange(b as int, e as int));
            assert(v@.skip(b as int).skip(e - b) =~= v@.skip(e as int));
        }
        let piece = string_of(&v, b, e);
        out.push(piece);
        assert(strs(out@) =~= strs(before).push(piece@));
        pos = e;
    }
}

/// `s` without the white space at its start.
pub open spec fn trimmed_start(s: Seq<char>) -> Seq<char> {
    s.skip(find(s, Stop::Solid))
}

/// `s` without the white space at its end.
pub open spec fn trimmed_end(s: Seq<char>) -> Seq<char>
    decreases s.len(),
{
    if s.len() > 0 && is_white(s.last()) {
        trimmed_end(s.drop_last())
    } else {
        s
    }
}

/// `s` without the white space at either end.
pub open spec fn trimmed(s: Seq<char>) -> Seq<char> {
    trimmed_end(trimmed_start(s))
}

/// Trim white space from both ends of `s`.
pub fn trim(s: &str) -> (r: String)
    ensures
        r@ == trimmed(s@),
{
    let v = chars_of(s);
    let b = find_from(&v, 0, Stop::Solid);
    let mut e: usize = v.len();
    assert(v@.skip(0) =~= v@);
    assert(v@.subrange(b as int, e as int) =~= trimmed_start(s@));
    while e > b && white(v[e - 1])
        invariant
            b <= e <= v@.len(),
            trimmed_end(v@.subrange(b as int, e as int)) == trimmed(s@),
        decreases e,
    {
        assert(v@.subrange(b as int, e as int).drop_last() =~= v@.subrange(b as int, e - 1));
        e -= 1;
    }
    string_of(&v, b, e)
}

/// What follows the last `sep` in `s`; all of `s` where there is none.
pub open spec fn after_last(s: Seq<char>, sep: char) -> Seq<char>
    decreases s.len(),
{
    if s.len() == 0 {
        s
    } else if s.last() == sep {
        seq![]
    } else {
        after_last(s.drop_last(), sep).push(s.last())
    }
}

/// What follows the last `sep` in `s`; `None` where there is none.
pub fn rsplit_after(s: &str, sep: char) -> (r: Option<String>)
    ensures
        opt_str(r) == (if s@.contains(sep) {
            Some(after_last(s@, sep))
        } else {
            None
        }),
        !s@.contains(sep) ==> after_last(s@, sep) == s@,
{
    let v = chars_of(s);
    let mut i: usize = v.len();
    assert(v@.take(v@.len() as int) =~= v@);
    assert(v@.subrange(i as int, v@.len() as int) =~= Seq::<char>::empty());
    assert(after_last(s@, sep) =~= after_last(v@.take(i as int), sep) + v@.subrange(
        i as int,
        v@.len() as int,
    ));
    while i > 0
        invariant
            v@ == s@,
            i <= v@.len(),
            forall|j: int| i <= j < v@.len() ==> v@[j] != sep,
            after_last(s@, sep) =~= after_last(v@.take(i as int), sep) + v@.subrange(
                i as int,
                v@.len() as int,
            ),
        decreases i,
    {
        assert(v@.take(i as int).last() == v@[i - 1]);
        assert(v@.take(i as int).drop_last() =~= v@.take(i - 1));
        if v[i - 1] == sep {
            assert(s@[i - 1] == sep);
            return Some(string_of(&v, i, v.len()));
        }
        assert(v@.subrange(i - 1, v@.len() as int) =~= seq![v@[i - 1]] + v@.subrange(
            i as int,
            v@.len() as int,
        ));
        i -= 1;
    }
    assert(v@.take(0) =~= Seq::<char>::empty());
    assert(v@.subrange(0, v@.len() as int) =~= s@);
    None
}

// ---- Numbers -----------------------------------------------------------------

/// `n`, or the largest `usize` where `n` is larger.
pub open spec fn capped(n: nat) -> nat {
    if n > usize::MAX {
        usize::MAX as nat
    } else {
        n
    }
}

/// Whether `c` is a decimal digit.
pub open spec fn is_digit(c: char) -> bool {
    '0' <= c <= '9'
}

/// The number that a sequence of decimal digits denotes.
pub open spec fn value(s: Seq<char>) -> nat
    decreases s.len(),
{
    if s.len() == 0 {
        0
    } else {
        value(s.drop_last()) * 10 + ((s.last() as int) - ('0' as int)) as nat
    }
}

/// The number that `s` denotes: one or more decimal digits.
pub open spec fn digits_value(s: Seq<char>) -> Option<nat> {
    if s.len() > 0 && forall|i: int| 0 <= i < s.len() ==> is_digit(#[trigger] s[i]) {
        Some(value(s))
    } else {
        None
    }
}

/// `s` without a sign character at its start.
pub open spec fn without_sign(s: Seq<char>, sign: char) -> Seq<char> {
    if s.len() > 0 && s[0] == sign {
        s.skip(1)
    } else {
        s
    }
}

/// The unsigned number up to `max` that `s` denotes: digits, which one plus sign may precede.
pub open spec fn unsigned_value(s: Seq<char>, max: nat) -> Option<nat> {
    match digits_value(without_sign(s, '+')) {
        Some(n) => if n <= max {
            Some(n)
        } else {
            None
        },
        None => None,
    }
}

/// The signed 64-bit number that `s` denotes: digits, which one sign may precede.
pub open spec fn signed_value(s: Seq<char>) -> Option<int> {
    if s.len() > 0 && s[0] == '-' {
        match digits_value(s.skip(1)) {
            Some(n) => if n <= 0x8000_0000_0000_0000 {
                Some(-(n as int))
            } else {
                None
            },
            None => None,
        }
    } else {
        match unsigned_value(s, 0x7fff_ffff_ffff_ffff) {
            Some(n) => Some(n as int),
            None => None,
        }
    }
}

proof fn lemma_value_grows(s: Seq<char>, k: int)
    requires
        0 <= k <= s.len(),
    ensures
        value(s.take(k)) <= value(s),
    decreases s.len(),
{
    if k == s.len() {
        assert(s.take(k) =~= s);
    } else {
        lemma_value_grows(s.drop_last(), k);
        assert(s.drop_last().take(k) =~= s.take(k));
    }
}

/// The value of the digits of `v` from `from` on, if it is at most `max`.
fn parse_digits(v: &Vec<char>, from: usize, max: u64) -> (r: Option<u64>)
    requires
        from <= v@.len(),
    ensures
        r == (match digits_value(v@.skip(from as int)) {
            Some(n) => if n <= max {
                Some(n as u64)
            } else {
                None
            },
            None => None,
        }),
{
    if from == v.len() {
        return None;
    }
    let ghost s = v@.skip(from as int);
    let mut n: u64 = 0;
    let mut i: usize = from;
    while i < v.len()
        invariant
            from <= i <= v@.len(),
            s == v@.skip(from as int),
            n == value(s.take(i - from)),
            n <= max,
            forall|j: int| 0 <= j < i - from ==> is_digit(#[trigger] s[j]),
        decreases v@.len() - i,
    {
        let c = v[i];
        assert(s[i - from] == c);
        if !('0' <= c && c <= '9') {
            return None;
        }
        let d: u64 = (c as u32 - '0' as u32) as u64;
        let m: u128 = n as u128 * 10 + d as u128;
        proof {
            let k = i + 1 - from;
            assert(s.take(k).last() == c);
            assert(s.take(k).drop_last() =~= s.take(k - 1));
            assert(m == value(s.take(k)));
            lemma_value_grows(s, k);
        }
        if m > max as u128 {
            return None;
        }
        n = m as u64;
        i += 1;
    }
    assert(s.take(s.len() as int) =~= s);
    Some(n)
}

/// Parse an unsigned number of at most `max`.
pub fn parse_unsigned(s: &str, max: u64) -> (r: Option<u64>)
    ensures
        r == (match unsigned_value(s@, max as nat) {
            Some(n) => Some(n as u64),
            None => None,
        }),
{
    let v = chars_of(s);
    assert(v@.skip(0) =~= v@);
    if v.len() > 0 && v[0] == '+' {
        parse_digits(&v, 1, max)
    } else {
        parse_digits(&v, 0, max)
    }
}

/// Parse a signed 64-bit number.
pub fn parse_signed(s: &str) -> (r: Option<i64>)
    ensures
        r == (match signed_value(s@) {
            Some(n) => Some(n as i64),
            None => None,
        }),
{
    let v = chars_of(s);
    if v.len() > 0 && v[0] == '-' {
        match parse_digits(&v, 1, 0x8000_0000_0000_0000) {
            Some(n) => {
                if n == 0x8000_0000_0000_0000 {
                    Some(i64::MIN)
                } else {
                    Some(-(n as i64))
                }
            },
            None => None,
        }
    } else {
        match parse_unsigned(s, 0x7fff_ffff_ffff_ffff) {
            Some(n) => Some(n as i64),
            None => None,
        }
    }
}

/// The character of a decimal digit.
pub open spec fn digit_char(d: nat) -> char {
    (('0' as int) + d) as char
}

/// `n` in decimal digits, without leading zeros.
pub open spec fn decimal(n: nat) -> Seq<char>
    decreases n,
{
    if n < 10 {
        seq![digit_char(n)]
    } else {
        decimal(n / 10).push(digit_char(n % 10))
    }
}

/// Write `n` in decimal.
pub fn dec(n: u64) -> (r: String)
    ensures
        r@ == decimal(n as nat),
    decreases n,
{
    let d: u8 = (n % 10) as u8;
    let c: char = (48u8 + d) as char;
    if n < 10 {
        let mut s = String::new();
        s.push(c);
        assert(s@ =~= decimal(n as nat));
        s
    } else {
        let mut s = dec(n / 10);
        s.push(c);
        s
    }
}

/// Reading a number that was written in decimal gives the number back.
pub proof fn law_decimal_reads_back(n: nat)
    ensures
        digits_value(decimal(n)) == Some(n),
    decreases n,
{
    let s = decimal(n);
    if n >= 10 {
        let t = decimal(n / 10);
        law_decimal_reads_back(n / 10);
        assert(s.drop_last() =~= t);
        assert forall|i: int| 0 <= i < s.len() implies is_digit(#[trigger] s[i]) by {
            if i < t.len() {
                assert(s[i] == t[i]);
            }
        }
    } else {
        assert(s.drop_last() =~= Seq::<char>::empty());
        assert(value(s.drop_last()) == 0);
    }
}

// ---- Order -------------------------------------------------------------------

/// Lexicographic order by code point.
pub open spec fn before(a: Seq<char>, b: Seq<char>) -> bool
    decreases a.len(),
{
    if b.len() == 0 {
        false
    } else if a.len() == 0 {
        true
    } else if a[0] == b[0] {
        before(a.skip(1), b.skip(1))
    } else {
        (a[0] as int) < (b[0] as int)
    }
}

/// Whether `a` comes before `b`.
pub fn less(a: &str, b: &str) -> (r: bool)
    ensures
        r == before(a@, b@),
{
    let v = chars_of(a);
    let w = chars_of(b);
    let mut i: usize = 0;
    assert(v@.skip(0) =~= v@);
    assert(w@.skip(0) =~= w@);
    loop
        invariant
            v@ == a@,
            w@ == b@,
            i <= v@.len(),
            i <= w@.len(),
            before(v@.skip(i as int), w@.skip(i as int)) == before(a@, b@),
        decreases v@.len() - i,
    {
        if i == w.len() {
            return false;
        }
        if i == v.len() {
            return true;
        }
        let x = v[i];
        let y = w[i];
        assert(v@.skip(i as int)[0] == x);
        assert(w@.skip(i as int)[0] == y);
        if x != y {
            return x < y;
        }
        assert(v@.skip(i as int).skip(1) =~= v@.skip(i + 1));
        assert(w@.skip(i as int).skip(1) =~= w@.skip(i + 1));
        i += 1;
    }
}

/// Of two different strings exactly one comes before the other.
pub proof fn lemma_before_total(a: Seq<char>, b: Seq<char>)
    ensures
        a == b ==> !before(a, b),
        a != b ==> before(a, b) != before(b, a),
    decreases a.len(),
{
    if a.len() > 0 && b.len() > 0 {
        if a[0] == b[0] {
            lemma_before_total(a.skip(1), b.skip(1));
            assert(a =~= seq![a[0]] + a.skip(1));
            assert(b =~= seq![b[0]] + b.skip(1));
        }
    } else if a.len() == 0 && b.len() == 0 {
        assert(a =~= b);
    }
}

/// The order is transitive.
pub proof fn lemma_before_trans(a: Seq<char>, b: Seq<char>, c: Seq<char>)
    requires
        before(a, b),
        before(b, c),
    ensures
        before(a, c),
    decreases a.len(),
{
    if a.len() > 0 && a[0] == b[0] && b[0] == c[0] {
        lemma_before_trans(a.skip(1), b.skip(1), c.skip(1));
    }
}

} // verus!
