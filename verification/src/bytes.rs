//! How many bytes text takes.

use vstd::prelude::*;
use vstd::string::*;

verus! {

/// The bytes of a text, in UTF-8.
#[verifier::opaque]
pub open spec fn bytes_of(s: Seq<char>) -> Seq<u8> {
    vstd::utf8::encode_utf8(s)
}

/// The number of bytes of a text.
pub open spec fn byte_len(s: Seq<char>) -> nat {
    bytes_of(s).len()
}

/// The number of bytes of a character.
pub open spec fn char_bytes(c: char) -> nat {
    vstd::utf8::encode_scalar(c as u32).len()
}

/// The least number of characters from the start of `s` that take `n` bytes or more; all of them
/// where `s` takes fewer.
pub open spec fn chars_reaching(s: Seq<char>, n: int) -> nat
    decreases s.len(),
{
    if s.len() == 0 || byte_len(s.drop_last()) < n {
        s.len()
    } else {
        chars_reaching(s.drop_last(), n)
    }
}

/// The bytes of two texts, one after the other, are those of the one and then those of the other.
pub proof fn law_bytes_join(a: Seq<char>, b: Seq<char>)
    ensures
        bytes_of(a + b) == bytes_of(a) + bytes_of(b),
    decreases a.len(),
{
    reveal(bytes_of);
    if a.len() == 0 {
        assert(a + b =~= b);
        assert(bytes_of(a) + bytes_of(b) =~= bytes_of(b));
    } else {
        law_bytes_join(a.drop_first(), b);
        assert((a + b).drop_first() =~= a.drop_first() + b);
        assert((a + b)[0] == a[0]);
        let first = vstd::utf8::encode_scalar(a[0] as u32);
        assert(first + (bytes_of(a.drop_first()) + bytes_of(b)) =~= (first + bytes_of(
            a.drop_first(),
        )) + bytes_of(b));
    }
}

pub proof fn lemma_no_bytes()
    ensures
        byte_len(seq![]) == 0,
{
    reveal(bytes_of);
}

pub proof fn lemma_push_bytes(s: Seq<char>, c: char)
    ensures
        byte_len(s.push(c)) == byte_len(s) + char_bytes(c),
        1 <= char_bytes(c) <= 4,
{
    reveal(bytes_of);
    law_bytes_join(s, seq![c]);
    assert(s.push(c) =~= s + seq![c]);
    reveal_with_fuel(vstd::utf8::encode_utf8, 2);
    assert(seq![c].drop_first() =~= Seq::<char>::empty());
    assert(bytes_of(seq![c]) =~= vstd::utf8::encode_scalar(c as u32));
}

/// More characters of a text take more bytes, and none takes fewer than one.
pub proof fn lemma_more_bytes(s: Seq<char>, i: int, j: int)
    requires
        0 <= i <= j <= s.len(),
    ensures
        byte_len(s.take(i)) + (j - i) <= byte_len(s.take(j)) <= byte_len(s),
    decreases s.len() - i,
{
    law_bytes_join(s.take(j), s.skip(j));
    assert(s.take(j) + s.skip(j) =~= s);
    if i < j {
        lemma_more_bytes(s, i + 1, j);
        lemma_push_bytes(s.take(i), s[i]);
        assert(s.take(i + 1) =~= s.take(i).push(s[i]));
    }
}

/// The least number of characters that take `n` bytes or more is the one that does while one
/// character less does not.
pub proof fn lemma_reached(s: Seq<char>, n: int, k: int)
    requires
        0 <= k <= s.len(),
        byte_len(s.take(k)) >= n,
        k > 0 ==> byte_len(s.take(k - 1)) < n,
    ensures
        chars_reaching(s, n) == k,
    decreases s.len(),
{
    if s.len() > 0 {
        assert(s.drop_last() =~= s.take(s.len() - 1));
        if k < s.len() {
            let t = s.drop_last();
            lemma_more_bytes(s, k, s.len() - 1);
            assert(t.take(k) =~= s.take(k));
            if k > 0 {
                assert(t.take(k - 1) =~= s.take(k - 1));
            }
            lemma_reached(t, n, k);
        }
    }
}

/// Where a text takes `n` bytes, so do the characters that reach them.
pub proof fn lemma_reaching(s: Seq<char>, n: int)
    requires
        n <= byte_len(s),
    ensures
        chars_reaching(s, n) <= s.len(),
        byte_len(s.take(chars_reaching(s, n) as int)) >= n,
    decreases s.len(),
{
    let k = chars_reaching(s, n) as int;
    if s.len() == 0 || byte_len(s.drop_last()) < n {
        assert(s.take(k) =~= s);
    } else {
        lemma_reaching(s.drop_last(), n);
        assert(s.drop_last().take(k) =~= s.take(k));
    }
}

/// The number of bytes of a text.
pub fn count_bytes(s: &str) -> (r: usize)
    ensures
        r == byte_len(s@),
{
    reveal(bytes_of);
    s.as_bytes().len()
}

/// The number of bytes of a character.
pub fn count_char_bytes(c: char) -> (r: usize)
    ensures
        r == char_bytes(c),
{
    let n = c as u32;
    if n <= 0x7f {
        1
    } else if n <= 0x7ff {
        2
    } else if n <= 0xffff {
        3
    } else {
        4
    }
}

} // verus!
