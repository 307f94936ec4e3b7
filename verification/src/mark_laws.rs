//! What is emphasised in two lines: all that a step between them takes away or brings in, and
//! nothing that they have in common.

use crate::bytes::byte_len;
use crate::diffview::emphasised;
use crate::parse::{all_with_marks, law_partners, partner, with_marks, Kind, PHunkV, PLineV};
use crate::tokens::{
    bytes_upto, law_tokens_join, leads, lemma_bytes_upto, myers_script, new_marks, old_marks,
    tokens_of, EditOp,
};
use vstd::prelude::*;

verus! {

/// The tokens that a step is about on one side: from which on, and how many.
spec fn takes(op: EditOp, old: bool) -> Option<(int, int)> {
    match op {
        EditOp::Equal { old_index, new_index, len } => if old {
            Some((old_index as int, len as int))
        } else {
            Some((new_index as int, len as int))
        },
        EditOp::Delete { old_index, old_len, .. } => if old {
            Some((old_index as int, old_len as int))
        } else {
            None
        },
        EditOp::Insert { new_index, new_len, .. } => if old {
            None
        } else {
            Some((new_index as int, new_len as int))
        },
        EditOp::Replace { old_index, old_len, new_index, new_len } => if old {
            Some((old_index as int, old_len as int))
        } else {
            Some((new_index as int, new_len as int))
        },
    }
}

spec fn marks(ops: Seq<EditOp>, toks: Seq<Seq<char>>, old: bool) -> Seq<(usize, usize)> {
    if old {
        old_marks(ops, toks)
    } else {
        new_marks(ops, toks)
    }
}

/// Whether steps cover the tokens of one side from token `i` on.
spec fn covers(ops: Seq<EditOp>, i: int, n: int, old: bool) -> bool
    decreases ops.len(),
{
    if ops.len() == 0 {
        i == n
    } else {
        match takes(ops[0], old) {
            Some((s, c)) => s == i && i + c <= n && covers(ops.skip(1), i + c, n, old),
            None => covers(ops.skip(1), i, n, old),
        }
    }
}

proof fn lemma_covers(ops: Seq<EditOp>, a: Seq<Seq<char>>, i: int, b: Seq<Seq<char>>, j: int)
    requires
        leads(ops, a, i, b, j),
    ensures
        covers(ops, i, a.len() as int, true),
        covers(ops, j, b.len() as int, false),
    decreases ops.len(),
{
    if ops.len() > 0 {
        let rest = ops.skip(1);
        match ops[0] {
            EditOp::Equal { len, .. } => lemma_covers(rest, a, i + len, b, j + len),
            EditOp::Delete { old_len, .. } => lemma_covers(rest, a, i + old_len, b, j),
            EditOp::Insert { new_len, .. } => lemma_covers(rest, a, i, b, j + new_len),
            EditOp::Replace { old_len, new_len, .. } => lemma_covers(
                rest,
                a,
                i + old_len,
                b,
                j + new_len,
            ),
        }
    }
}

proof fn lemma_upto_grows(toks: Seq<Seq<char>>, p: int, q: int)
    requires
        0 <= p <= q,
    ensures
        bytes_upto(toks, p) <= bytes_upto(toks, q),
    decreases q - p,
{
    if p < q {
        lemma_upto_grows(toks, p, q - 1);
    }
}

/// Where the steps from token `i` on are, and what they mark, is at token `i` or behind it.
proof fn lemma_from_here(ops: Seq<EditOp>, toks: Seq<Seq<char>>, i: int, old: bool)
    requires
        0 <= i <= toks.len(),
        covers(ops, i, toks.len() as int, old),
        byte_len(toks.flatten()) <= usize::MAX,
    ensures
        forall|m: int|
            0 <= m < marks(ops, toks, old).len() ==> (#[trigger] marks(ops, toks, old)[m]).0
                >= bytes_upto(toks, i),
        forall|k: int|
            0 <= k < ops.len() ==> (takes(#[trigger] ops[k], old) matches Some((s, c)) ==> i <= s
                && s + c <= toks.len()),
    decreases ops.len(),
{
    if ops.len() > 0 {
        let rest = ops.skip(1);
        let all = marks(ops, toks, old);
        let tail = marks(rest, toks, old);
        let i2 = match takes(ops[0], old) {
            Some((s, c)) => i + c,
            None => i,
        };
        lemma_from_here(rest, toks, i2, old);
        lemma_upto_grows(toks, i, i2);
        lemma_bytes_upto(toks, i);
        assert forall|m: int| 0 <= m < all.len() implies (#[trigger] all[m]).0 >= bytes_upto(
            toks,
            i,
        ) by {
            let d = all.len() - tail.len();
            if m >= d {
                assert(all[m] == tail[m - d]);
            }
        }
        assert forall|k: int| 0 <= k < ops.len() implies (takes(#[trigger] ops[k], old) matches Some(
            (s, c),
        ) ==> i <= s && s + c <= toks.len()) by {
            if k > 0 {
                assert(ops[k] == rest[k - 1]);
            }
        }
    }
}

proof fn lemma_step_marked(
    ops: Seq<EditOp>,
    toks: Seq<Seq<char>>,
    i: int,
    old: bool,
    k: int,
    x: int,
)
    requires
        0 <= i <= toks.len(),
        covers(ops, i, toks.len() as int, old),
        byte_len(toks.flatten()) <= usize::MAX,
        0 <= k < ops.len(),
        takes(ops[k], old) is Some,
        ({
            let (s, c) = takes(ops[k], old)->0;
            bytes_upto(toks, s) <= x < bytes_upto(toks, s + c)
        }),
    ensures
        emphasised(marks(ops, toks, old), x) == !(ops[k] is Equal),
    decreases ops.len(),
{
    let rest = ops.skip(1);
    let all = marks(ops, toks, old);
    let tail = marks(rest, toks, old);
    let d = all.len() - tail.len();
    let i2 = match takes(ops[0], old) {
        Some((s, c)) => i + c,
        None => i,
    };
    lemma_from_here(ops, toks, i, old);
    lemma_from_here(rest, toks, i2, old);
    lemma_bytes_upto(toks, i);
    lemma_bytes_upto(toks, i2);
    assert forall|m: int| d <= m < all.len() implies #[trigger] all[m] == tail[m - d] by {}
    if k == 0 {
        if ops[0] is Equal {
            assert(all =~= tail);
        } else {
            assert(all[0] == (bytes_upto(toks, i) as usize, bytes_upto(toks, i2) as usize));
        }
    } else {
        assert(ops[k] == rest[k - 1]);
        let (s, c) = takes(ops[k], old)->0;
        assert(takes(rest[k - 1], old) == Some((s, c)));
        lemma_upto_grows(toks, i2, s);
        lemma_step_marked(rest, toks, i2, old, k - 1, x);
        if emphasised(tail, x) {
            let m = choose|m: int| 0 <= m < tail.len() && (#[trigger] tail[m]).0 <= x < tail[m].1;
            assert(all[m + d] == tail[m]);
        }
        if emphasised(all, x) {
            let m = choose|m: int| 0 <= m < all.len() && (#[trigger] all[m]).0 <= x < all[m].1;
            if m < d {
                assert(all[m] == (bytes_upto(toks, i) as usize, bytes_upto(toks, i2) as usize));
            } else {
                assert(tail[m - d] == all[m]);
            }
        }
    }
}

/// The byte at which a token begins.
pub open spec fn byte_of_token(line: Seq<char>, k: int) -> int {
    byte_len(tokens_of(line).take(k).flatten()) as int
}

/// Of an old line exactly those tokens are emphasised that a step takes away or replaces, each
/// from its first byte to its last. What a step leaves equal is not.
pub proof fn law_removed_is_emphasised(
    old: Seq<char>,
    new: Seq<char>,
    ops: Seq<EditOp>,
    k: int,
    x: int,
)
    requires
        leads(ops, tokens_of(old), 0, tokens_of(new), 0),
        byte_len(old) <= usize::MAX,
        0 <= k < ops.len(),
    ensures
        ops[k] matches EditOp::Equal { old_index, len, .. } ==> byte_of_token(old, old_index as int)
            <= x < byte_of_token(old, old_index + len) ==> !emphasised(
            old_marks(ops, tokens_of(old)),
            x,
        ),
        ops[k] matches EditOp::Delete { old_index, old_len, .. } ==> byte_of_token(
            old,
            old_index as int,
        ) <= x < byte_of_token(old, old_index + old_len) ==> emphasised(
            old_marks(ops, tokens_of(old)),
            x,
        ),
        ops[k] matches EditOp::Replace { old_index, old_len, .. } ==> byte_of_token(
            old,
            old_index as int,
        ) <= x < byte_of_token(old, old_index + old_len) ==> emphasised(
            old_marks(ops, tokens_of(old)),
            x,
        ),
{
    let toks = tokens_of(old);
    law_tokens_join(old);
    lemma_covers(ops, toks, 0, tokens_of(new), 0);
    lemma_from_here(ops, toks, 0, true);
    if let Some((s, c)) = takes(ops[k], true) {
        assert(takes(ops[k], true) == Some((s, c)));
        lemma_bytes_upto(toks, s);
        lemma_bytes_upto(toks, s + c);
        if byte_of_token(old, s) <= x < byte_of_token(old, s + c) {
            lemma_step_marked(ops, toks, 0, true, k, x);
        }
    }
}

/// Of a new line exactly those tokens are emphasised that a step brings in or puts in place of
/// others, each from its first byte to its last. What a step leaves equal is not.
pub proof fn law_added_is_emphasised(
    old: Seq<char>,
    new: Seq<char>,
    ops: Seq<EditOp>,
    k: int,
    x: int,
)
    requires
        leads(ops, tokens_of(old), 0, tokens_of(new), 0),
        byte_len(new) <= usize::MAX,
        0 <= k < ops.len(),
    ensures
        ops[k] matches EditOp::Equal { new_index, len, .. } ==> byte_of_token(new, new_index as int)
            <= x < byte_of_token(new, new_index + len) ==> !emphasised(
            new_marks(ops, tokens_of(new)),
            x,
        ),
        ops[k] matches EditOp::Insert { new_index, new_len, .. } ==> byte_of_token(
            new,
            new_index as int,
        ) <= x < byte_of_token(new, new_index + new_len) ==> emphasised(
            new_marks(ops, tokens_of(new)),
            x,
        ),
        ops[k] matches EditOp::Replace { new_index, new_len, .. } ==> byte_of_token(
            new,
            new_index as int,
        ) <= x < byte_of_token(new, new_index + new_len) ==> emphasised(
            new_marks(ops, tokens_of(new)),
            x,
        ),
{
    let toks = tokens_of(new);
    law_tokens_join(new);
    lemma_covers(ops, tokens_of(old), 0, toks, 0);
    lemma_from_here(ops, toks, 0, false);
    if let Some((s, c)) = takes(ops[k], false) {
        assert(takes(ops[k], false) == Some((s, c)));
        lemma_bytes_upto(toks, s);
        lemma_bytes_upto(toks, s + c);
        if byte_of_token(new, s) <= x < byte_of_token(new, s + c) {
            lemma_step_marked(ops, toks, 0, false, k, x);
        }
    }
}

/// A removed line and the added line that it is compared with are emphasised by one script, which
/// leads from the words of the one to those of the other.
pub proof fn law_pair_is_emphasised(ls: Seq<PLineV>, i: int, j: int)
    requires
        0 <= i < ls.len(),
        ls[i].kind == Kind::Del,
        partner(ls, i) == Some(j),
    ensures
        ({
            let a = tokens_of(ls[i].text);
            let b = tokens_of(ls[j].text);
            let ops = myers_script(a, b);
            &&& 0 <= j < ls.len()
            &&& with_marks(ls)[i].emph == old_marks(ops, a)
            &&& with_marks(ls)[j].emph == new_marks(ops, b)
        }),
{
    law_partners(ls, i, j);
}

/// The lines of every hunk are emphasised, each hunk by itself; headers stay, and no hunk is added
/// or lost.
pub proof fn law_every_hunk_is_emphasised(hunks: Seq<PHunkV>)
    ensures
        all_with_marks(hunks).len() == hunks.len(),
        forall|i: int|
            0 <= i < hunks.len() ==> (#[trigger] all_with_marks(hunks)[i]).header == hunks[i].header
                && all_with_marks(hunks)[i].lines == with_marks(hunks[i].lines),
{
}

} // verus!
