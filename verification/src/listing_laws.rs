//! What the answers of git say, as they are written.

use crate::git::{
    blanked, changed, commit_of, commits_in, commits_of, count_of, counts_of, file_of, finished,
    in_order, law_sorted, line_count, list_line, listed, listed_files, name_status, newlines,
    nonempty, numstat, plain_files, sorted, status_of, three_fields, untracked_file, without_prefix,
    worktrees_in, CommitV, FileStatus, FileV, NumstatV,
};
use crate::text::{
    begins, decimal, digits_value, first_chars, is_digit, law_decimal_reads_back, signed_value,
    split_on, without_sign,
};
use crate::text_laws::{
    all_free_of, all_lines, ended, law_lines_of_ended, law_split_of_ended, lemma_first_end,
};
use vstd::prelude::*;

verus! {

proof fn lemma_starts(p: Seq<char>, s: Seq<char>)
    ensures
        begins(p + s, p),
        (p + s).skip(p.len() as int) == s,
        without_prefix(p + s, p) == s,
{
    assert((p + s).take(p.len() as int) =~= p);
    assert((p + s).skip(p.len() as int) =~= s);
}

proof fn lemma_starts_otherwise(s: Seq<char>, p: Seq<char>)
    requires
        p.len() > 0,
        s.len() == 0 || s[0] != p[0],
    ensures
        !begins(s, p),
{
    if begins(s, p) {
        assert(s.take(p.len() as int)[0] == s[0]);
    }
}

// ---- Worktrees -------------------------------------------------------------------

/// What is checked out.
pub enum Out {
    /// A branch
    Branch(Seq<char>),
    /// A reference that is no branch
    Ref(Seq<char>),
    /// A commit
    Commit,
    /// Nothing: the repository is bare
    Bare,
}

/// A checkout as the listing describes it: its path, its head commit, what is checked out, and
/// lines that say something else of it.
pub struct Checkout {
    pub path: Seq<char>,
    pub head: Seq<char>,
    pub out: Out,
    pub more: Seq<Seq<char>>,
}

/// Whether a line says neither where a checkout is nor what is checked out.
pub open spec fn says_else(line: Seq<char>) -> bool {
    &&& !begins(line, "worktree "@)
    &&& !begins(line, "HEAD "@)
    &&& !begins(line, "branch "@)
    &&& line != "detached"@
}

/// Whether the further lines of a checkout say something else.
pub open spec fn described(c: Checkout) -> bool {
    &&& forall|i: int| 0 <= i < c.more.len() ==> says_else(#[trigger] c.more[i])
    &&& c.out matches Out::Ref(r) ==> !begins(r, "refs/heads/"@)
}

/// The lines of a checkout in the listing.
pub open spec fn checkout_lines(c: Checkout) -> Seq<Seq<char>> {
    seq!["worktree "@ + c.path] + (match c.out {
        Out::Branch(b) => seq!["HEAD "@ + c.head, "branch "@ + ("refs/heads/"@ + b)],
        Out::Ref(r) => seq!["HEAD "@ + c.head, "branch "@ + r],
        Out::Commit => seq!["HEAD "@ + c.head, "detached"@],
        Out::Bare => seq!["bare"@],
    }) + c.more + seq![""@]
}

/// The lines of a listing.
pub open spec fn listing_lines(cs: Seq<Checkout>) -> Seq<Seq<char>>
    decreases cs.len(),
{
    if cs.len() == 0 {
        seq![]
    } else {
        listing_lines(cs.drop_last()) + checkout_lines(cs.last())
    }
}

proof fn lemma_listed_push(ls: Seq<Seq<char>>, l: Seq<char>)
    ensures
        listed(ls.push(l)) == list_line(listed(ls), l),
{
    assert(ls.push(l).drop_last() =~= ls);
}

proof fn lemma_listed_more(ls: Seq<Seq<char>>, more: Seq<Seq<char>>)
    requires
        forall|i: int| 0 <= i < more.len() ==> says_else(#[trigger] more[i]),
    ensures
        listed(ls + more) == listed(ls),
    decreases more.len(),
{
    if more.len() > 0 {
        let h = more.drop_last();
        assert forall|i: int| 0 <= i < h.len() implies says_else(#[trigger] h[i]) by {
            assert(h[i] == more[i]);
        }
        lemma_listed_more(ls, h);
        assert(says_else(more[more.len() - 1]));
        assert(ls + more =~= (ls + h).push(more.last()));
        lemma_listed_push(ls + h, more.last());
    } else {
        assert(ls + more =~= ls);
    }
}

proof fn lemma_listed_checkout(ls: Seq<Seq<char>>, c: Checkout)
    requires
        described(c),
    ensures
        ({
            let st = listed(ls + checkout_lines(c));
            &&& st.entries == finished(listed(ls))
            &&& st.path == Some(c.path)
            &&& st.branch == (match c.out {
                Out::Branch(b) => b,
                Out::Ref(r) => r,
                Out::Commit => "("@ + first_chars(c.head, 8) + ")"@,
                Out::Bare => seq![],
            })
        }),
{
    reveal_strlit("worktree ");
    reveal_strlit("HEAD ");
    reveal_strlit("branch ");
    reveal_strlit("refs/heads/");
    reveal_strlit("detached");
    reveal_strlit("bare");
    reveal_strlit("");
    let l0 = "worktree "@ + c.path;
    let s1 = ls.push(l0);
    lemma_listed_push(ls, l0);
    lemma_starts("worktree "@, c.path);
    let lh = "HEAD "@ + c.head;
    let s2 = s1.push(lh);
    lemma_listed_push(s1, lh);
    lemma_starts_otherwise(lh, "worktree "@);
    lemma_starts("HEAD "@, c.head);
    let last = match c.out {
        Out::Branch(b) => "branch "@ + ("refs/heads/"@ + b),
        Out::Ref(r) => "branch "@ + r,
        Out::Commit => "detached"@,
        Out::Bare => "bare"@,
    };
    lemma_starts_otherwise(last, "worktree "@);
    lemma_starts_otherwise(last, "HEAD "@);
    match c.out {
        Out::Branch(b) => {
            lemma_starts("branch "@, "refs/heads/"@ + b);
            lemma_starts("refs/heads/"@, b);
        },
        Out::Ref(r) => {
            lemma_starts("branch "@, r);
        },
        Out::Commit => {
            lemma_starts_otherwise(last, "branch "@);
        },
        Out::Bare => {
            assert(last[1] != "branch "@[1]);
            if begins(last, "branch "@) {
                assert(last.take("branch "@.len() as int)[1] == last[1]);
            }
            assert(last[0] != "detached"@[0]);
        },
    }
    let s3 = if c.out is Bare {
        s1.push(last)
    } else {
        s2.push(last)
    };
    lemma_listed_push(s1, last);
    lemma_listed_push(s2, last);
    lemma_listed_more(s3, c.more);
    let s4 = s3 + c.more;
    lemma_listed_push(s4, ""@);
    lemma_starts_otherwise(""@, "worktree "@);
    lemma_starts_otherwise(""@, "HEAD "@);
    lemma_starts_otherwise(""@, "branch "@);
    assert(""@.len() != "detached"@.len());
    assert(ls + checkout_lines(c) =~= s4.push(""@));
}

proof fn lemma_listing(cs: Seq<Checkout>)
    requires
        forall|i: int| 0 <= i < cs.len() ==> described(#[trigger] cs[i]),
    ensures
        ({
            let es = finished(listed(listing_lines(cs)));
            &&& es.len() == cs.len()
            &&& forall|i: int|
                0 <= i < cs.len() ==> (#[trigger] es[i]).0 == cs[i].path && es[i].1 == (
                match cs[i].out {
                    Out::Branch(b) => b,
                    Out::Ref(r) => r,
                    Out::Commit => "("@ + first_chars(cs[i].head, 8) + ")"@,
                    Out::Bare => seq![],
                })
        }),
    decreases cs.len(),
{
    if cs.len() > 0 {
        let h = cs.drop_last();
        assert forall|i: int| 0 <= i < h.len() implies described(#[trigger] h[i]) by {
            assert(h[i] == cs[i]);
        }
        lemma_listing(h);
        assert(described(cs[cs.len() - 1]));
        lemma_listed_checkout(listing_lines(h), cs.last());
        let es = finished(listed(listing_lines(cs)));
        let hs = finished(listed(listing_lines(h)));
        assert forall|i: int| 0 <= i < cs.len() implies (#[trigger] es[i]).0 == cs[i].path && es[i].1
            == (match cs[i].out {
            Out::Branch(b) => b,
            Out::Ref(r) => r,
            Out::Commit => "("@ + first_chars(cs[i].head, 8) + ")"@,
            Out::Bare => seq![],
        }) by {
            if i < h.len() {
                assert(es[i] == hs[i]);
                assert(h[i] == cs[i]);
            }
        }
    }
}

/// Every checkout of a listing is a worktree, in the order of the listing, and nothing else is:
/// its path is the one listed, slashes and blanks and all, and its branch is the whole name of the
/// branch that is checked out. Where a commit is checked out, its first eight characters stand in
/// brackets in place of a branch. The first one is the main checkout, and no other one is.
pub proof fn law_checkouts_are_listed(cs: Seq<Checkout>)
    requires
        forall|i: int| 0 <= i < cs.len() ==> described(#[trigger] cs[i]),
        all_lines(listing_lines(cs)),
    ensures
        ({
            let ws = worktrees_in(ended(listing_lines(cs), '\n'));
            &&& ws.len() == cs.len()
            &&& forall|i: int|
                0 <= i < cs.len() ==> {
                    &&& (#[trigger] ws[i]).path == cs[i].path
                    &&& ws[i].is_main == (i == 0)
                    &&& cs[i].out matches Out::Branch(b) ==> ws[i].branch == b
                    &&& cs[i].out matches Out::Ref(r) ==> ws[i].branch == r
                    &&& cs[i].out is Commit && cs[i].head.len() >= 8 ==> ws[i].branch == seq!['(']
                        + cs[i].head.take(8) + seq![')']
                    &&& cs[i].out is Bare ==> ws[i].branch.len() == 0
                }
        }),
{
    reveal_strlit("(");
    reveal_strlit(")");
    law_lines_of_ended(listing_lines(cs), seq![]);
    lemma_listing(cs);
    assert("("@ =~= seq!['(']);
    assert(")"@ =~= seq![')']);
    let ws = worktrees_in(ended(listing_lines(cs), '\n'));
    let es = finished(listed(listing_lines(cs)));
    assert forall|i: int| 0 <= i < cs.len() implies {
        &&& (#[trigger] ws[i]).path == cs[i].path
        &&& ws[i].is_main == (i == 0)
        &&& cs[i].out matches Out::Branch(b) ==> ws[i].branch == b
        &&& cs[i].out matches Out::Ref(r) ==> ws[i].branch == r
        &&& cs[i].out is Commit && cs[i].head.len() >= 8 ==> ws[i].branch == seq!['(']
            + cs[i].head.take(8) + seq![')']
        &&& cs[i].out is Bare ==> ws[i].branch.len() == 0
    } by {
        assert(ws[i].path == es[i].0 && ws[i].branch == es[i].1);
        if cs[i].head.len() == 8 {
            assert(cs[i].head.take(8) =~= cs[i].head);
        }
    }
}

// ---- Files that are not tracked --------------------------------------------------

proof fn lemma_plain_files(parts: Seq<Seq<char>>)
    ensures
        plain_files(parts) == parts.filter(|p: Seq<char>| p.len() > 0 && p[p.len() - 1] != '/'),
    decreases parts.len(),
{
    reveal(Seq::filter);
    if parts.len() > 0 {
        lemma_plain_files(parts.drop_last());
    }
}

/// Of the paths in a listing of files that are not tracked, exactly those that end in a slash are
/// left out, which are repositories in the worktree; all others stay, wherever they are, in the
/// order of the listing.
pub proof fn law_untracked_files(paths: Seq<Seq<char>>, p: Seq<char>)
    requires
        all_free_of(paths, '\0'),
        forall|i: int| 0 <= i < paths.len() ==> (#[trigger] paths[i]).len() > 0,
    ensures
        ({
            let found = plain_files(split_on(ended(paths, '\0'), '\0'));
            &&& found == paths.filter(|q: Seq<char>| q[q.len() - 1] != '/')
            &&& found.contains(p) == (paths.contains(p) && p[p.len() - 1] != '/')
            &&& (forall|i: int| 0 <= i < paths.len() ==> (#[trigger] paths[i]).last() != '/')
                ==> found == paths
        }),
{
    let whole = |q: Seq<char>| q.len() > 0 && q[q.len() - 1] != '/';
    let kept = |q: Seq<char>| q[q.len() - 1] != '/';
    let none = Seq::<char>::empty();
    law_split_of_ended(paths, '\0', none);
    assert(ended(paths, '\0') + none =~= ended(paths, '\0'));
    lemma_plain_files(paths.push(none));
    lemma_plain_files(paths);
    assert(paths.push(none).drop_last() =~= paths);
    lemma_same_filter(paths, whole, kept);
    let found = plain_files(split_on(ended(paths, '\0'), '\0'));
    assert(found == paths.filter(kept));
    broadcast use vstd::seq_lib::group_filter_ensures;

    if paths.contains(p) && kept(p) {
        let i = choose|i: int| 0 <= i < paths.len() && paths[i] == p;
        assert(kept(paths[i]));
        assert(found.contains(paths[i]));
    }
    if found.contains(p) {
        let i = choose|i: int| 0 <= i < found.len() && found[i] == p;
        assert(kept(found[i]));
        lemma_filter_from(paths, kept, i);
    }
    if forall|i: int| 0 <= i < paths.len() ==> (#[trigger] paths[i]).last() != '/' {
        lemma_filter_all(paths, kept);
    }
}

proof fn lemma_filter_from(s: Seq<Seq<char>>, f: spec_fn(Seq<char>) -> bool, i: int)
    requires
        0 <= i < s.filter(f).len(),
    ensures
        s.contains(s.filter(f)[i]),
    decreases s.len(),
{
    reveal(Seq::filter);
    if s.len() > 0 {
        let h = s.drop_last();
        let r = h.filter(f);
        if i < r.len() {
            lemma_filter_from(h, f, i);
            let k = choose|k: int| 0 <= k < h.len() && h[k] == r[i];
            assert(s[k] == r[i]);
            assert(s.filter(f)[i] == r[i]);
        } else {
            assert(s[s.len() - 1] == s.filter(f)[i]);
        }
    }
}

proof fn lemma_same_filter(
    s: Seq<Seq<char>>,
    f: spec_fn(Seq<char>) -> bool,
    g: spec_fn(Seq<char>) -> bool,
)
    requires
        forall|i: int| 0 <= i < s.len() ==> f(#[trigger] s[i]) == g(s[i]),
    ensures
        s.filter(f) == s.filter(g),
    decreases s.len(),
{
    reveal(Seq::filter);
    if s.len() > 0 {
        assert forall|i: int| 0 <= i < s.drop_last().len() implies f(#[trigger] s.drop_last()[i])
            == g(s.drop_last()[i]) by {
            assert(s.drop_last()[i] == s[i]);
        }
        lemma_same_filter(s.drop_last(), f, g);
        assert(f(s[s.len() - 1]) == g(s[s.len() - 1]));
    }
}

proof fn lemma_filter_all(s: Seq<Seq<char>>, f: spec_fn(Seq<char>) -> bool)
    requires
        forall|i: int| 0 <= i < s.len() ==> f(#[trigger] s[i]),
    ensures
        s.filter(f) == s,
    decreases s.len(),
{
    reveal(Seq::filter);
    if s.len() > 0 {
        assert forall|i: int| 0 <= i < s.drop_last().len() implies f(#[trigger] s.drop_last()[i]) by {
            assert(s.drop_last()[i] == s[i]);
        }
        lemma_filter_all(s.drop_last(), f);
        assert(f(s[s.len() - 1]));
        assert(s.drop_last().push(s.last()) =~= s);
    }
}

// ---- Commits ---------------------------------------------------------------------

/// A signed number in decimal.
pub open spec fn signed_text(n: i64) -> Seq<char> {
    if n >= 0 {
        decimal(n as nat)
    } else {
        seq!['-'] + decimal((-n) as nat)
    }
}

/// A commit as the log writes it.
pub open spec fn commit_text(c: CommitV) -> Seq<char> {
    c.sha + seq!['\u{1f}'] + c.short + seq!['\u{1f}'] + signed_text(c.time) + seq!['\u{1f}']
        + c.subject
}

/// Whether the fields of a commit do not hold the character that separates them.
pub open spec fn writable(c: CommitV) -> bool {
    &&& !c.sha.contains('\u{1f}')
    &&& !c.short.contains('\u{1f}')
    &&& !c.subject.contains('\u{1f}')
}

proof fn lemma_digits(n: nat)
    ensures
        digits_value(decimal(n)) == Some(n),
        decimal(n).len() > 0,
        forall|i: int| 0 <= i < decimal(n).len() ==> is_digit(#[trigger] decimal(n)[i]),
{
    law_decimal_reads_back(n);
}

proof fn lemma_signed_text(n: i64)
    ensures
        signed_value(signed_text(n)) == Some(n as int),
        !signed_text(n).contains('\u{1f}'),
{
    let t = signed_text(n);
    let m: nat = if n >= 0 {
        n as nat
    } else {
        (-n) as nat
    };
    let d = decimal(m);
    lemma_digits(m);
    assert(is_digit(d[0]));
    if n < 0 {
        assert(t.skip(1) =~= d);
    } else {
        assert(without_sign(d, '+') == d);
    }
    assert forall|i: int| 0 <= i < t.len() implies t[i] != '\u{1f}' by {
        if n >= 0 {
            assert(is_digit(d[i]));
        } else if i > 0 {
            assert(t[i] == d[i - 1]);
            assert(is_digit(d[i - 1]));
        }
    }
}

proof fn lemma_commit_text(c: CommitV)
    requires
        writable(c),
    ensures
        commit_of(commit_text(c)) == Some(CommitV { subject: blanked(c.subject), ..c }),
{
    let sep = '\u{1f}';
    let t = signed_text(c.time);
    lemma_signed_text(c.time);
    let ps = seq![c.sha, c.short, t];
    assert forall|i: int| 0 <= i < ps.len() implies !(#[trigger] ps[i]).contains(sep) by {}
    law_split_of_ended(ps, sep, c.subject);
    reveal_with_fuel(ended, 4);
    assert(ps.skip(1).skip(1).skip(1) =~= Seq::<Seq<char>>::empty());
    assert(ps.skip(1)[0] == c.short);
    assert(ps.skip(1).skip(1)[0] == t);
    assert(ended(ps, sep) + c.subject =~= commit_text(c));
}

proof fn lemma_commits(cs: Seq<CommitV>)
    requires
        forall|i: int| 0 <= i < cs.len() ==> writable(#[trigger] cs[i]),
    ensures
        commits_of(cs.map_values(|c: CommitV| commit_text(c))) == cs.map_values(
            |c: CommitV| CommitV { subject: blanked(c.subject), ..c },
        ),
    decreases cs.len(),
{
    let ls = cs.map_values(|c: CommitV| commit_text(c));
    let want = cs.map_values(|c: CommitV| CommitV { subject: blanked(c.subject), ..c });
    if cs.len() > 0 {
        let h = cs.drop_last();
        assert forall|i: int| 0 <= i < h.len() implies writable(#[trigger] h[i]) by {
            assert(h[i] == cs[i]);
        }
        lemma_commits(h);
        assert(writable(cs[cs.len() - 1]));
        lemma_commit_text(cs.last());
        assert(ls.drop_last() =~= h.map_values(|c: CommitV| commit_text(c)));
        assert(want =~= h.map_values(
            |c: CommitV| CommitV { subject: blanked(c.subject), ..c },
        ).push(CommitV { subject: blanked(cs.last().subject), ..cs.last() }));
    } else {
        assert(commits_of(ls) =~= want);
    }
}

/// Every commit of the log is read, in the order of the log, with its names, its time and its
/// subject, in which a blank stands for each control character.
pub proof fn law_commits_are_read(cs: Seq<CommitV>)
    requires
        forall|i: int| 0 <= i < cs.len() ==> writable(#[trigger] cs[i]),
        all_lines(cs.map_values(|c: CommitV| commit_text(c))),
    ensures
        ({
            let r = commits_in(Some(ended(cs.map_values(|c: CommitV| commit_text(c)), '\n')));
            &&& r.len() == cs.len()
            &&& forall|i: int|
                0 <= i < cs.len() ==> (#[trigger] r[i]).sha == cs[i].sha && r[i].short
                    == cs[i].short && r[i].time == cs[i].time && r[i].subject.len()
                    == cs[i].subject.len()
            &&& forall|i: int, k: int|
                0 <= i < cs.len() && 0 <= k < cs[i].subject.len() ==> #[trigger] r[i].subject[k]
                    == if (cs[i].subject[k] as u32) < 0x20 {
                    ' '
                } else {
                    cs[i].subject[k]
                }
        }),
{
    lemma_commits(cs);
    law_lines_of_ended(cs.map_values(|c: CommitV| commit_text(c)), seq![]);
}

proof fn lemma_skipped(a: Seq<Seq<char>>, bad: Seq<char>, b: Seq<Seq<char>>)
    requires
        commit_of(bad) is None,
    ensures
        commits_of(a + seq![bad] + b) == commits_of(a + b),
    decreases b.len(),
{
    let all = a + seq![bad] + b;
    if b.len() == 0 {
        assert(all.drop_last() =~= a);
        assert(all.last() == bad);
        assert(a + b =~= a);
    } else {
        lemma_skipped(a, bad, b.drop_last());
        assert(all.drop_last() =~= a + seq![bad] + b.drop_last());
        assert(all.last() == b.last());
        assert((a + b).drop_last() =~= a + b.drop_last());
        assert((a + b).last() == b.last());
    }
}

/// A line of the log that is no commit is passed over, and all others are read as without it.
pub proof fn law_other_lines_of_log(a: Seq<Seq<char>>, bad: Seq<char>, b: Seq<Seq<char>>)
    requires
        all_lines(a + b),
        all_lines(a + seq![bad] + b),
        !bad.contains('\u{1f}'),
    ensures
        commits_in(Some(ended(a + seq![bad] + b, '\n'))) == commits_in(Some(ended(a + b, '\n'))),
{
    law_lines_of_ended(a + seq![bad] + b, seq![]);
    law_lines_of_ended(a + b, seq![]);
    law_split_of_ended(seq![], '\u{1f}', bad);
    assert(ended(Seq::<Seq<char>>::empty(), '\u{1f}') + bad =~= bad);
    assert(split_on(bad, '\u{1f}').len() == 1);
    lemma_skipped(a, bad, b);
}

/// A commit without the field of a subject has an empty one.
pub proof fn law_commit_without_subject(c: CommitV)
    requires
        writable(c),
    ensures
        commit_of(c.sha + seq!['\u{1f}'] + c.short + seq!['\u{1f}'] + signed_text(c.time)) == Some(
            CommitV { subject: seq![], ..c },
        ),
{
    let sep = '\u{1f}';
    let t = signed_text(c.time);
    lemma_signed_text(c.time);
    let ps = seq![c.sha, c.short];
    assert forall|i: int| 0 <= i < ps.len() implies !(#[trigger] ps[i]).contains(sep) by {}
    law_split_of_ended(ps, sep, t);
    reveal_with_fuel(ended, 3);
    assert(ps.skip(1).skip(1) =~= Seq::<Seq<char>>::empty());
    assert(ps.skip(1)[0] == c.short);
    assert(ended(ps, sep) + t =~= c.sha + seq![sep] + c.short + seq![sep] + t);
}

// ---- Changed files ---------------------------------------------------------------

/// An entry of the status listing: the word for its status, the old path of a moved file, and
/// its path.
pub struct Change {
    pub word: Seq<char>,
    pub old: Option<Seq<char>>,
    pub path: Seq<char>,
}

/// Whether an entry is one: it has an old path exactly where it is of a moved or copied file.
pub open spec fn is_change(c: Change) -> bool {
    &&& c.word.len() > 0
    &&& c.path.len() > 0
    &&& c.old is Some <==> c.word[0] == 'R' || c.word[0] == 'C'
    &&& c.old matches Some(o) ==> o.len() > 0
}

/// The tokens of an entry.
pub open spec fn change_tokens(c: Change) -> Seq<Seq<char>> {
    match c.old {
        Some(o) => seq![c.word, o, c.path],
        None => seq![c.word, c.path],
    }
}

/// The tokens of entries.
pub open spec fn changes_tokens(cs: Seq<Change>) -> Seq<Seq<char>>
    decreases cs.len(),
{
    if cs.len() == 0 {
        seq![]
    } else {
        change_tokens(cs[0]) + changes_tokens(cs.skip(1))
    }
}

proof fn lemma_nonempty(ts: Seq<Seq<char>>)
    requires
        forall|i: int| 0 <= i < ts.len() ==> (#[trigger] ts[i]).len() > 0,
    ensures
        nonempty(ts) == ts,
    decreases ts.len(),
{
    if ts.len() > 0 {
        let h = ts.drop_last();
        assert forall|i: int| 0 <= i < h.len() implies (#[trigger] h[i]).len() > 0 by {
            assert(h[i] == ts[i]);
        }
        lemma_nonempty(h);
        assert(ts[ts.len() - 1].len() > 0);
        assert(h.push(ts.last()) =~= ts);
    }
}

proof fn lemma_changes_filled(cs: Seq<Change>)
    requires
        forall|i: int| 0 <= i < cs.len() ==> is_change(#[trigger] cs[i]),
    ensures
        forall|i: int|
            0 <= i < changes_tokens(cs).len() ==> (#[trigger] changes_tokens(cs)[i]).len() > 0,
    decreases cs.len(),
{
    if cs.len() > 0 {
        let t = cs.skip(1);
        assert forall|i: int| 0 <= i < t.len() implies is_change(#[trigger] t[i]) by {
            assert(t[i] == cs[i + 1]);
        }
        lemma_changes_filled(t);
        let head = change_tokens(cs[0]);
        let all = changes_tokens(cs);
        assert(is_change(cs[0]));
        assert forall|i: int| 0 <= i < all.len() implies (#[trigger] all[i]).len() > 0 by {
            if i >= head.len() {
                assert(all[i] == changes_tokens(t)[i - head.len()]);
            } else {
                assert(all[i] == head[i]);
            }
        }
    }
}

proof fn lemma_first_change(c: Change, rest: Seq<Seq<char>>)
    requires
        is_change(c),
    ensures
        name_status(change_tokens(c) + rest) == seq![(status_of(c.word), c.old, c.path)]
            + name_status(rest),
{
    let head = change_tokens(c);
    let all = head + rest;
    assert(all[0] == c.word);
    assert(all.skip(head.len() as int) =~= rest);
    if c.old is Some {
        assert(all[1] == c.old->0 && all[2] == c.path);
        assert(all.len() >= 3);
    } else {
        assert(all[1] == c.path);
    }
}

proof fn lemma_changes(cs: Seq<Change>)
    requires
        forall|i: int| 0 <= i < cs.len() ==> is_change(#[trigger] cs[i]),
    ensures
        name_status(changes_tokens(cs)) == cs.map_values(
            |c: Change| (status_of(c.word), c.old, c.path),
        ),
    decreases cs.len(),
{
    let read = |c: Change| (status_of(c.word), c.old, c.path);
    if cs.len() > 0 {
        let t = cs.skip(1);
        assert forall|i: int| 0 <= i < t.len() implies is_change(#[trigger] t[i]) by {
            assert(t[i] == cs[i + 1]);
        }
        lemma_changes(t);
        assert(is_change(cs[0]));
        lemma_first_change(cs[0], changes_tokens(t));
        assert(cs.map_values(read) =~= seq![read(cs[0])] + t.map_values(read));
    } else {
        assert(name_status(changes_tokens(cs)) =~= cs.map_values(read));
    }
}

/// Every entry of the status listing is read, in order: its path, the path that it was moved from
/// where it was, and its status, which the first letter of its word says.
pub proof fn law_statuses_are_read(cs: Seq<Change>)
    requires
        forall|i: int| 0 <= i < cs.len() ==> is_change(#[trigger] cs[i]),
        all_free_of(changes_tokens(cs), '\0'),
    ensures
        ({
            let r = name_status(nonempty(split_on(ended(changes_tokens(cs), '\0'), '\0')));
            &&& r.len() == cs.len()
            &&& forall|i: int|
                0 <= i < cs.len() ==> {
                    &&& (#[trigger] r[i]).2 == cs[i].path
                    &&& r[i].1 == cs[i].old
                    &&& (r[i].0 == FileStatus::Modified) == (cs[i].word[0] == 'M')
                    &&& (r[i].0 == FileStatus::Added) == (cs[i].word[0] == 'A')
                    &&& (r[i].0 == FileStatus::Deleted) == (cs[i].word[0] == 'D')
                    &&& (r[i].0 == FileStatus::Renamed) == (cs[i].word[0] == 'R' || cs[i].word[0]
                        == 'C')
                    &&& r[i].0 != FileStatus::Untracked
                }
        }),
{
    lemma_status_text(cs);
    assert forall|i: int| 0 <= i < cs.len() implies (#[trigger] cs[i]).word.len() > 0 by {
        assert(is_change(cs[i]));
    }
}

proof fn lemma_status_text(cs: Seq<Change>)
    requires
        forall|i: int| 0 <= i < cs.len() ==> is_change(#[trigger] cs[i]),
        all_free_of(changes_tokens(cs), '\0'),
    ensures
        name_status(nonempty(split_on(ended(changes_tokens(cs), '\0'), '\0'))) == cs.map_values(
            |c: Change| (status_of(c.word), c.old, c.path),
        ),
{
    let ts = changes_tokens(cs);
    let none = Seq::<char>::empty();
    law_split_of_ended(ts, '\0', none);
    assert(ended(ts, '\0') + none =~= ended(ts, '\0'));
    assert(ts.push(none).drop_last() =~= ts);
    lemma_changes_filled(cs);
    lemma_nonempty(ts);
    lemma_changes(cs);
}

/// An entry of the numbers listing: the added and removed lines, which are not counted in a
/// binary file, the old path of a moved file, and its path.
pub struct Counted {
    pub added: Option<u64>,
    pub deleted: Option<u64>,
    pub old: Option<Seq<char>>,
    pub path: Seq<char>,
}

/// A number of lines; a dash where they are not counted.
pub open spec fn lines_text(n: Option<u64>) -> Seq<char> {
    match n {
        Some(n) => decimal(n as nat),
        None => seq!['-'],
    }
}

/// The tokens of an entry.
pub open spec fn counted_tokens(c: Counted) -> Seq<Seq<char>> {
    let numbers = lines_text(c.added) + seq!['\t'] + lines_text(c.deleted) + seq!['\t'];
    match c.old {
        Some(o) => seq![numbers, o, c.path],
        None => seq![numbers + c.path],
    }
}

/// The tokens of entries.
pub open spec fn all_counted_tokens(cs: Seq<Counted>) -> Seq<Seq<char>>
    decreases cs.len(),
{
    if cs.len() == 0 {
        seq![]
    } else {
        counted_tokens(cs[0]) + all_counted_tokens(cs.skip(1))
    }
}

proof fn lemma_lines_text(n: Option<u64>)
    ensures
        count_of(lines_text(n)) == n,
        !lines_text(n).contains('\t'),
{
    let t = lines_text(n);
    match n {
        Some(k) => {
            lemma_digits(k as nat);
            assert(is_digit(t[0]));
            assert(without_sign(t, '+') == t);
            assert forall|i: int| 0 <= i < t.len() implies t[i] != '\t' by {
                assert(is_digit(t[i]));
            }
        },
        None => {
            assert(without_sign(t, '+') == t);
            assert(!is_digit(t[0]));
        },
    }
}

proof fn lemma_three(a: Seq<char>, b: Seq<char>, rest: Seq<char>)
    requires
        !a.contains('\t'),
        !b.contains('\t'),
    ensures
        three_fields(a + seq!['\t'] + b + seq!['\t'] + rest) == Some((a, b, rest)),
{
    let t = b + seq!['\t'] + rest;
    lemma_first_end(a, '\t', t);
    lemma_first_end(b, '\t', rest);
    assert(a + seq!['\t'] + b + seq!['\t'] + rest =~= a + seq!['\t'] + t);
}

proof fn lemma_counted(cs: Seq<Counted>)
    requires
        forall|i: int| 0 <= i < cs.len() ==> (#[trigger] cs[i]).path.len() > 0,
    ensures
        numstat(all_counted_tokens(cs).push(seq![])) == cs.map_values(
            |c: Counted| (c.path, c.added, c.deleted),
        ),
    decreases cs.len(),
{
    let none = Seq::<char>::empty();
    let want = cs.map_values(|c: Counted| (c.path, c.added, c.deleted));
    let all = all_counted_tokens(cs).push(none);
    if cs.len() == 0 {
        reveal_with_fuel(numstat, 2);
        assert(all =~= seq![none]);
        assert(all.skip(1) =~= Seq::<Seq<char>>::empty());
        assert(numstat(all) =~= want);
    } else {
        let c = cs[0];
        let t = cs.skip(1);
        assert forall|i: int| 0 <= i < t.len() implies (#[trigger] t[i]).path.len() > 0 by {
            assert(t[i] == cs[i + 1]);
        }
        lemma_counted(t);
        assert(cs[0].path.len() > 0);
        lemma_lines_text(c.added);
        lemma_lines_text(c.deleted);
        let head = counted_tokens(c);
        let numbers = lines_text(c.added) + seq!['\t'] + lines_text(c.deleted) + seq!['\t'];
        let rest = all_counted_tokens(t).push(none);
        assert(all.skip(head.len() as int) =~= rest);
        assert(all[0] == head[0]);
        assert(want =~= seq![(c.path, c.added, c.deleted)] + t.map_values(
            |c: Counted| (c.path, c.added, c.deleted),
        ));
        if c.old is Some {
            lemma_three(lines_text(c.added), lines_text(c.deleted), none);
            assert(numbers + none =~= numbers);
            assert(all[2] == head[2]);
        } else {
            lemma_three(lines_text(c.added), lines_text(c.deleted), c.path);
        }
    }
}

/// Every entry of the numbers listing is read, in order: its path, which is the new one of a moved
/// file, and its added and its removed lines, where they are counted.
pub proof fn law_numbers_are_read(cs: Seq<Counted>)
    requires
        forall|i: int| 0 <= i < cs.len() ==> (#[trigger] cs[i]).path.len() > 0,
        all_free_of(all_counted_tokens(cs), '\0'),
    ensures
        ({
            let r = numstat(split_on(ended(all_counted_tokens(cs), '\0'), '\0'));
            &&& r.len() == cs.len()
            &&& forall|i: int|
                0 <= i < cs.len() ==> #[trigger] r[i] == (cs[i].path, cs[i].added, cs[i].deleted)
        }),
{
    let ts = all_counted_tokens(cs);
    let none = Seq::<char>::empty();
    law_split_of_ended(ts, '\0', none);
    assert(ended(ts, '\0') + none =~= ended(ts, '\0'));
    lemma_counted(cs);
}

/// The counts of a path are those of its last entry; a path without one has none.
pub proof fn law_counts_by_path(stats: Seq<NumstatV>, path: Seq<char>, i: int)
    ensures
        0 <= i < stats.len() && stats[i].0 == path && (forall|j: int|
            i < j < stats.len() ==> (#[trigger] stats[j]).0 != path) ==> counts_of(stats, path) == (
            stats[i].1,
            stats[i].2,
        ),
        (forall|j: int| 0 <= j < stats.len() ==> (#[trigger] stats[j]).0 != path) ==> counts_of(
            stats,
            path,
        ) == (None::<u64>, None::<u64>),
    decreases stats.len(),
{
    if stats.len() > 0 {
        let h = stats.drop_last();
        law_counts_by_path(h, path, i);
        assert forall|j: int| 0 <= j < h.len() implies #[trigger] h[j] == stats[j] by {}
        assert(stats[stats.len() - 1] == stats.last());
    }
}

proof fn lemma_sorted_holds(v: Seq<FileV>, f: FileV)
    ensures
        sorted(v).contains(f) == v.contains(f),
{
    law_sorted(v);
    broadcast use vstd::seq_lib::group_to_multiset_ensures;

    assert(v.to_multiset().count(f) > 0 <==> v.contains(f));
    assert(sorted(v).to_multiset().count(f) > 0 <==> sorted(v).contains(f));
}

/// The changed files are, in the order of their paths, all that the listings name and nothing
/// else. A tracked file has the path, the old path and the status of its entry, and the counts
/// that the numbers listing has for its path. A file that is not tracked counts as added, with
/// all its lines, and nothing is removed from it.
pub proof fn law_changed_files(
    cs: Seq<Change>,
    ns: Seq<Counted>,
    untracked: Seq<(Seq<char>, Option<u64>)>,
    f: FileV,
)
    requires
        forall|i: int| 0 <= i < cs.len() ==> is_change(#[trigger] cs[i]),
        all_free_of(changes_tokens(cs), '\0'),
        forall|i: int| 0 <= i < ns.len() ==> (#[trigger] ns[i]).path.len() > 0,
        all_free_of(all_counted_tokens(ns), '\0'),
    ensures
        ({
            let r = changed(
                ended(changes_tokens(cs), '\0'),
                ended(all_counted_tokens(ns), '\0'),
                untracked,
            );
            &&& r.len() == cs.len() + untracked.len()
            &&& in_order(r)
            &&& r.contains(f) <==> {
                ||| exists|i: int|
                    0 <= i < cs.len() && (#[trigger] cs[i]).path == f.path && cs[i].old
                        == f.old_path && status_of(cs[i].word) == f.status && (f.added, f.deleted)
                        == counts_of(
                        ns.map_values(|c: Counted| (c.path, c.added, c.deleted)),
                        f.path,
                    )
                ||| exists|i: int|
                    0 <= i < untracked.len() && (#[trigger] untracked[i]).0 == f.path && f.old_path
                        is None && f.status == FileStatus::Untracked && f.added == untracked[i].1
                        && f.deleted == (if untracked[i].1 is Some {
                        Some(0u64)
                    } else {
                        None
                    })
            }
        }),
{
    let names = cs.map_values(|c: Change| (status_of(c.word), c.old, c.path));
    let stats = ns.map_values(|c: Counted| (c.path, c.added, c.deleted));
    lemma_status_text(cs);
    law_numbers_are_read(ns);
    assert(numstat(split_on(ended(all_counted_tokens(ns), '\0'), '\0')) =~= stats);
    let v = listed_files(names, stats, untracked);
    law_sorted(v);
    lemma_sorted_holds(v, f);
    assert forall|i: int| 0 <= i < cs.len() implies #[trigger] v[i] == file_of(
        (status_of(cs[i].word), cs[i].old, cs[i].path),
        stats,
    ) by {}
    assert forall|i: int| 0 <= i < untracked.len() implies v[cs.len() + i] == untracked_file(
        (#[trigger] untracked[i]).0,
        untracked[i].1,
    ) by {}
    if v.contains(f) {
        let k = choose|k: int| 0 <= k < v.len() && v[k] == f;
        if k < cs.len() {
            assert(cs[k].path == f.path);
        } else {
            assert(v[cs.len() + (k - cs.len())] == f);
            assert(untracked[k - cs.len()].0 == f.path);
        }
    }
    if exists|i: int|
        0 <= i < cs.len() && (#[trigger] cs[i]).path == f.path && cs[i].old == f.old_path
            && status_of(cs[i].word) == f.status && (f.added, f.deleted) == counts_of(
            stats,
            f.path,
        ) {
        let i = choose|i: int|
            0 <= i < cs.len() && (#[trigger] cs[i]).path == f.path && cs[i].old == f.old_path
                && status_of(cs[i].word) == f.status && (f.added, f.deleted) == counts_of(
                stats,
                f.path,
            );
        assert(v[i] == f);
    }
    if exists|i: int|
        0 <= i < untracked.len() && (#[trigger] untracked[i]).0 == f.path && f.old_path is None
            && f.status == FileStatus::Untracked && f.added == untracked[i].1 && f.deleted == (
        if untracked[i].1 is Some {
            Some(0u64)
        } else {
            None
        }) {
        let i = choose|i: int|
            0 <= i < untracked.len() && (#[trigger] untracked[i]).0 == f.path && f.old_path is None
                && f.status == FileStatus::Untracked && f.added == untracked[i].1 && f.deleted == (
            if untracked[i].1 is Some {
                Some(0u64)
            } else {
                None
            });
        assert(v[cs.len() + i] == f);
    }
}

/// The lines of a file that is not tracked are counted by their line feeds, wherever these are;
/// a file with a zero byte near its start is binary and is not counted, and no other one is.
pub proof fn law_lines_are_counted(a: Seq<u8>, b: Seq<u8>, c: u8)
    ensures
        newlines(a + b) == newlines(a) + newlines(b),
        newlines(seq![]) == 0,
        c == 10 ==> newlines(seq![c]) == 1,
        c != 10 ==> newlines(seq![c]) == 0,
        line_count(None) is None,
        line_count(Some(a)) is None <==> exists|i: int|
            0 <= i < a.len() && i < 8192 && #[trigger] a[i] == 0,
        newlines(a) <= u64::MAX ==> (line_count(Some(a)) matches Some(n) ==> n == newlines(a)),
    decreases b.len(),
{
    reveal_with_fuel(newlines, 2);
    assert(seq![c].drop_last() =~= Seq::<u8>::empty());
    if b.len() == 0 {
        assert(a + b =~= a);
    } else {
        law_lines_are_counted(a, b.drop_last(), c);
        assert((a + b).drop_last() =~= a + b.drop_last());
    }
}

} // verus!
