//! What paths, watching and command lines come to, told by texts and times.

use crate::opener::{command, filled, line_of, untilded};
use crate::pace::{due, noted, Pace};
use crate::paths::{components, is_absolute, joined_path, lies_in, name_of, named_parts};
use crate::refresh::spawn_error;
use crate::text::{begins, decimal, is_digit, law_decimal_reads_back, replaced, split_on};
use crate::text_laws::{all_free_of, ended, law_split_of_ended, law_split_rejoins};
use crate::watcher::{git_internal, wanted};
use vstd::prelude::*;

verus! {

// ---- Paths -----------------------------------------------------------------------

/// Parts with a slash between any two.
pub open spec fn slashed(parts: Seq<Seq<char>>) -> Seq<char> {
    ended(parts.drop_last(), '/') + parts.last()
}

/// Whether a part of a path names something.
pub open spec fn names_something(part: Seq<char>) -> bool {
    part.len() > 0 && part != seq!['.']
}

proof fn lemma_named_parts(parts: Seq<Seq<char>>)
    ensures
        named_parts(parts) == parts.filter(|p: Seq<char>| names_something(p)),
    decreases parts.len(),
{
    reveal(Seq::filter);
    reveal_strlit("");
    reveal_strlit(".");
    assert("."@ =~= seq!['.']);
    if parts.len() > 0 {
        lemma_named_parts(parts.drop_last());
        assert(parts.last() == ""@ <==> parts.last().len() == 0) by {
            if parts.last().len() == 0 {
                assert(parts.last() =~= ""@);
            }
        }
    }
}

proof fn lemma_slashed(parts: Seq<Seq<char>>)
    requires
        parts.len() > 0,
        all_free_of(parts, '/'),
    ensures
        split_on(slashed(parts), '/') == parts,
        is_absolute(slashed(parts)) == (parts.len() > 1 && parts[0].len() == 0),
{
    let h = parts.drop_last();
    assert forall|i: int| 0 <= i < h.len() implies !(#[trigger] h[i]).contains('/') by {
        assert(h[i] == parts[i]);
    }
    law_split_of_ended(h, '/', parts.last());
    assert(h.push(parts.last()) =~= parts);
    let s = slashed(parts);
    if h.len() > 0 {
        assert(parts[0] == h[0]);
        assert(ended(h, '/') == h[0] + seq!['/'] + ended(h.skip(1), '/'));
        if h[0].len() == 0 {
            assert(s[0] == '/');
        } else {
            assert(s[0] == h[0][0]);
            assert(!h[0].contains('/'));
        }
    } else {
        assert(s =~= parts[0]);
        if s.len() > 0 {
            assert(parts[0][0] == s[0]);
            assert(!parts[0].contains('/'));
        }
    }
}

/// The components of a path are its parts between slashes that name something, in order. In front
/// stands the root where the path begins with a slash, or the dot that it begins with.
pub proof fn law_components(parts: Seq<Seq<char>>)
    requires
        parts.len() > 0,
        all_free_of(parts, '/'),
    ensures
        ({
            let named = parts.filter(|p: Seq<char>| names_something(p));
            let c = components(slashed(parts));
            &&& parts.len() > 1 && parts[0].len() == 0 ==> c == seq![seq!['/']] + named
            &&& parts[0] == seq!['.'] ==> c == seq![seq!['.']] + named
            &&& parts[0].len() > 0 && parts[0] != seq!['.'] ==> c == named
            &&& parts.len() == 1 && parts[0].len() == 0 ==> c.len() == 0
        }),
{
    lemma_slashed(parts);
    lemma_named_parts(parts);
    reveal_strlit("/");
    reveal_strlit(".");
    assert("."@ =~= seq!['.']);
    assert("/"@ =~= seq!['/']);
    if parts.len() == 1 && parts[0].len() == 0 {
        reveal(Seq::filter);
        assert(parts.drop_last() =~= Seq::<Seq<char>>::empty());
        assert(named_parts(parts.drop_last()).len() == 0);
        reveal_strlit("");
        assert(parts.last() =~= ""@);
    }
}

proof fn lemma_ended_joins(a: Seq<Seq<char>>, b: Seq<Seq<char>>, end: char)
    ensures
        ended(a + b, end) == ended(a, end) + ended(b, end),
    decreases a.len(),
{
    if a.len() == 0 {
        assert(a + b =~= b);
        assert(ended(a, end) + ended(b, end) =~= ended(b, end));
    } else {
        assert((a + b).skip(1) =~= a.skip(1) + b);
        lemma_ended_joins(a.skip(1), b, end);
        assert(ended(a + b, end) =~= ended(a, end) + ended(b, end));
    }
}

pub proof fn lemma_split_joins(a: Seq<char>, b: Seq<char>)
    ensures
        split_on(a + seq!['/'] + b, '/') == split_on(a, '/') + split_on(b, '/'),
{
    let x = split_on(a, '/');
    let y = split_on(b, '/');
    law_split_rejoins(a, '/');
    law_split_rejoins(b, '/');
    let all = x + y;
    assert forall|i: int| 0 <= i < all.len() implies !(#[trigger] all[i]).contains('/') by {
        if i < x.len() {
            assert(all[i] == x[i]);
        } else {
            assert(all[i] == y[i - x.len()]);
        }
    }
    lemma_slashed(all);
    lemma_ended_joins(x, y, '/');
    let h = all.drop_last();
    lemma_ended_joins(h, seq![all.last()], '/');
    assert(h + seq![all.last()] =~= all);
    let one = seq![all.last()];
    assert(one.skip(1) =~= Seq::<Seq<char>>::empty());
    assert(ended(one.skip(1), '/') =~= Seq::<char>::empty());
    assert(ended(one, '/') =~= one[0] + seq!['/'] + ended(one.skip(1), '/'));
    assert(ended(one, '/') =~= all.last() + seq!['/']);
    let s = a + seq!['/'] + b;
    assert(ended(all, '/') =~= s.push('/'));
    assert(slashed(all).push('/') =~= ended(all, '/'));
    assert(slashed(all) =~= slashed(all).push('/').drop_last());
    assert(s =~= s.push('/').drop_last());
}

proof fn lemma_named_joins(a: Seq<Seq<char>>, b: Seq<Seq<char>>)
    ensures
        named_parts(a + b) == named_parts(a) + named_parts(b),
    decreases b.len(),
{
    if b.len() == 0 {
        assert(a + b =~= a);
        assert(named_parts(a) + named_parts(b) =~= named_parts(a));
    } else {
        assert((a + b).drop_last() =~= a + b.drop_last());
        lemma_named_joins(a, b.drop_last());
        assert(named_parts(a + b) =~= named_parts(a) + named_parts(b));
    }
}

/// What is named in a directory has the components of the directory, and its name as the last.
pub proof fn law_component_below(dir: Seq<char>, name: Seq<char>)
    requires
        dir.len() > 0,
        names_something(name),
        !name.contains('/'),
    ensures
        components(dir + seq!['/'] + name) == components(dir).push(name),
{
    let p = dir + seq!['/'] + name;
    lemma_split_joins(dir, name);
    law_split_of_ended(seq![], '/', name);
    assert(ended(Seq::<Seq<char>>::empty(), '/') + name =~= name);
    let x = split_on(dir, '/');
    assert(split_on(name, '/') =~= seq![name]);
    lemma_named_joins(x, seq![name]);
    lemma_named_parts(seq![name]);
    reveal_strlit("");
    reveal_strlit(".");
    assert("."@ =~= seq!['.']);
    assert(seq![name].drop_last() =~= Seq::<Seq<char>>::empty());
    assert(named_parts(seq![name]) =~= seq![name]);
    law_split_rejoins(dir, '/');
    assert(x.len() > 0) by {
        if x.len() == 0 {
            assert(ended(x, '/').len() == 0);
        }
    }
    assert(split_on(p, '/')[0] == x[0]);
    assert(p[0] == dir[0]);
    assert(components(p) =~= components(dir).push(name));
}

/// What stands below a directory lies in it. What stands beside it does not, even where one name
/// begins with the other.
pub proof fn law_below_and_beside(dir: Seq<char>, x: Seq<char>, y: Seq<char>)
    requires
        dir.len() > 0,
        names_something(x),
        names_something(y),
        !x.contains('/'),
        !y.contains('/'),
        x != y,
    ensures
        lies_in(dir + seq!['/'] + x, dir),
        !lies_in(dir, dir + seq!['/'] + x),
        !lies_in(dir + seq!['/'] + x, dir + seq!['/'] + y),
{
    law_component_below(dir, x);
    law_component_below(dir, y);
    let c = components(dir);
    assert(c.push(x).take(c.len() as int) =~= c);
    assert(c.push(x)[c.len() as int] != c.push(y)[c.len() as int]);
}

/// The name of what stands in a directory is what stands behind the last slash.
pub proof fn law_name(dir: Seq<char>, name: Seq<char>)
    requires
        dir.len() > 0,
        names_something(name),
        name != seq!['.', '.'],
        !name.contains('/'),
    ensures
        name_of(dir + seq!['/'] + name) == Some(name),
{
    law_component_below(dir, name);
    reveal_strlit("/");
    reveal_strlit(".");
    reveal_strlit("..");
    assert("."@ =~= seq!['.']);
    assert(".."@ =~= seq!['.', '.']);
    if name == "/"@ {
        assert(name[0] == '/');
        assert(name.contains('/'));
    }
}

/// An absolute path is the same seen from anywhere. Another one stands behind the directory, with
/// one slash between the two.
pub proof fn law_join(dir: Seq<char>, p: Seq<char>)
    ensures
        joined_path(dir, seq!['/'] + p) == seq!['/'] + p,
        p.len() == 0 || p[0] != '/' ==> joined_path(dir + seq!['/'], p) == dir + seq!['/'] + p,
        (p.len() == 0 || p[0] != '/') && dir.len() > 0 && dir.last() != '/' ==> joined_path(dir, p)
            == dir + seq!['/'] + p,
{
}

// ---- Watching --------------------------------------------------------------------

/// A path is git's own exactly where one of its parts is `.git`, not where one merely begins
/// with it.
pub proof fn law_git_internal(parts: Seq<Seq<char>>)
    requires
        parts.len() > 0,
        all_free_of(parts, '/'),
    ensures
        git_internal(slashed(parts)) == parts.contains(seq!['.', 'g', 'i', 't']),
{
    broadcast use vstd::seq_lib::group_filter_ensures;

    law_components(parts);
    reveal_strlit(".git");
    let g = seq!['.', 'g', 'i', 't'];
    assert(".git"@ =~= g);
    let f = |p: Seq<char>| names_something(p);
    let named = parts.filter(f);
    assert(g.len() == 4 && seq!['/'].len() == 1 && seq!['.'].len() == 1);
    assert(f(g));
    let c = components(slashed(parts));
    if parts.contains(g) {
        let i = choose|i: int| 0 <= i < parts.len() && parts[i] == g;
        assert(named.contains(parts[i]));
        let k = choose|k: int| 0 <= k < named.len() && named[k] == g;
        assert(parts.len() > 1 || parts[0].len() > 0);
        if parts.len() > 1 && parts[0].len() == 0 || parts[0] == seq!['.'] {
            assert(c[k + 1] == g);
        } else {
            assert(c[k] == g);
        }
    }
    if c.contains(g) {
        let k = choose|k: int| 0 <= k < c.len() && c[k] == g;
        if parts.len() > 1 && parts[0].len() == 0 || parts[0] == seq!['.'] {
            assert(k > 0);
            assert(named[k - 1] == g);
            lemma_kept_is_there(parts, f, k - 1);
        } else {
            assert(named[k] == g);
            lemma_kept_is_there(parts, f, k);
        }
    }
}

proof fn lemma_kept_is_there(v: Seq<Seq<char>>, f: spec_fn(Seq<char>) -> bool, k: int)
    requires
        0 <= k < v.filter(f).len(),
    ensures
        v.contains(v.filter(f)[k]),
    decreases v.len(),
{
    reveal(Seq::filter);
    let h = v.drop_last();
    if k < h.filter(f).len() {
        lemma_kept_is_there(h, f, k);
        let i = choose|i: int| 0 <= i < h.len() && h[i] == h.filter(f)[k];
        assert(v[i] == h[i]);
    } else {
        assert(v[v.len() - 1] == v.filter(f)[k]);
    }
}

/// Nothing is watched but the top of the repository and worktrees that lie outside of it.
pub proof fn law_nothing_else_is_watched(
    top: Seq<char>,
    worktrees: Seq<Seq<char>>,
    c: Seq<Seq<char>>,
)
    requires
        wanted(top, worktrees).contains(c),
    ensures
        c == components(top) || exists|i: int|
            0 <= i < worktrees.len() && components(#[trigger] worktrees[i]) == c && !lies_in(
                worktrees[i],
                top,
            ),
    decreases worktrees.len(),
{
    if worktrees.len() > 0 {
        let h = worktrees.drop_last();
        if wanted(top, h).contains(c) {
            law_nothing_else_is_watched(top, h, c);
            if c != components(top) {
                let i = choose|i: int|
                    0 <= i < h.len() && components(#[trigger] h[i]) == c && !lies_in(h[i], top);
                assert(worktrees[i] == h[i]);
            }
        } else {
            assert(worktrees[worktrees.len() - 1] == worktrees.last());
        }
    }
}

// ---- Times -----------------------------------------------------------------------

/// While a change has been pending since `t`, it is time to look from a quarter of a second after
/// `t`, or where the last look is as long ago as configured, at least half a second. Further signs
/// of a change do not put that off.
pub proof fn law_time_to_look(last: u64, t: u64, now: u64, dirty: bool, poll_ms: u64)
    requires
        t <= now,
        last <= now,
    ensures
        due(Pace { last_refresh: last, pending: Some(t) }, now, dirty, poll_ms) == (now - t >= 250
            || (now - last >= poll_ms && now - last >= 500)),
        noted(Some(t), now, dirty) == Some(t),
{
}

/// The first sign of a change is noted with its time and is no reason to look at once. Without a
/// sign nothing is noted.
pub proof fn law_first_sign(last: u64, now: u64, dirty: bool, poll_ms: u64)
    requires
        last <= now,
    ensures
        noted(None, now, true) == Some(now),
        noted(None, now, false) is None,
        due(Pace { last_refresh: last, pending: None }, now, dirty, poll_ms) == (now - last
            >= poll_ms && now - last >= 500),
{
}

// ---- Command lines ---------------------------------------------------------------

/// Whether a text holds no opening brace.
pub open spec fn braceless(s: Seq<char>) -> bool {
    forall|i: int| 0 <= i < s.len() ==> #[trigger] s[i] != '{'
}

/// The home directory stands for a tilde in front of a slash, where it is known. Elsewhere a word
/// stays as it is.
pub proof fn law_tilde(home: Seq<char>, rest: Seq<char>, word: Seq<char>)
    ensures
        untilded(seq!['~', '/'] + rest, Some(home)) == home + seq!['/'] + rest,
        untilded(word, None) == word,
        word.len() < 2 || word[0] != '~' || word[1] != '/' ==> untilded(word, Some(home)) == word,
{
    reveal_strlit("~/");
    reveal_strlit("/");
    assert("/"@ =~= seq!['/']);
    assert("~/"@ =~= seq!['~', '/']);
    let s = seq!['~', '/'] + rest;
    assert(s.take(2) =~= "~/"@);
    assert(s.skip(2) =~= rest);
    if begins(word, "~/"@) {
        assert(word.take(2)[0] == word[0] && word.take(2)[1] == word[1]);
    }
}

proof fn lemma_braceless_start(a: Seq<char>, rest: Seq<char>, p: Seq<char>, w: Seq<char>)
    requires
        braceless(a),
        p.len() > 0,
        p[0] == '{',
    ensures
        replaced(a + rest, p, w) == a + replaced(rest, p, w),
    decreases a.len(),
{
    let s = a + rest;
    if a.len() == 0 {
        assert(s =~= rest);
        assert(a + replaced(rest, p, w) =~= replaced(rest, p, w));
    } else {
        assert(s[0] == a[0]);
        if begins(s, p) {
            assert(s.take(p.len() as int)[0] == s[0]);
        }
        assert forall|i: int| 0 <= i < a.skip(1).len() implies #[trigger] a.skip(1)[i] != '{' by {
            assert(a.skip(1)[i] == a[i + 1]);
        }
        lemma_braceless_start(a.skip(1), rest, p, w);
        assert(s.skip(1) =~= a.skip(1) + rest);
        assert(replaced(s, p, w) =~= a + replaced(rest, p, w));
    }
}

/// A placeholder that is asked for is replaced, and what goes on behind it.
proof fn lemma_replaced_here(p: Seq<char>, rest: Seq<char>, w: Seq<char>)
    requires
        p.len() > 0,
    ensures
        replaced(p + rest, p, w) == w + replaced(rest, p, w),
{
    let s = p + rest;
    assert(s.take(p.len() as int) =~= p);
    assert(s.skip(p.len() as int) =~= rest);
}

/// Another placeholder stays.
proof fn lemma_other_stays(q: Seq<char>, rest: Seq<char>, p: Seq<char>, w: Seq<char>)
    requires
        q.len() > 1,
        p.len() > 1,
        p[0] == '{',
        q[0] == '{',
        q[1] != p[1],
        braceless(q.skip(1)),
    ensures
        replaced(q + rest, p, w) == q + replaced(rest, p, w),
{
    let s = q + rest;
    if begins(s, p) {
        assert(s.take(p.len() as int)[1] == s[1]);
        assert(s[1] == q[1]);
    }
    assert(s.skip(1) =~= q.skip(1) + rest);
    assert(s[0] == q[0]);
    lemma_braceless_start(q.skip(1), rest, p, w);
    assert(replaced(s, p, w) =~= q + replaced(rest, p, w));
}

/// A placeholder and what it is filled in with.
pub open spec fn stands_for(
    p: Seq<char>,
    w: Seq<char>,
    file: Seq<char>,
    line: Option<u32>,
    worktree: Seq<char>,
    repo: Seq<char>,
) -> bool {
    ||| p == "{file}"@ && w == file
    ||| p == "{line}"@ && line is Some && w == decimal(line->0 as nat)
    ||| p == "{line}"@ && line is None && w == seq!['1']
    ||| p == "{worktree}"@ && w == worktree
    ||| p == "{repo}"@ && w == repo
}

proof fn lemma_digits_braceless(n: nat)
    ensures
        braceless(decimal(n)),
{
    law_decimal_reads_back(n);
    assert forall|i: int| 0 <= i < decimal(n).len() implies #[trigger] decimal(n)[i] != '{' by {
        assert(is_digit(decimal(n)[i]));
    }
}

/// In a word, each placeholder gives way to what it stands for, and what stands before and behind
/// it stays: `{file}` to the file, `{line}` to the line or 1, `{worktree}` and `{repo}` to their
/// directories.
#[verifier::rlimit(60)]
pub proof fn law_placeholders(
    a: Seq<char>,
    p: Seq<char>,
    w: Seq<char>,
    rest: Seq<char>,
    file: Seq<char>,
    line: Option<u32>,
    worktree: Seq<char>,
    repo: Seq<char>,
)
    requires
        stands_for(p, w, file, line, worktree, repo),
        braceless(a),
        p != "{line}"@ ==> braceless(w),
    ensures
        filled(a + p + rest, None, file, line, worktree, repo) == a + w + filled(
            rest,
            None,
            file,
            line,
            worktree,
            repo,
        ),
{
    reveal_strlit("{file}");
    reveal_strlit("{line}");
    reveal_strlit("{worktree}");
    reveal_strlit("{repo}");
    let ps = seq!["{file}"@, "{line}"@, "{worktree}"@, "{repo}"@];
    let ws = seq![file, decimal(line_of(line)), worktree, repo];
    assert(decimal(1) =~= seq!['1']);
    lemma_digits_braceless(line_of(line));
    let t0 = rest;
    let t1 = replaced(t0, ps[0], ws[0]);
    let t2 = replaced(t1, ps[1], ws[1]);
    let t3 = replaced(t2, ps[2], ws[2]);
    let t4 = replaced(t3, ps[3], ws[3]);
    let k: int = if p == ps[0] {
        0
    } else if p == ps[1] {
        1
    } else if p == ps[2] {
        2
    } else {
        3
    };
    assert(ps[0][1] == 'f' && ps[1][1] == 'l' && ps[2][1] == 'w' && ps[3][1] == 'r');
    assert(p == ps[k] && w == ws[k]);
    lemma_fill_step(a, ps[k], w, t0, ps[0], ws[0], k == 0, false);
    lemma_fill_step(a, ps[k], w, t1, ps[1], ws[1], k == 1, k < 1);
    lemma_fill_step(a, ps[k], w, t2, ps[2], ws[2], k == 2, k < 2);
    lemma_fill_step(a, ps[k], w, t3, ps[3], ws[3], k == 3, k < 3);
}

/// One round of filling in: `done` says that the placeholder was filled in before, `here` that it
/// is filled in now.
proof fn lemma_fill_step(
    a: Seq<char>,
    p: Seq<char>,
    w: Seq<char>,
    rest: Seq<char>,
    q: Seq<char>,
    v: Seq<char>,
    here: bool,
    done: bool,
)
    requires
        braceless(a),
        braceless(w),
        p.len() > 1,
        q.len() > 1,
        p[0] == '{',
        q[0] == '{',
        braceless(p.skip(1)),
        here ==> p == q && v == w,
        !here && !done ==> p[1] != q[1],
    ensures
        !done && here ==> replaced(a + p + rest, q, v) == a + w + replaced(rest, q, v),
        !done && !here ==> replaced(a + p + rest, q, v) == a + p + replaced(rest, q, v),
        done ==> replaced(a + w + rest, q, v) == a + w + replaced(rest, q, v),
{
    if done {
        assert(a + w + rest =~= a + (w + rest));
        lemma_braceless_start(a, w + rest, q, v);
        lemma_braceless_start(w, rest, q, v);
        assert(a + (w + replaced(rest, q, v)) =~= a + w + replaced(rest, q, v));
    } else {
        assert(a + p + rest =~= a + (p + rest));
        lemma_braceless_start(a, p + rest, q, v);
        if here {
            lemma_replaced_here(p, rest, w);
            assert(a + (w + replaced(rest, q, v)) =~= a + w + replaced(rest, q, v));
        } else {
            lemma_other_stays(p, rest, q, v);
            assert(a + (p + replaced(rest, q, v)) =~= a + p + replaced(rest, q, v));
        }
    }
}

/// Each word of a command is filled in by itself, in order.
pub proof fn law_words_filled(
    cmd: Seq<Seq<char>>,
    home: Option<Seq<char>>,
    file: Seq<char>,
    line: Option<u32>,
    worktree: Seq<char>,
    repo: Seq<char>,
)
    ensures
        ({
            let c = command(cmd, home, file, line, worktree, repo);
            &&& c.len() == cmd.len()
            &&& forall|i: int|
                0 <= i < cmd.len() ==> #[trigger] c[i] == filled(
                    cmd[i],
                    home,
                    file,
                    line,
                    worktree,
                    repo,
                )
        }),
{
}

/// The home directory is put in before placeholders are filled in.
pub proof fn law_home_then_placeholders(
    rest: Seq<char>,
    home: Seq<char>,
    file: Seq<char>,
    line: Option<u32>,
    worktree: Seq<char>,
    repo: Seq<char>,
)
    ensures
        filled(seq!['~', '/'] + rest, Some(home), file, line, worktree, repo) == filled(
            home + seq!['/'] + rest,
            None,
            file,
            line,
            worktree,
            repo,
        ),
{
    law_tilde(home, rest, rest);
}

/// What is said of a command that could not be started: which one, and why.
pub proof fn law_spawn_error(cmd: Seq<char>, error: Seq<char>)
    ensures
        spawn_error(cmd, error) == "failed to spawn "@ + cmd + ": "@ + error,
{
}

} // verus!
