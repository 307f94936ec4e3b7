//! Command lines that open a file.

use crate::config::Opener;
use crate::text::{begins, cat, dec, decimal, opt_str, replace, replaced, strip_prefix, strs};
use vstd::prelude::*;
use vstd::string::*;

verus! {

/// What a command template is filled in with.
#[derive(Debug)]
pub struct OpenCtx<'a> {
    pub file: &'a str,
    pub line: Option<u32>,
    pub worktree: &'a str,
    pub repo: &'a str,
}

/// `s` with the home directory for a leading tilde, where there is a home directory.
pub open spec fn untilded(s: Seq<char>, home: Option<Seq<char>>) -> Seq<char> {
    match home {
        Some(h) => if begins(s, "~/"@) {
            h + "/"@ + s.skip("~/"@.len() as int)
        } else {
            s
        },
        None => s,
    }
}

/// Put the home directory for a leading tilde.
pub fn expand_tilde(s: &str, home: &Option<String>) -> (r: String)
    ensures
        r@ == untilded(s@, opt_str(*home)),
{
    if let Some(h) = home {
        if let Some(rest) = strip_prefix(s, "~/") {
            let mut r = cat(h.as_str(), "/");
            r.append(rest.as_str());
            return r;
        }
    }
    s.to_string()
}

/// The line of a context: the first one where none is known.
pub open spec fn line_of(line: Option<u32>) -> nat {
    match line {
        Some(n) => n as nat,
        None => 1,
    }
}

/// A word of a template, filled in.
pub open spec fn filled(
    word: Seq<char>,
    home: Option<Seq<char>>,
    file: Seq<char>,
    line: Option<u32>,
    worktree: Seq<char>,
    repo: Seq<char>,
) -> Seq<char> {
    let a = replaced(untilded(word, home), "{file}"@, file);
    let b = replaced(a, "{line}"@, decimal(line_of(line)));
    let c = replaced(b, "{worktree}"@, worktree);
    replaced(c, "{repo}"@, repo)
}

/// The words of a command, filled in.
pub open spec fn command(
    cmd: Seq<Seq<char>>,
    home: Option<Seq<char>>,
    file: Seq<char>,
    line: Option<u32>,
    worktree: Seq<char>,
    repo: Seq<char>,
) -> Seq<Seq<char>> {
    cmd.map_values(|w: Seq<char>| filled(w, home, file, line, worktree, repo))
}

fn fill(word: &str, ctx: &OpenCtx, home: &Option<String>) -> (r: String)
    ensures
        r@ == filled(word@, opt_str(*home), ctx.file@, ctx.line, ctx.worktree@, ctx.repo@),
{
    let n: u32 = match ctx.line {
        Some(n) => n,
        None => 1,
    };
    let line = dec(n as u64);
    proof {
        reveal_strlit("{file}");
        reveal_strlit("{line}");
        reveal_strlit("{worktree}");
        reveal_strlit("{repo}");
    }
    let s = expand_tilde(word, home);
    let a = replace(s.as_str(), "{file}", ctx.file);
    let b = replace(a.as_str(), "{line}", line.as_str());
    let c = replace(b.as_str(), "{worktree}", ctx.worktree);
    replace(c.as_str(), "{repo}", ctx.repo)
}

/// The command line of an opener: its template filled in. An opener without a command is an
/// error.
pub fn spawn_args(opener: &Opener, ctx: &OpenCtx, home: &Option<String>) -> (r: Result<
    Vec<String>,
    String,
>)
    ensures
        match r {
            Ok(v) => {
                &&& opener@.len() > 0
                &&& strs(v@) == command(
                    opener@,
                    opt_str(*home),
                    ctx.file@,
                    ctx.line,
                    ctx.worktree@,
                    ctx.repo@,
                )
            },
            Err(e) => opener@.len() == 0 && e@ == "opener cmd is empty"@,
        },
{
    if opener.cmd.len() == 0 {
        return Err("opener cmd is empty".to_string());
    }
    let ghost goal = command(
        opener@,
        opt_str(*home),
        ctx.file@,
        ctx.line,
        ctx.worktree@,
        ctx.repo@,
    );
    let mut out: Vec<String> = Vec::new();
    let mut i: usize = 0;
    while i < opener.cmd.len()
        invariant
            goal == command(
                opener@,
                opt_str(*home),
                ctx.file@,
                ctx.line,
                ctx.worktree@,
                ctx.repo@,
            ),
            i <= opener.cmd@.len(),
            strs(out@) =~= goal.take(i as int),
        decreases opener.cmd@.len() - i,
    {
        let ghost out0 = out@;
        let w = fill(opener.cmd[i].as_str(), ctx, home);
        out.push(w);
        proof {
            assert(opener@[i as int] == opener.cmd@[i as int]@);
            assert(strs(out@) =~= strs(out0).push(w@));
            assert(goal[i as int] == w@);
        }
        i += 1;
    }
    assert(strs(out@) =~= goal);
    Ok(out)
}

/// A word without a placeholder and without a leading tilde stays as it is.
pub proof fn law_plain_word_stays(
    word: Seq<char>,
    home: Option<Seq<char>>,
    file: Seq<char>,
    line: Option<u32>,
    worktree: Seq<char>,
    repo: Seq<char>,
)
    requires
        !begins(word, "~/"@),
        forall|i: int| 0 <= i < word.len() ==> #[trigger] word[i] != '{',
    ensures
        filled(word, home, file, line, worktree, repo) == word,
{
    reveal_strlit("{file}");
    reveal_strlit("{line}");
    reveal_strlit("{worktree}");
    reveal_strlit("{repo}");
    lemma_nothing_to_replace(word, "{file}"@, file);
    lemma_nothing_to_replace(word, "{line}"@, decimal(line_of(line)));
    lemma_nothing_to_replace(word, "{worktree}"@, worktree);
    lemma_nothing_to_replace(word, "{repo}"@, repo);
}

proof fn lemma_nothing_to_replace(s: Seq<char>, p: Seq<char>, w: Seq<char>)
    requires
        p.len() > 0,
        p[0] == '{',
        forall|i: int| 0 <= i < s.len() ==> #[trigger] s[i] != '{',
    ensures
        replaced(s, p, w) == s,
    decreases s.len(),
{
    if s.len() > 0 {
        if begins(s, p) {
            assert(s.take(p.len() as int)[0] == p[0]);
            assert(s[0] == '{');
        }
        assert forall|i: int| 0 <= i < s.skip(1).len() implies #[trigger] s.skip(1)[i] != '{' by {
            assert(s.skip(1)[i] == s[i + 1]);
        }
        lemma_nothing_to_replace(s.skip(1), p, w);
        assert(seq![s[0]] + s.skip(1) =~= s);
    }
}

} // verus!
