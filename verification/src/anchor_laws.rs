//! What changes are compared with, and what git is asked for.

use crate::git::{
    anchor_question, anchor_run, anchor_start, base_question, base_run, base_start,
    commits_question, diff_question, is_auto, listing_question, AnchorStageV, BaseStage,
    FileStatus, FileV, SourceV,
};
use crate::text::{begins, is_white, trimmed};
use crate::text_laws::{all_white, law_trim};
use vstd::prelude::*;

verus! {

// ---- The base branch -------------------------------------------------------------

/// A base branch that is configured is the base branch, whatever branches there are.
pub proof fn law_configured_base(
    configured: Seq<char>,
    develop: Option<Seq<char>>,
    origin: Option<Seq<char>>,
    main: Option<Seq<char>>,
    master: Option<Seq<char>>,
)
    requires
        configured.len() > 0,
        configured != "auto"@,
    ensures
        base_run(base_start(configured), develop, origin, main, master, 4) == Some(configured),
{
    reveal_with_fuel(base_run, 5);
}

/// Whether the base branch is to be found out.
pub open spec fn to_find(configured: Seq<char>) -> bool {
    configured.len() == 0 || configured == "auto"@
}

/// Where there is a branch `develop`, it is the base, whatever other branches there are.
pub proof fn law_develop_comes_first(
    configured: Seq<char>,
    develop: Seq<char>,
    origin: Option<Seq<char>>,
    main: Option<Seq<char>>,
    master: Option<Seq<char>>,
)
    requires
        to_find(configured),
    ensures
        base_run(base_start(configured), Some(develop), origin, main, master, 4) == Some(
            "develop"@,
        ),
{
    reveal_with_fuel(base_run, 5);
}

/// Without a branch `develop`, the base is the branch that the head of the remote points to, by
/// its whole name.
pub proof fn law_remote_head_comes_next(
    configured: Seq<char>,
    pre: Seq<char>,
    name: Seq<char>,
    post: Seq<char>,
    main: Option<Seq<char>>,
    master: Option<Seq<char>>,
)
    requires
        to_find(configured),
        all_white(pre),
        all_white(post),
        name.len() > 0,
        !is_white(name.last()),
    ensures
        base_run(
            base_start(configured),
            None,
            Some(pre + ("refs/remotes/origin/"@ + name) + post),
            main,
            master,
            4,
        ) == Some(name),
{
    reveal_with_fuel(base_run, 5);
    reveal_strlit("refs/remotes/origin/");
    let s = "refs/remotes/origin/"@ + name;
    assert(s[0] == 'r');
    assert(s.last() == name.last());
    law_trim(pre, s, post);
    assert(s.take("refs/remotes/origin/"@.len() as int) =~= "refs/remotes/origin/"@);
    assert(s.skip("refs/remotes/origin/"@.len() as int) =~= name);
}

/// Without those, the base is `main` where there is one, else `master` where there is one, else
/// the head itself.
pub proof fn law_main_or_master(
    configured: Seq<char>,
    origin: Option<Seq<char>>,
    main: Option<Seq<char>>,
    master: Option<Seq<char>>,
)
    requires
        to_find(configured),
        origin matches Some(o) ==> !begins(trimmed(o), "refs/remotes/origin/"@),
    ensures
        base_run(base_start(configured), None, origin, main, master, 4) == Some(
            if main is Some {
                "main"@
            } else if master is Some {
                "master"@
            } else {
                "HEAD"@
            },
        ),
{
    reveal_with_fuel(base_run, 5);
}

/// The base is left to be found out exactly where nothing but blanks is configured, or `auto`.
pub proof fn law_auto(pre: Seq<char>, s: Seq<char>, post: Seq<char>)
    requires
        all_white(pre),
        all_white(post),
        s.len() == 0 || (!is_white(s[0]) && !is_white(s.last())),
    ensures
        is_auto(pre + s + post) == (s.len() == 0 || s == "auto"@),
{
    law_trim(pre, s, post);
}

// ---- The anchor ------------------------------------------------------------------

/// A name as git answers it: with a line feed behind it.
pub open spec fn answer(name: Seq<char>) -> Seq<char> {
    name.push('\n')
}

/// Whether a text can be a name in an answer.
pub open spec fn is_name(name: Seq<char>) -> bool {
    name.len() > 0 && !is_white(name[0]) && !is_white(name.last())
}

proof fn lemma_answer(name: Seq<char>)
    requires
        is_name(name),
    ensures
        trimmed(answer(name)) == name,
{
    let none = Seq::<char>::empty();
    assert(is_white('\n'));
    law_trim(none, name, seq!['\n']);
    assert(none + name + seq!['\n'] =~= answer(name));
}

/// A worktree on another branch than the base is compared with where it left the base: the anchor
/// is the common ancestor of its head and the base. So it is where no branch is checked out.
pub proof fn law_anchor_of_a_branch(
    base: Seq<char>,
    smart: bool,
    branch: Seq<char>,
    upstream: Option<Seq<char>>,
    mb: spec_fn(Seq<char>) -> Option<Seq<char>>,
    commit: Seq<char>,
)
    requires
        is_name(branch),
        branch != base,
        is_name(commit),
        mb(base) == Some(answer(commit)),
    ensures
        anchor_run(base, anchor_start(base, smart), Some(answer(branch)), upstream, mb, 3) == Some(
            Some(commit),
        ),
        anchor_run(base, anchor_start(base, smart), None, upstream, mb, 3) == Some(Some(commit)),
{
    reveal_with_fuel(anchor_run, 4);
    lemma_answer(branch);
    lemma_answer(commit);
}

/// A worktree on the base branch is compared with its upstream, where it has one and the base was
/// found out: the anchor is the common ancestor of its head and the upstream. Without an upstream,
/// or with a base that was configured, it is that of its head and the base.
pub proof fn law_anchor_of_the_base(
    base: Seq<char>,
    upstream: Seq<char>,
    mb: spec_fn(Seq<char>) -> Option<Seq<char>>,
    up_commit: Seq<char>,
    base_commit: Seq<char>,
)
    requires
        is_name(base),
        is_name(upstream),
        is_name(up_commit),
        is_name(base_commit),
        mb(upstream) == Some(answer(up_commit)),
        mb(base) == Some(answer(base_commit)),
    ensures
        anchor_run(
            base,
            anchor_start(base, true),
            Some(answer(base)),
            Some(answer(upstream)),
            mb,
            3,
        ) == Some(Some(up_commit)),
        anchor_run(base, anchor_start(base, true), Some(answer(base)), None, mb, 3) == Some(
            Some(base_commit),
        ),
        anchor_run(
            base,
            anchor_start(base, false),
            Some(answer(base)),
            Some(answer(upstream)),
            mb,
            3,
        ) == Some(Some(base_commit)),
{
    reveal_with_fuel(anchor_run, 4);
    lemma_answer(base);
    lemma_answer(upstream);
    lemma_answer(up_commit);
    lemma_answer(base_commit);
}

/// Without a common ancestor there is no anchor.
pub proof fn law_no_anchor(
    base: Seq<char>,
    smart: bool,
    branch: Option<Seq<char>>,
    upstream: Option<Seq<char>>,
    mb: spec_fn(Seq<char>) -> Option<Seq<char>>,
)
    requires
        forall|r: Seq<char>| (#[trigger] mb(r)) is None,
    ensures
        anchor_run(base, anchor_start(base, smart), branch, upstream, mb, 3) == Some(
            None::<Seq<char>>,
        ),
{
    reveal_with_fuel(anchor_run, 4);
}

// ---- Questions -------------------------------------------------------------------

/// Changes are asked for against the anchor, those that are not committed against the head, and
/// those of a commit of the commit itself; both listings are asked for in the same way.
pub proof fn law_listings_asked_for(mb: Seq<char>, sha: Seq<char>, kind: Seq<char>)
    ensures
        listing_question(SourceV::All, mb, kind).first() == "diff"@,
        listing_question(SourceV::All, mb, kind).last() == mb,
        listing_question(SourceV::Current, mb, kind).first() == "diff"@,
        listing_question(SourceV::Current, mb, kind).last() == "HEAD"@,
        listing_question(SourceV::Commit(sha), mb, kind).first() == "show"@,
        listing_question(SourceV::Commit(sha), mb, kind).last() == sha,
        listing_question(SourceV::All, mb, kind).contains(kind),
        listing_question(SourceV::Current, mb, kind).contains(kind),
        listing_question(SourceV::Commit(sha), mb, kind).contains(kind),
        listing_question(SourceV::All, mb, kind).contains("-z"@),
        listing_question(SourceV::Current, mb, kind).contains("-z"@),
        listing_question(SourceV::Commit(sha), mb, kind).contains("-z"@),
{
    assert(listing_question(SourceV::All, mb, kind)[1] == kind);
    assert(listing_question(SourceV::Current, mb, kind)[1] == kind);
    assert(listing_question(SourceV::Commit(sha), mb, kind)[2] == kind);
    assert(listing_question(SourceV::All, mb, kind)[3] == "-z"@);
    assert(listing_question(SourceV::Current, mb, kind)[3] == "-z"@);
    assert(listing_question(SourceV::Commit(sha), mb, kind)[4] == "-z"@);
}

/// The diff of a file is asked for by its path, at the end and behind a double dash, and of a
/// moved file also by its old path; against the anchor, the head or the commit as its source says.
/// A file that is not tracked is compared with nothing.
pub proof fn law_diff_asked_for(source: SourceV, f: FileV, mb: Seq<char>)
    ensures
        ({
            let q = diff_question(source, f, mb);
            &&& q.last() == f.path
            &&& f.status == FileStatus::Untracked ==> q == seq![
                "diff"@,
                "--no-index"@,
                "--"@,
                "/dev/null"@,
                f.path,
            ]
            &&& f.status != FileStatus::Untracked ==> {
                &&& source is All ==> q[0] == "diff"@ && q[2] == mb && q[3] == "--"@
                &&& source is Current ==> q[0] == "diff"@ && q[2] == "HEAD"@ && q[3] == "--"@
                &&& source matches SourceV::Commit(sha) ==> q[0] == "show"@ && q[3] == sha && q[4]
                    == "--"@
                &&& f.old_path matches Some(o) ==> q[q.len() - 2] == o
                &&& f.old_path is None ==> q[q.len() - 2] == "--"@
            }
        }),
{
}

/// The history of a worktree is asked for from behind its anchor up to its head.
pub proof fn law_history_asked_for(mb: Seq<char>)
    ensures
        commits_question(mb).first() == "log"@,
        commits_question(mb).last() == mb + "..HEAD"@,
{
}

/// The words of each question that git is asked.
pub proof fn law_questions(mb: Seq<char>, sha: Seq<char>, kind: Seq<char>)
    ensures
        base_question(BaseStage::Develop) == seq![
            "show-ref"@,
            "--verify"@,
            "--quiet"@,
            "refs/heads/develop"@,
        ],
        base_question(BaseStage::Main) == seq![
            "show-ref"@,
            "--verify"@,
            "--quiet"@,
            "refs/heads/main"@,
        ],
        base_question(BaseStage::Master) == seq![
            "show-ref"@,
            "--verify"@,
            "--quiet"@,
            "refs/heads/master"@,
        ],
        base_question(BaseStage::OriginHead) == seq!["symbolic-ref"@, "refs/remotes/origin/HEAD"@],
        anchor_question(AnchorStageV::MergeBase(mb)) == seq!["merge-base"@, mb, "HEAD"@],
        anchor_question(AnchorStageV::Branch) == seq![
            "symbolic-ref"@,
            "--quiet"@,
            "--short"@,
            "HEAD"@,
        ],
        anchor_question(AnchorStageV::Upstream) == seq![
            "rev-parse"@,
            "--abbrev-ref"@,
            "--symbolic-full-name"@,
            "@{upstream}"@,
        ],
        commits_question(mb) == seq![
            "log"@,
            "--format=%H\u{1f}%h\u{1f}%ct\u{1f}%s"@,
            mb + "..HEAD"@,
        ],
        listing_question(SourceV::All, mb, kind) == seq!["diff"@, kind, "-M"@, "-z"@, mb],
        listing_question(SourceV::Current, mb, kind) == seq!["diff"@, kind, "-M"@, "-z"@, "HEAD"@],
        listing_question(SourceV::Commit(sha), mb, kind) == seq![
            "show"@,
            "--format="@,
            kind,
            "-M"@,
            "-z"@,
            sha,
        ],
{
}

} // verus!
