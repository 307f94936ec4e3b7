//! What is asked of the git command line, and what its answers say.

use crate::text::{
    before, begins, cat, chars_of, find, find_from, first_chars, lemma_before_total,
    lemma_before_trans, less, lines, lines_of, opt_str, parse_signed, parse_unsigned, same,
    signed_value, split, split_on, starts_with, string_of, strip_prefix, strs, take_chars, trim,
    trimmed, unsigned_value, Stop,
};
use vstd::prelude::*;
use vstd::string::*;

verus! {

// ---- Worktrees -------------------------------------------------------------------

/// A checkout of the repository.
#[derive(Debug)]
pub struct Worktree {
    pub path: String,
    pub branch: String,
    pub is_main: bool,
}

/// A checkout of the repository, as a mathematical value.
#[verifier::ext_equal]
pub struct WorktreeV {
    pub path: Seq<char>,
    pub branch: Seq<char>,
    pub is_main: bool,
}

impl View for Worktree {
    type V = WorktreeV;

    open spec fn view(&self) -> WorktreeV {
        WorktreeV { path: self.path@, branch: self.branch@, is_main: self.is_main }
    }
}

impl Clone for Worktree {
    fn clone(&self) -> (r: Self)
        ensures
            r == *self,
    {
        Worktree { path: self.path.clone(), branch: self.branch.clone(), is_main: self.is_main }
    }
}

/// The values of worktrees.
pub open spec fn worktrees(v: Seq<Worktree>) -> Seq<WorktreeV> {
    v.map_values(|w: Worktree| w@)
}

/// How far the reading of a worktree listing has come: the finished entries, and the path,
/// branch and head commit of the one at hand.
#[verifier::ext_equal]
pub struct Listing {
    pub entries: Seq<(Seq<char>, Seq<char>)>,
    pub path: Option<Seq<char>>,
    pub branch: Seq<char>,
    pub head: Seq<char>,
}

/// The entries with the one at hand, if any.
pub open spec fn finished(st: Listing) -> Seq<(Seq<char>, Seq<char>)> {
    match st.path {
        Some(p) => st.entries.push((p, st.branch)),
        None => st.entries,
    }
}

/// `s` without the prefix `p`, if it has it.
pub open spec fn without_prefix(s: Seq<char>, p: Seq<char>) -> Seq<char> {
    if begins(s, p) {
        s.skip(p.len() as int)
    } else {
        s
    }
}

/// The step over one line of a worktree listing.
pub open spec fn list_line(st: Listing, line: Seq<char>) -> Listing {
    if begins(line, "worktree "@) {
        Listing {
            entries: finished(st),
            path: Some(without_prefix(line, "worktree "@)),
            branch: seq![],
            head: seq![],
        }
    } else if begins(line, "HEAD "@) {
        Listing { head: without_prefix(line, "HEAD "@), ..st }
    } else if begins(line, "branch "@) {
        Listing {
            branch: without_prefix(without_prefix(line, "branch "@), "refs/heads/"@),
            ..st
        }
    } else if line == "detached"@ {
        Listing { branch: "("@ + first_chars(st.head, 8) + ")"@, ..st }
    } else {
        st
    }
}

/// The state after reading lines of a listing.
pub open spec fn listed(ls: Seq<Seq<char>>) -> Listing
    decreases ls.len(),
{
    if ls.len() == 0 {
        Listing { entries: seq![], path: None, branch: seq![], head: seq![] }
    } else {
        list_line(listed(ls.drop_last()), ls.last())
    }
}

/// The worktrees that a listing names: the main checkout first.
pub open spec fn worktrees_in(out: Seq<char>) -> Seq<WorktreeV> {
    finished(listed(lines_of(out))).map(
        |i: int, e: (Seq<char>, Seq<char>)|
            WorktreeV { path: e.0, branch: e.1, is_main: i == 0 },
    )
}

/// The arguments that ask for the worktrees.
pub fn list_args() -> (r: Vec<String>)
    ensures
        strs(r@) == seq!["worktree"@, "list"@, "--porcelain"@],
{
    let mut v: Vec<String> = Vec::new();
    v.push("worktree".to_string());
    v.push("list".to_string());
    v.push("--porcelain".to_string());
    assert(strs(v@) =~= seq!["worktree"@, "list"@, "--porcelain"@]);
    v
}

spec fn pairs(v: Seq<(String, String)>) -> Seq<(Seq<char>, Seq<char>)> {
    v.map_values(|e: (String, String)| (e.0@, e.1@))
}

fn close_entry(
    entries: &mut Vec<(String, String)>,
    path: Option<String>,
    branch: &String,
    Ghost(st): Ghost<Listing>,
)
    requires
        pairs(old(entries)@) == st.entries,
        opt_str(path) == st.path,
        branch@ == st.branch,
    ensures
        pairs(final(entries)@) == finished(st),
{
    if let Some(p) = path {
        let ghost e0 = entries@;
        let b = branch.clone();
        entries.push((p, b));
        assert(pairs(entries@) =~= pairs(e0).push((p@, b@)));
    }
}

/// Read a worktree listing: the main checkout and all worktrees, the main one first.
pub fn list_worktrees(out: &str) -> (r: Vec<Worktree>)
    ensures
        worktrees(r@) == worktrees_in(out@),
{
    let ls = lines(out);
    let ghost all = lines_of(out@);
    let mut path: Option<String> = None;
    let mut branch = String::new();
    let mut head = String::new();
    let mut entries: Vec<(String, String)> = Vec::new();
    let mut i: usize = 0;
    assert(all.take(0) =~= Seq::<Seq<char>>::empty());
    assert(pairs(entries@) =~= Seq::<(Seq<char>, Seq<char>)>::empty());
    while i < ls.len()
        invariant
            strs(ls@) == all,
            i <= ls@.len(),
            listed(all.take(i as int)) == (Listing {
                entries: pairs(entries@),
                path: opt_str(path),
                branch: branch@,
                head: head@,
            }),
        decreases ls@.len() - i,
    {
        let line = ls[i].as_str();
        let ghost st = listed(all.take(i as int));
        proof {
            assert(all[i as int] == line@);
            assert(all.take(i + 1).drop_last() =~= all.take(i as int));
            assert(all.take(i + 1).last() == line@);
        }
        if let Some(p) = strip_prefix(line, "worktree ") {
            close_entry(&mut entries, path, &branch, Ghost(st));
            path = Some(p);
            branch = String::new();
            head = String::new();
        } else if let Some(h) = strip_prefix(line, "HEAD ") {
            head = h;
        } else if let Some(b) = strip_prefix(line, "branch ") {
            branch = match strip_prefix(b.as_str(), "refs/heads/") {
                Some(name) => name,
                None => b,
            };
        } else if same(line, "detached") {
            let short = take_chars(head.as_str(), 8);
            let mut s = cat("(", short.as_str());
            s.append(")");
            branch = s;
        }
        i += 1;
    }
    assert(all.take(all.len() as int) =~= all);
    close_entry(&mut entries, path, &branch, Ghost(listed(all)));
    let mut result: Vec<Worktree> = Vec::new();
    let mut k: usize = 0;
    while k < entries.len()
        invariant
            pairs(entries@) == finished(listed(lines_of(out@))),
            k <= entries@.len(),
            worktrees(result@) =~= worktrees_in(out@).take(k as int),
        decreases entries@.len() - k,
    {
        let (p, b) = &entries[k];
        let w = Worktree { path: p.clone(), branch: b.clone(), is_main: k == 0 };
        let ghost r0 = result@;
        result.push(w);
        proof {
            assert(pairs(entries@)[k as int] == (p@, b@));
            assert(worktrees(result@) =~= worktrees(r0).push(w@));
            assert(w@ =~= worktrees_in(out@)[k as int]);
        }
        k += 1;
    }
    assert(worktrees(result@) =~= worktrees_in(out@));
    result
}

/// The arguments that ask for the top of the checkout.
pub fn toplevel_args() -> (r: Vec<String>)
    ensures
        strs(r@) == seq!["rev-parse"@, "--show-toplevel"@],
{
    let mut v: Vec<String> = Vec::new();
    v.push("rev-parse".to_string());
    v.push("--show-toplevel".to_string());
    assert(strs(v@) =~= seq!["rev-parse"@, "--show-toplevel"@]);
    v
}

/// The main checkout, out of a worktree listing; `None` where it lists nothing.
pub fn main_checkout(out: &str) -> (r: Option<String>)
    ensures
        opt_str(r) == (if worktrees_in(out@).len() > 0 {
            Some(worktrees_in(out@)[0].path)
        } else {
            None
        }),
{
    let wts = list_worktrees(out);
    if wts.len() > 0 {
        assert(worktrees(wts@)[0] == wts@[0]@);
        Some(wts[0].path.clone())
    } else {
        None
    }
}

/// The main checkout is the first worktree, and no other one is.
pub proof fn law_first_is_main(out: Seq<char>)
    ensures
        forall|i: int|
            0 <= i < worktrees_in(out).len() ==> (#[trigger] worktrees_in(out)[i]).is_main == (i
                == 0),
{
}

// ---- Base branch -----------------------------------------------------------------

/// A question about the repository on the way to its base branch.
#[derive(Clone, Copy, Debug, PartialEq, Eq, Structural)]
pub enum BaseStage {
    /// Is there a branch `develop`?
    Develop,
    /// What does the remote's head point to?
    OriginHead,
    /// Is there a branch `main`?
    Main,
    /// Is there a branch `master`?
    Master,
}

/// The next step on the way to the base branch.
#[derive(Debug)]
pub enum BaseStep {
    Ask(BaseStage),
    Done(String),
}

/// The next step on the way to the base branch, as a mathematical value.
pub enum BaseStepV {
    Ask(BaseStage),
    Done(Seq<char>),
}

impl View for BaseStep {
    type V = BaseStepV;

    open spec fn view(&self) -> BaseStepV {
        match self {
            BaseStep::Ask(s) => BaseStepV::Ask(*s),
            BaseStep::Done(s) => BaseStepV::Done(s@),
        }
    }
}

/// The first step: a configured base is taken as it is, unless it is `auto` or empty.
pub open spec fn base_start(configured: Seq<char>) -> BaseStepV {
    if configured != "auto"@ && configured.len() > 0 {
        BaseStepV::Done(configured)
    } else {
        BaseStepV::Ask(BaseStage::Develop)
    }
}

/// The step after an answer; `None` is a failure.
pub open spec fn base_after(stage: BaseStage, reply: Option<Seq<char>>) -> BaseStepV {
    match stage {
        BaseStage::Develop => if reply is Some {
            BaseStepV::Done("develop"@)
        } else {
            BaseStepV::Ask(BaseStage::OriginHead)
        },
        BaseStage::OriginHead => if reply is Some && begins(
            trimmed(reply->0),
            "refs/remotes/origin/"@,
        ) {
            BaseStepV::Done(without_prefix(trimmed(reply->0), "refs/remotes/origin/"@))
        } else {
            BaseStepV::Ask(BaseStage::Main)
        },
        BaseStage::Main => if reply is Some {
            BaseStepV::Done("main"@)
        } else {
            BaseStepV::Ask(BaseStage::Master)
        },
        BaseStage::Master => if reply is Some {
            BaseStepV::Done("master"@)
        } else {
            BaseStepV::Done("HEAD"@)
        },
    }
}

/// Start to determine the base branch.
pub fn detect_base(configured: &str) -> (r: BaseStep)
    ensures
        r@ == base_start(configured@),
{
    if !same(configured, "auto") && chars_of(configured).len() > 0 {
        BaseStep::Done(configured.to_string())
    } else {
        BaseStep::Ask(BaseStage::Develop)
    }
}

/// Go on after an answer.
pub fn base_next(stage: BaseStage, reply: &Option<String>) -> (r: BaseStep)
    ensures
        r@ == base_after(stage, opt_str(*reply)),
{
    match stage {
        BaseStage::Develop => if reply.is_some() {
            BaseStep::Done("develop".to_string())
        } else {
            BaseStep::Ask(BaseStage::OriginHead)
        },
        BaseStage::OriginHead => {
            if let Some(sym) = reply {
                let t = trim(sym.as_str());
                if let Some(name) = strip_prefix(t.as_str(), "refs/remotes/origin/") {
                    return BaseStep::Done(name);
                }
            }
            BaseStep::Ask(BaseStage::Main)
        },
        BaseStage::Main => if reply.is_some() {
            BaseStep::Done("main".to_string())
        } else {
            BaseStep::Ask(BaseStage::Master)
        },
        BaseStage::Master => if reply.is_some() {
            BaseStep::Done("master".to_string())
        } else {
            BaseStep::Done("HEAD".to_string())
        },
    }
}

/// The arguments of a question on the way to the base branch.
pub open spec fn base_question(stage: BaseStage) -> Seq<Seq<char>> {
    match stage {
        BaseStage::Develop => seq!["show-ref"@, "--verify"@, "--quiet"@, "refs/heads/develop"@],
        BaseStage::OriginHead => seq!["symbolic-ref"@, "refs/remotes/origin/HEAD"@],
        BaseStage::Main => seq!["show-ref"@, "--verify"@, "--quiet"@, "refs/heads/main"@],
        BaseStage::Master => seq!["show-ref"@, "--verify"@, "--quiet"@, "refs/heads/master"@],
    }
}

fn ref_args(name: &str) -> (r: Vec<String>)
    ensures
        strs(r@) == seq!["show-ref"@, "--verify"@, "--quiet"@, name@],
{
    let mut v: Vec<String> = Vec::new();
    v.push("show-ref".to_string());
    v.push("--verify".to_string());
    v.push("--quiet".to_string());
    v.push(name.to_string());
    assert(strs(v@) =~= seq!["show-ref"@, "--verify"@, "--quiet"@, name@]);
    v
}

/// The arguments of a question on the way to the base branch.
pub fn base_args(stage: BaseStage) -> (r: Vec<String>)
    ensures
        strs(r@) == base_question(stage),
{
    match stage {
        BaseStage::Develop => ref_args("refs/heads/develop"),
        BaseStage::OriginHead => {
            let mut v: Vec<String> = Vec::new();
            v.push("symbolic-ref".to_string());
            v.push("refs/remotes/origin/HEAD".to_string());
            assert(strs(v@) =~= base_question(stage));
            v
        },
        BaseStage::Main => ref_args("refs/heads/main"),
        BaseStage::Master => ref_args("refs/heads/master"),
    }
}

/// The base branch for the answers to all questions.
pub open spec fn base_of(
    configured: Seq<char>,
    develop: Option<Seq<char>>,
    origin: Option<Seq<char>>,
    main: Option<Seq<char>>,
    master: Option<Seq<char>>,
) -> Seq<char> {
    if configured != "auto"@ && configured.len() > 0 {
        configured
    } else if develop is Some {
        "develop"@
    } else if origin is Some && begins(trimmed(origin->0), "refs/remotes/origin/"@) {
        without_prefix(trimmed(origin->0), "refs/remotes/origin/"@)
    } else if main is Some {
        "main"@
    } else if master is Some {
        "master"@
    } else {
        "HEAD"@
    }
}

/// Where a step leads, with the answers to all questions.
pub open spec fn base_run(
    step: BaseStepV,
    develop: Option<Seq<char>>,
    origin: Option<Seq<char>>,
    main: Option<Seq<char>>,
    master: Option<Seq<char>>,
    fuel: nat,
) -> Option<Seq<char>>
    decreases fuel,
{
    match step {
        BaseStepV::Done(s) => Some(s),
        BaseStepV::Ask(stage) => if fuel == 0 {
            None
        } else {
            let reply = match stage {
                BaseStage::Develop => develop,
                BaseStage::OriginHead => origin,
                BaseStage::Main => main,
                BaseStage::Master => master,
            };
            base_run(
                base_after(stage, reply),
                develop,
                origin,
                main,
                master,
                (fuel - 1) as nat,
            )
        },
    }
}

/// After at most four questions the base branch is known: a configured one, else `develop` where
/// it exists, else what the remote's head names, else `main` or `master`, whichever exists, else
/// `HEAD`.
pub proof fn law_base_branch(
    configured: Seq<char>,
    develop: Option<Seq<char>>,
    origin: Option<Seq<char>>,
    main: Option<Seq<char>>,
    master: Option<Seq<char>>,
)
    ensures
        base_run(base_start(configured), develop, origin, main, master, 4) == Some(
            base_of(configured, develop, origin, main, master),
        ),
{
    reveal_with_fuel(base_run, 5);
}

/// Whether the base branch is left to be found out.
pub open spec fn is_auto(configured: Seq<char>) -> bool {
    trimmed(configured).len() == 0 || trimmed(configured) == "auto"@
}

/// Whether the base branch is left to be found out.
pub fn smart_base(configured: &str) -> (r: bool)
    ensures
        r == is_auto(configured@),
{
    let t = trim(configured);
    chars_of(t.as_str()).len() == 0 || same(t.as_str(), "auto")
}

// ---- Anchor ----------------------------------------------------------------------

/// What a trimmed answer holds; nothing where it is empty or a failure.
pub open spec fn nonblank(reply: Option<Seq<char>>) -> Option<Seq<char>> {
    match reply {
        Some(s) => if trimmed(s).len() > 0 {
            Some(trimmed(s))
        } else {
            None
        },
        None => None,
    }
}

fn nonblank_reply(reply: &Option<String>) -> (r: Option<String>)
    ensures
        opt_str(r) == nonblank(opt_str(*reply)),
{
    match reply {
        Some(s) => {
            let t = trim(s.as_str());
            if chars_of(t.as_str()).len() > 0 {
                Some(t)
            } else {
                None
            }
        },
        None => None,
    }
}

/// The branch that is checked out, out of the answer; `None` where the head is detached.
pub fn current_branch(reply: &Option<String>) -> (r: Option<String>)
    ensures
        opt_str(r) == nonblank(opt_str(*reply)),
{
    nonblank_reply(reply)
}

/// The upstream of the current branch, out of the answer; `None` where it has none.
pub fn upstream_ref(reply: &Option<String>) -> (r: Option<String>)
    ensures
        opt_str(r) == nonblank(opt_str(*reply)),
{
    nonblank_reply(reply)
}

/// The common ancestor, out of the answer.
pub open spec fn ancestor(reply: Option<Seq<char>>) -> Option<Seq<char>> {
    match reply {
        Some(s) => Some(trimmed(s)),
        None => None,
    }
}

/// The common ancestor, out of the answer; `None` for a failure.
pub fn merge_base(reply: &Option<String>) -> (r: Option<String>)
    ensures
        opt_str(r) == ancestor(opt_str(*reply)),
{
    match reply {
        Some(s) => Some(trim(s.as_str())),
        None => None,
    }
}

/// A question about a worktree on the way to its anchor.
#[derive(Debug)]
pub enum AnchorStage {
    /// Which branch is checked out?
    Branch,
    /// What is its upstream?
    Upstream,
    /// What is the common ancestor of this and the head?
    MergeBase(String),
}

/// The next step on the way to the anchor.
#[derive(Debug)]
pub enum AnchorStep {
    Ask(AnchorStage),
    Done(Option<String>),
}

/// A question on the way to the anchor, as a mathematical value.
pub enum AnchorStageV {
    Branch,
    Upstream,
    MergeBase(Seq<char>),
}

/// The next step on the way to the anchor, as a mathematical value.
pub enum AnchorStepV {
    Ask(AnchorStageV),
    Done(Option<Seq<char>>),
}

impl View for AnchorStage {
    type V = AnchorStageV;

    open spec fn view(&self) -> AnchorStageV {
        match self {
            AnchorStage::Branch => AnchorStageV::Branch,
            AnchorStage::Upstream => AnchorStageV::Upstream,
            AnchorStage::MergeBase(s) => AnchorStageV::MergeBase(s@),
        }
    }
}

impl View for AnchorStep {
    type V = AnchorStepV;

    open spec fn view(&self) -> AnchorStepV {
        match self {
            AnchorStep::Ask(s) => AnchorStepV::Ask(s@),
            AnchorStep::Done(o) => AnchorStepV::Done(opt_str(*o)),
        }
    }
}

/// The first step on the way to the anchor.
pub open spec fn anchor_start(base: Seq<char>, smart: bool) -> AnchorStepV {
    if smart {
        AnchorStepV::Ask(AnchorStageV::Branch)
    } else {
        AnchorStepV::Ask(AnchorStageV::MergeBase(base))
    }
}

/// The step after an answer; `None` is a failure.
pub open spec fn anchor_after(
    base: Seq<char>,
    stage: AnchorStageV,
    reply: Option<Seq<char>>,
) -> AnchorStepV {
    match stage {
        AnchorStageV::Branch => if nonblank(reply) == Some(base) {
            AnchorStepV::Ask(AnchorStageV::Upstream)
        } else {
            AnchorStepV::Ask(AnchorStageV::MergeBase(base))
        },
        AnchorStageV::Upstream => match nonblank(reply) {
            Some(up) => AnchorStepV::Ask(AnchorStageV::MergeBase(up)),
            None => AnchorStepV::Ask(AnchorStageV::MergeBase(base)),
        },
        AnchorStageV::MergeBase(_) => AnchorStepV::Done(ancestor(reply)),
    }
}

/// Start to determine the commit that diffs are computed against. With `smart`, a worktree that
/// sits on the base branch itself is compared with that branch's upstream.
pub fn anchor(base: &str, smart: bool) -> (r: AnchorStep)
    ensures
        r@ == anchor_start(base@, smart),
{
    if smart {
        AnchorStep::Ask(AnchorStage::Branch)
    } else {
        AnchorStep::Ask(AnchorStage::MergeBase(base.to_string()))
    }
}

/// Go on after an answer.
pub fn anchor_next(base: &str, stage: &AnchorStage, reply: &Option<String>) -> (r: AnchorStep)
    ensures
        r@ == anchor_after(base@, stage@, opt_str(*reply)),
{
    match stage {
        AnchorStage::Branch => {
            if let Some(cur) = current_branch(reply) {
                if same(cur.as_str(), base) {
                    return AnchorStep::Ask(AnchorStage::Upstream);
                }
            }
            AnchorStep::Ask(AnchorStage::MergeBase(base.to_string()))
        },
        AnchorStage::Upstream => match upstream_ref(reply) {
            Some(up) => AnchorStep::Ask(AnchorStage::MergeBase(up)),
            None => AnchorStep::Ask(AnchorStage::MergeBase(base.to_string())),
        },
        AnchorStage::MergeBase(_) => AnchorStep::Done(merge_base(reply)),
    }
}

/// The arguments of a question on the way to the anchor.
pub open spec fn anchor_question(stage: AnchorStageV) -> Seq<Seq<char>> {
    match stage {
        AnchorStageV::Branch => seq!["symbolic-ref"@, "--quiet"@, "--short"@, "HEAD"@],
        AnchorStageV::Upstream => seq![
            "rev-parse"@,
            "--abbrev-ref"@,
            "--symbolic-full-name"@,
            "@{upstream}"@,
        ],
        AnchorStageV::MergeBase(r) => seq!["merge-base"@, r, "HEAD"@],
    }
}

/// The arguments of a question on the way to the anchor.
pub fn anchor_args(stage: &AnchorStage) -> (r: Vec<String>)
    ensures
        strs(r@) == anchor_question(stage@),
{
    let mut v: Vec<String> = Vec::new();
    match stage {
        AnchorStage::Branch => {
            v.push("symbolic-ref".to_string());
            v.push("--quiet".to_string());
            v.push("--short".to_string());
            v.push("HEAD".to_string());
        },
        AnchorStage::Upstream => {
            v.push("rev-parse".to_string());
            v.push("--abbrev-ref".to_string());
            v.push("--symbolic-full-name".to_string());
            v.push("@{upstream}".to_string());
        },
        AnchorStage::MergeBase(r) => {
            v.push("merge-base".to_string());
            v.push(r.clone());
            v.push("HEAD".to_string());
        },
    }
    assert(strs(v@) =~= anchor_question(stage@));
    v
}

/// The reference whose common ancestor with the head is the anchor: the upstream where the
/// worktree is on the base branch and the branch has one, else the base.
pub open spec fn anchor_ref(
    base: Seq<char>,
    smart: bool,
    branch: Option<Seq<char>>,
    upstream: Option<Seq<char>>,
) -> Seq<char> {
    if smart && nonblank(branch) == Some(base) && nonblank(upstream) is Some {
        nonblank(upstream)->0
    } else {
        base
    }
}

/// Where a step leads, with the answers to all questions; `mb` answers the question for a common
/// ancestor.
pub open spec fn anchor_run(
    base: Seq<char>,
    step: AnchorStepV,
    branch: Option<Seq<char>>,
    upstream: Option<Seq<char>>,
    mb: spec_fn(Seq<char>) -> Option<Seq<char>>,
    fuel: nat,
) -> Option<Option<Seq<char>>>
    decreases fuel,
{
    match step {
        AnchorStepV::Done(o) => Some(o),
        AnchorStepV::Ask(stage) => if fuel == 0 {
            None
        } else {
            let reply = match stage {
                AnchorStageV::Branch => branch,
                AnchorStageV::Upstream => upstream,
                AnchorStageV::MergeBase(r) => mb(r),
            };
            anchor_run(
                base,
                anchor_after(base, stage, reply),
                branch,
                upstream,
                mb,
                (fuel - 1) as nat,
            )
        },
    }
}

/// After at most three questions the anchor is known: the common ancestor of the head and the
/// reference that applies.
pub proof fn law_anchor(
    base: Seq<char>,
    smart: bool,
    branch: Option<Seq<char>>,
    upstream: Option<Seq<char>>,
    mb: spec_fn(Seq<char>) -> Option<Seq<char>>,
)
    ensures
        anchor_run(base, anchor_start(base, smart), branch, upstream, mb, 3) == Some(
            ancestor(mb(anchor_ref(base, smart, branch, upstream))),
        ),
{
    reveal_with_fuel(anchor_run, 4);
}

// ---- Commits ---------------------------------------------------------------------

/// A commit.
#[derive(Debug)]
pub struct CommitInfo {
    pub sha: String,
    pub short: String,
    /// Seconds since the epoch
    pub time: i64,
    pub subject: String,
}

/// A commit, as a mathematical value.
#[verifier::ext_equal]
pub struct CommitV {
    pub sha: Seq<char>,
    pub short: Seq<char>,
    pub time: i64,
    pub subject: Seq<char>,
}

impl View for CommitInfo {
    type V = CommitV;

    open spec fn view(&self) -> CommitV {
        CommitV {
            sha: self.sha@,
            short: self.short@,
            time: self.time,
            subject: self.subject@,
        }
    }
}

impl Clone for CommitInfo {
    fn clone(&self) -> (r: Self)
        ensures
            r == *self,
    {
        CommitInfo {
            sha: self.sha.clone(),
            short: self.short.clone(),
            time: self.time,
            subject: self.subject.clone(),
        }
    }
}

/// The values of commits.
pub open spec fn commits(v: Seq<CommitInfo>) -> Seq<CommitV> {
    v.map_values(|c: CommitInfo| c@)
}

/// The arguments that ask for the commits after `mb`.
pub open spec fn commits_question(mb: Seq<char>) -> Seq<Seq<char>> {
    seq!["log"@, "--format=%H\u{1f}%h\u{1f}%ct\u{1f}%s"@, mb + "..HEAD"@]
}

/// The arguments that ask for the commits after `mb`.
pub fn commits_args(mb: &str) -> (r: Vec<String>)
    ensures
        strs(r@) == commits_question(mb@),
{
    let mut v: Vec<String> = Vec::new();
    v.push("log".to_string());
    v.push("--format=%H\u{1f}%h\u{1f}%ct\u{1f}%s".to_string());
    v.push(cat(mb, "..HEAD"));
    assert(strs(v@) =~= seq![
        "log"@,
        "--format=%H\u{1f}%h\u{1f}%ct\u{1f}%s"@,
        mb@ + "..HEAD"@,
    ]);
    v
}

/// `s` with a space for each control character.
pub open spec fn blanked(s: Seq<char>) -> Seq<char> {
    s.map_values(
        |c: char|
            if (c as u32) < 0x20 {
                ' '
            } else {
                c
            },
    )
}

fn blank_controls(s: &str) -> (r: String)
    ensures
        r@ == blanked(s@),
{
    let v = chars_of(s);
    let mut out = String::new();
    let mut i: usize = 0;
    while i < v.len()
        invariant
            v@ == s@,
            i <= v@.len(),
            out@ =~= blanked(s@).take(i as int),
        decreases v@.len() - i,
    {
        let c = v[i];
        if (c as u32) < 0x20 {
            out.push(' ');
        } else {
            out.push(c);
        }
        i += 1;
    }
    assert(out@ =~= blanked(s@));
    out
}

/// The commit that a line of the log describes, if it has the fields.
pub open spec fn commit_of(line: Seq<char>) -> Option<CommitV> {
    let f = split_on(line, '\u{1f}');
    if f.len() >= 3 && signed_value(f[2]) is Some {
        Some(
            CommitV {
                sha: f[0],
                short: f[1],
                time: signed_value(f[2])->0 as i64,
                subject: if f.len() >= 4 {
                    blanked(f[3])
                } else {
                    seq![]
                },
            },
        )
    } else {
        None
    }
}

/// The commits that log lines describe.
pub open spec fn commits_of(ls: Seq<Seq<char>>) -> Seq<CommitV>
    decreases ls.len(),
{
    if ls.len() == 0 {
        seq![]
    } else {
        match commit_of(ls.last()) {
            Some(c) => commits_of(ls.drop_last()).push(c),
            None => commits_of(ls.drop_last()),
        }
    }
}

/// The commits that an answer describes; none for a failure.
pub open spec fn commits_in(reply: Option<Seq<char>>) -> Seq<CommitV> {
    match reply {
        Some(out) => commits_of(lines_of(out)),
        None => seq![],
    }
}

fn parse_commit(line: &str) -> (r: Option<CommitInfo>)
    ensures
        match r {
            Some(c) => commit_of(line@) == Some(c@),
            None => commit_of(line@) is None,
        },
{
    let f = split(line, '\u{1f}');
    let ghost fs = split_on(line@, '\u{1f}');
    if f.len() < 3 {
        return None;
    }
    proof {
        assert(fs[0] == f@[0]@);
        assert(fs[1] == f@[1]@);
        assert(fs[2] == f@[2]@);
        assert(fs.len() >= 4 ==> fs[3] == f@[3]@);
    }
    match parse_signed(f[2].as_str()) {
        Some(time) => {
            let subject = if f.len() >= 4 {
                blank_controls(f[3].as_str())
            } else {
                String::new()
            };
            let c = CommitInfo { sha: f[0].clone(), short: f[1].clone(), time, subject };
            assert(c@ =~= commit_of(line@)->0);
            Some(c)
        },
        None => None,
    }
}

/// Read the log: the commits after the anchor, newest first.
pub fn commits_since(reply: &Option<String>) -> (r: Vec<CommitInfo>)
    ensures
        commits(r@) == commits_in(opt_str(*reply)),
{
    let mut out: Vec<CommitInfo> = Vec::new();
    assert(commits(out@) =~= Seq::<CommitV>::empty());
    if let Some(text) = reply {
        let ls = lines(text.as_str());
        let ghost all = lines_of(text@);
        let mut i: usize = 0;
        assert(all.take(0) =~= Seq::<Seq<char>>::empty());
        while i < ls.len()
            invariant
                strs(ls@) == all,
                i <= ls@.len(),
                commits(out@) == commits_of(all.take(i as int)),
            decreases ls@.len() - i,
        {
            proof {
                assert(all[i as int] == ls@[i as int]@);
                assert(all.take(i + 1).drop_last() =~= all.take(i as int));
                assert(all.take(i + 1).last() == ls@[i as int]@);
            }
            if let Some(c) = parse_commit(ls[i].as_str()) {
                let ghost o0 = out@;
                out.push(c);
                assert(commits(out@) =~= commits(o0).push(c@));
            }
            i += 1;
        }
        assert(all.take(all.len() as int) =~= all);
    }
    out
}

// ---- Changed files ---------------------------------------------------------------

/// Which snapshot of changes to view.
#[derive(Debug)]
pub enum DiffSource {
    /// All changes since the anchor, committed or not
    All,
    /// What is not committed
    Current,
    /// One commit
    Commit(String),
}

/// Which snapshot of changes to view, as a mathematical value.
pub enum SourceV {
    All,
    Current,
    Commit(Seq<char>),
}

impl View for DiffSource {
    type V = SourceV;

    open spec fn view(&self) -> SourceV {
        match self {
            DiffSource::All => SourceV::All,
            DiffSource::Current => SourceV::Current,
            DiffSource::Commit(s) => SourceV::Commit(s@),
        }
    }
}

impl Clone for DiffSource {
    fn clone(&self) -> (r: Self)
        ensures
            r == *self,
    {
        match self {
            DiffSource::All => DiffSource::All,
            DiffSource::Current => DiffSource::Current,
            DiffSource::Commit(s) => DiffSource::Commit(s.clone()),
        }
    }
}

impl DiffSource {
    /// Whether two sources are the same.
    pub fn is(&self, other: &DiffSource) -> (r: bool)
        ensures
            r == (self@ == other@),
    {
        match (self, other) {
            (DiffSource::All, DiffSource::All) => true,
            (DiffSource::Current, DiffSource::Current) => true,
            (DiffSource::Commit(a), DiffSource::Commit(b)) => same(a.as_str(), b.as_str()),
            _ => false,
        }
    }
}

/// What happened to a file.
#[derive(Clone, Copy, Debug, PartialEq, Eq, Structural)]
pub enum FileStatus {
    Modified,
    Added,
    Deleted,
    Renamed,
    Untracked,
    Other,
}

/// The letter for a status.
pub open spec fn badge_of(status: FileStatus) -> char {
    match status {
        FileStatus::Modified => 'M',
        FileStatus::Added => 'A',
        FileStatus::Deleted => 'D',
        FileStatus::Renamed => 'R',
        FileStatus::Untracked => '?',
        FileStatus::Other => '·',
    }
}

impl FileStatus {
    /// The letter for a status.
    pub fn badge(self) -> (r: char)
        ensures
            r == badge_of(self),
    {
        match self {
            FileStatus::Modified => 'M',
            FileStatus::Added => 'A',
            FileStatus::Deleted => 'D',
            FileStatus::Renamed => 'R',
            FileStatus::Untracked => '?',
            FileStatus::Other => '·',
        }
    }
}

/// Different statuses have different letters.
pub proof fn law_badges_differ(a: FileStatus, b: FileStatus)
    ensures
        badge_of(a) == badge_of(b) ==> a == b,
{
}

/// A changed file.
#[derive(Debug)]
pub struct FileChange {
    /// Relative to the worktree; the new path of a renamed file
    pub path: String,
    pub old_path: Option<String>,
    pub status: FileStatus,
    /// Added lines; `None` for a binary file
    pub added: Option<u64>,
    /// Removed lines; `None` for a binary file
    pub deleted: Option<u64>,
}

/// A changed file, as a mathematical value.
#[verifier::ext_equal]
pub struct FileV {
    pub path: Seq<char>,
    pub old_path: Option<Seq<char>>,
    pub status: FileStatus,
    pub added: Option<u64>,
    pub deleted: Option<u64>,
}

impl View for FileChange {
    type V = FileV;

    open spec fn view(&self) -> FileV {
        FileV {
            path: self.path@,
            old_path: opt_str(self.old_path),
            status: self.status,
            added: self.added,
            deleted: self.deleted,
        }
    }
}

impl Clone for FileChange {
    fn clone(&self) -> (r: Self)
        ensures
            r == *self,
    {
        let old_path = match &self.old_path {
            Some(p) => Some(p.clone()),
            None => None,
        };
        FileChange {
            path: self.path.clone(),
            old_path,
            status: self.status,
            added: self.added,
            deleted: self.deleted,
        }
    }
}

/// The values of changed files.
pub open spec fn files_view(v: Seq<FileChange>) -> Seq<FileV> {
    v.map_values(|f: FileChange| f@)
}

/// The status that a word of the listing stands for.
pub open spec fn status_of(word: Seq<char>) -> FileStatus {
    if word.len() == 0 {
        FileStatus::Other
    } else {
        match word[0] {
            'M' => FileStatus::Modified,
            'A' => FileStatus::Added,
            'D' => FileStatus::Deleted,
            'R' => FileStatus::Renamed,
            'C' => FileStatus::Renamed,
            _ => FileStatus::Other,
        }
    }
}

/// The status that a word of the listing stands for.
pub fn parse_status_char(s: &str) -> (r: FileStatus)
    ensures
        r == status_of(s@),
{
    let v = chars_of(s);
    if v.len() == 0 {
        return FileStatus::Other;
    }
    match v[0] {
        'M' => FileStatus::Modified,
        'A' => FileStatus::Added,
        'D' => FileStatus::Deleted,
        'R' => FileStatus::Renamed,
        'C' => FileStatus::Renamed,
        _ => FileStatus::Other,
    }
}

/// The pieces of `parts` that are not empty.
pub open spec fn nonempty(parts: Seq<Seq<char>>) -> Seq<Seq<char>>
    decreases parts.len(),
{
    if parts.len() == 0 {
        seq![]
    } else if parts.last().len() == 0 {
        nonempty(parts.drop_last())
    } else {
        nonempty(parts.drop_last()).push(parts.last())
    }
}

fn nonempty_parts(out: &str) -> (r: Vec<String>)
    ensures
        strs(r@) == nonempty(split_on(out@, '\0')),
{
    let parts = split(out, '\0');
    let ghost all = split_on(out@, '\0');
    let mut r: Vec<String> = Vec::new();
    let mut i: usize = 0;
    assert(all.take(0) =~= Seq::<Seq<char>>::empty());
    assert(strs(r@) =~= Seq::<Seq<char>>::empty());
    while i < parts.len()
        invariant
            strs(parts@) == all,
            i <= parts@.len(),
            strs(r@) == nonempty(all.take(i as int)),
        decreases parts@.len() - i,
    {
        let part = &parts[i];
        proof {
            assert(all[i as int] == part@);
            assert(all.take(i + 1).drop_last() =~= all.take(i as int));
            assert(all.take(i + 1).last() == part@);
        }
        if chars_of(part.as_str()).len() > 0 {
            let ghost r0 = r@;
            let p = part.clone();
            r.push(p);
            assert(strs(r@) =~= strs(r0).push(part@));
        }
        i += 1;
    }
    assert(all.take(all.len() as int) =~= all);
    r
}

/// Whether a word of the listing announces two paths.
pub open spec fn is_move(word: Seq<char>) -> bool {
    word.len() > 0 && (word[0] == 'R' || word[0] == 'C')
}

/// An entry of the status listing: status, old path of a moved file, path.
pub type NameStatusV = (FileStatus, Option<Seq<char>>, Seq<char>);

/// The entries of the status listing; an entry that is cut short ends it.
pub open spec fn name_status(toks: Seq<Seq<char>>) -> Seq<NameStatusV>
    decreases toks.len(),
{
    if toks.len() == 0 {
        seq![]
    } else if is_move(toks[0]) {
        if toks.len() < 3 {
            seq![]
        } else {
            seq![(status_of(toks[0]), Some(toks[1]), toks[2])] + name_status(toks.skip(3))
        }
    } else if toks.len() < 2 {
        seq![]
    } else {
        seq![(status_of(toks[0]), None, toks[1])] + name_status(toks.skip(2))
    }
}

/// The values of entries of the status listing.
pub open spec fn ns_view(v: Seq<(FileStatus, Option<String>, String)>) -> Seq<NameStatusV> {
    v.map_values(|e: (FileStatus, Option<String>, String)| (e.0, opt_str(e.1), e.2@))
}

/// Read the status listing.
pub fn parse_name_status(out: &str) -> (r: Vec<(FileStatus, Option<String>, String)>)
    ensures
        ns_view(r@) == name_status(nonempty(split_on(out@, '\0'))),
{
    let toks = nonempty_parts(out);
    let ghost all = nonempty(split_on(out@, '\0'));
    let mut r: Vec<(FileStatus, Option<String>, String)> = Vec::new();
    let mut i: usize = 0;
    assert(all.skip(0) =~= all);
    assert(ns_view(r@) =~= Seq::<NameStatusV>::empty());
    while i < toks.len()
        invariant
            strs(toks@) == all,
            all == nonempty(split_on(out@, '\0')),
            i <= toks@.len(),
            ns_view(r@) + name_status(all.skip(i as int)) =~= name_status(all),
        decreases toks@.len() - i,
    {
        let word = toks[i].as_str();
        let status = parse_status_char(word);
        let ghost rest = all.skip(i as int);
        let ghost r0 = r@;
        proof {
            assert(rest[0] == all[i as int]);
            assert(all[i as int] == toks@[i as int]@);
            reveal_strlit("R");
            reveal_strlit("C");
            assert(begins(word@, "R"@) == (word@.len() > 0 && word@[0] == 'R')) by {
                if word@.len() > 0 && word@[0] == 'R' {
                    assert(word@.take(1) =~= "R"@);
                }
                if begins(word@, "R"@) {
                    assert(word@.take(1)[0] == "R"@[0]);
                }
            }
            assert(begins(word@, "C"@) == (word@.len() > 0 && word@[0] == 'C')) by {
                if word@.len() > 0 && word@[0] == 'C' {
                    assert(word@.take(1) =~= "C"@);
                }
                if begins(word@, "C"@) {
                    assert(word@.take(1)[0] == "C"@[0]);
                }
            }
        }
        if starts_with(word, "R") || starts_with(word, "C") {
            if toks.len() - i < 3 {
                return r;
            }
            let old = toks[i + 1].clone();
            let new = toks[i + 2].clone();
            let e = (status, Some(old), new);
            r.push(e);
            proof {
                assert(rest[1] == toks@[i + 1]@);
                assert(rest[2] == toks@[i + 2]@);
                assert(ns_view(r@) =~= ns_view(r0).push((status, Some(old@), new@)));
                assert(rest.skip(3) =~= all.skip(i + 3));
            }
            i += 3;
        } else {
            if toks.len() - i < 2 {
                return r;
            }
            let path = toks[i + 1].clone();
            let e = (status, None, path);
            r.push(e);
            proof {
                assert(rest[1] == toks@[i + 1]@);
                assert(ns_view(r@) =~= ns_view(r0).push((status, None, path@)));
                assert(rest.skip(2) =~= all.skip(i + 2));
            }
            i += 2;
        }
    }
    r
}

/// The first two fields between tabs, and the rest; `None` where there are fewer than two tabs.
pub open spec fn three_fields(s: Seq<char>) -> Option<(Seq<char>, Seq<char>, Seq<char>)> {
    let i = find(s, Stop::At('\t'));
    let t = s.skip(i + 1);
    let j = find(t, Stop::At('\t'));
    if i >= s.len() || j >= t.len() {
        None
    } else {
        Some((s.take(i), t.take(j), t.skip(j + 1)))
    }
}

fn split_three(s: &str) -> (r: Option<(String, String, String)>)
    ensures
        match r {
            Some(f) => three_fields(s@) == Some((f.0@, f.1@, f.2@)),
            None => three_fields(s@) is None,
        },
{
    let v = chars_of(s);
    assert(v@.skip(0) =~= v@);
    let i = find_from(&v, 0, Stop::At('\t'));
    if i >= v.len() {
        return None;
    }
    let j = find_from(&v, i + 1, Stop::At('\t'));
    let ghost t = s@.skip(i + 1);
    if j >= v.len() {
        return None;
    }
    let a = string_of(&v, 0, i);
    let b = string_of(&v, i + 1, j);
    let c = string_of(&v, j + 1, v.len());
    proof {
        assert(a@ =~= s@.take(i as int));
        assert(b@ =~= t.take(j - i - 1));
        assert(c@ =~= t.skip(j - i - 1 + 1));
    }
    Some((a, b, c))
}

/// The count that a field of the numbers listing denotes; `None` for a binary file.
pub open spec fn count_of(field: Seq<char>) -> Option<u64> {
    match unsigned_value(field, u64::MAX as nat) {
        Some(n) => Some(n as u64),
        None => None,
    }
}

/// An entry of the numbers listing: path, added and removed lines.
pub type NumstatV = (Seq<char>, Option<u64>, Option<u64>);

/// The entries of the numbers listing. Where the path is empty, the old and the new path of a
/// moved file follow.
pub open spec fn numstat(toks: Seq<Seq<char>>) -> Seq<NumstatV>
    decreases toks.len(),
{
    if toks.len() == 0 {
        seq![]
    } else {
        match three_fields(toks[0]) {
            None => numstat(toks.skip(1)),
            Some((a, d, path)) => if path.len() > 0 {
                seq![(path, count_of(a), count_of(d))] + numstat(toks.skip(1))
            } else if toks.len() < 3 {
                seq![]
            } else {
                seq![(toks[2], count_of(a), count_of(d))] + numstat(toks.skip(3))
            },
        }
    }
}

/// The values of entries of the numbers listing.
pub open spec fn num_view(v: Seq<(String, Option<u64>, Option<u64>)>) -> Seq<NumstatV> {
    v.map_values(|e: (String, Option<u64>, Option<u64>)| (e.0@, e.1, e.2))
}

/// Read the numbers listing.
pub fn parse_numstat(out: &str) -> (r: Vec<(String, Option<u64>, Option<u64>)>)
    ensures
        num_view(r@) == numstat(split_on(out@, '\0')),
{
    let toks = split(out, '\0');
    let ghost all = split_on(out@, '\0');
    let mut r: Vec<(String, Option<u64>, Option<u64>)> = Vec::new();
    let mut i: usize = 0;
    assert(all.skip(0) =~= all);
    assert(num_view(r@) =~= Seq::<NumstatV>::empty());
    while i < toks.len()
        invariant
            strs(toks@) == all,
            all == split_on(out@, '\0'),
            i <= toks@.len(),
            num_view(r@) + numstat(all.skip(i as int)) =~= numstat(all),
        decreases toks@.len() - i,
    {
        let ghost rest = all.skip(i as int);
        let ghost r0 = r@;
        proof {
            assert(rest[0] == all[i as int]);
            assert(all[i as int] == toks@[i as int]@);
            assert(rest.skip(1) =~= all.skip(i + 1));
        }
        match split_three(toks[i].as_str()) {
            None => {
                i += 1;
            },
            Some((a, d, path)) => {
                let added = parse_unsigned(a.as_str(), u64::MAX);
                let deleted = parse_unsigned(d.as_str(), u64::MAX);
                if chars_of(path.as_str()).len() > 0 {
                    r.push((path, added, deleted));
                    assert(num_view(r@) =~= num_view(r0).push((path@, added, deleted)));
                    i += 1;
                } else {
                    if toks.len() - i < 3 {
                        return r;
                    }
                    let new = toks[i + 2].clone();
                    r.push((new, added, deleted));
                    proof {
                        assert(rest[2] == toks@[i + 2]@);
                        assert(num_view(r@) =~= num_view(r0).push((new@, added, deleted)));
                        assert(rest.skip(3) =~= all.skip(i + 3));
                    }
                    i += 3;
                }
            },
        }
    }
    r
}

/// The counts of a path in the numbers listing: those of its last entry.
pub open spec fn counts_of(stats: Seq<NumstatV>, path: Seq<char>) -> (Option<u64>, Option<u64>)
    decreases stats.len(),
{
    if stats.len() == 0 {
        (None, None)
    } else if stats.last().0 == path {
        (stats.last().1, stats.last().2)
    } else {
        counts_of(stats.drop_last(), path)
    }
}

fn find_counts(stats: &Vec<(String, Option<u64>, Option<u64>)>, path: &str) -> (r: (
    Option<u64>,
    Option<u64>,
))
    ensures
        r == counts_of(num_view(stats@), path@),
{
    let ghost all = num_view(stats@);
    let mut i: usize = stats.len();
    assert(all.take(all.len() as int) =~= all);
    while i > 0
        invariant
            all == num_view(stats@),
            i <= stats@.len(),
            counts_of(all, path@) == counts_of(all.take(i as int), path@),
        decreases i,
    {
        let e = &stats[i - 1];
        proof {
            assert(all[i - 1] == (e.0@, e.1, e.2));
            assert(all.take(i as int).last() == all[i - 1]);
            assert(all.take(i as int).drop_last() =~= all.take(i - 1));
        }
        if same(e.0.as_str(), path) {
            return (e.1, e.2);
        }
        i -= 1;
    }
    assert(all.take(0) =~= Seq::<NumstatV>::empty());
    (None, None)
}

/// The line feeds in some bytes.
pub open spec fn newlines(data: Seq<u8>) -> nat
    decreases data.len(),
{
    if data.len() == 0 {
        0
    } else if data.last() == 10 {
        newlines(data.drop_last()) + 1
    } else {
        newlines(data.drop_last())
    }
}

/// Whether a zero byte stands among the first 8192.
pub open spec fn looks_binary(data: Seq<u8>) -> bool {
    exists|i: int| 0 <= i < data.len() && i < 8192 && #[trigger] data[i] == 0
}

/// The lines of a file that end in a line feed, so that a last line without one is not counted;
/// `None` where the file could not be read or looks binary.
pub open spec fn line_count(data: Option<Seq<u8>>) -> Option<u64> {
    match data {
        Some(d) => if looks_binary(d) {
            None
        } else {
            Some(newlines(d) as u64)
        },
        None => None,
    }
}

/// The bytes of a file that could be read.
pub open spec fn opt_bytes(data: Option<Vec<u8>>) -> Option<Seq<u8>> {
    match data {
        Some(d) => Some(d@),
        None => None,
    }
}

/// Count the lines of a file that is not tracked. A last line without a line feed is not counted.
pub fn count_lines(data: &Option<Vec<u8>>) -> (r: Option<u64>)
    ensures
        r == line_count(opt_bytes(*data)),
{
    match data {
        None => None,
        Some(d) => {
            let mut i: usize = 0;
            while i < d.len() && i < 8192
                invariant
                    opt_bytes(*data) == Some(d@),
                    i <= d@.len(),
                    forall|k: int| 0 <= k < i ==> #[trigger] d@[k] != 0,
                decreases d@.len() - i,
            {
                if d[i] == 0 {
                    return None;
                }
                i += 1;
            }
            let mut n: u64 = 0;
            let mut k: usize = 0;
            assert(d@.take(0) =~= Seq::<u8>::empty());
            while k < d.len()
                invariant
                    k <= d.len(),
                    n == newlines(d@.take(k as int)),
                    n <= k,
                decreases d.len() - k,
            {
                assert(d@.take(k + 1).drop_last() =~= d@.take(k as int));
                assert(d@.take(k + 1).last() == d@[k as int]);
                if d[k] == 10 {
                    n += 1;
                }
                k += 1;
            }
            assert(d@.take(d@.len() as int) =~= d@);
            Some(n)
        },
    }
}

/// The arguments that ask for a listing of changes, of statuses or of numbers.
pub open spec fn listing_question(source: SourceV, mb: Seq<char>, kind: Seq<char>) -> Seq<
    Seq<char>,
> {
    match source {
        SourceV::All => seq!["diff"@, kind, "-M"@, "-z"@, mb],
        SourceV::Current => seq!["diff"@, kind, "-M"@, "-z"@, "HEAD"@],
        SourceV::Commit(sha) => seq!["show"@, "--format="@, kind, "-M"@, "-z"@, sha],
    }
}

fn listing_args(source: &DiffSource, mb: &str, kind: &str) -> (r: Vec<String>)
    ensures
        strs(r@) == listing_question(source@, mb@, kind@),
{
    let mut v: Vec<String> = Vec::new();
    match source {
        DiffSource::Commit(_) => {
            v.push("show".to_string());
            v.push("--format=".to_string());
        },
        _ => {
            v.push("diff".to_string());
        },
    }
    v.push(kind.to_string());
    v.push("-M".to_string());
    v.push("-z".to_string());
    match source {
        DiffSource::All => v.push(mb.to_string()),
        DiffSource::Current => v.push("HEAD".to_string()),
        DiffSource::Commit(sha) => v.push(sha.clone()),
    }
    assert(strs(v@) =~= listing_question(source@, mb@, kind@));
    v
}

/// The arguments that ask for the status listing of a source.
pub fn name_status_args(source: &DiffSource, mb: &str) -> (r: Vec<String>)
    ensures
        strs(r@) == listing_question(source@, mb@, "--name-status"@),
{
    listing_args(source, mb, "--name-status")
}

/// The arguments that ask for the numbers listing of a source.
pub fn numstat_args(source: &DiffSource, mb: &str) -> (r: Vec<String>)
    ensures
        strs(r@) == listing_question(source@, mb@, "--numstat"@),
{
    listing_args(source, mb, "--numstat")
}

/// Whether files that are not tracked belong to a source.
pub fn with_untracked(source: &DiffSource) -> (r: bool)
    ensures
        r == (source@ is All || source@ is Current),
{
    match source {
        DiffSource::Commit(_) => false,
        _ => true,
    }
}

/// The arguments that ask for the files that are not tracked.
pub fn untracked_args() -> (r: Vec<String>)
    ensures
        strs(r@) == seq!["ls-files"@, "--others"@, "--exclude-standard"@, "-z"@],
{
    let mut v: Vec<String> = Vec::new();
    v.push("ls-files".to_string());
    v.push("--others".to_string());
    v.push("--exclude-standard".to_string());
    v.push("-z".to_string());
    assert(strs(v@) =~= seq!["ls-files"@, "--others"@, "--exclude-standard"@, "-z"@]);
    v
}

/// The paths that do not end in a slash; one that does is a repository in the worktree.
pub open spec fn plain_files(parts: Seq<Seq<char>>) -> Seq<Seq<char>>
    decreases parts.len(),
{
    if parts.len() == 0 {
        seq![]
    } else if parts.last().len() == 0 || parts.last().last() == '/' {
        plain_files(parts.drop_last())
    } else {
        plain_files(parts.drop_last()).push(parts.last())
    }
}

/// The paths in the listing of files that are not tracked.
pub fn untracked_paths(out: &str) -> (r: Vec<String>)
    ensures
        strs(r@) == plain_files(split_on(out@, '\0')),
{
    let parts = split(out, '\0');
    let ghost all = split_on(out@, '\0');
    let mut r: Vec<String> = Vec::new();
    let mut i: usize = 0;
    assert(all.take(0) =~= Seq::<Seq<char>>::empty());
    assert(strs(r@) =~= Seq::<Seq<char>>::empty());
    while i < parts.len()
        invariant
            strs(parts@) == all,
            i <= parts@.len(),
            strs(r@) == plain_files(all.take(i as int)),
        decreases parts@.len() - i,
    {
        let part = &parts[i];
        let v = chars_of(part.as_str());
        proof {
            assert(all[i as int] == part@);
            assert(all.take(i + 1).drop_last() =~= all.take(i as int));
            assert(all.take(i + 1).last() == part@);
        }
        if v.len() > 0 && v[v.len() - 1] != '/' {
            let ghost r0 = r@;
            let p = part.clone();
            r.push(p);
            assert(strs(r@) =~= strs(r0).push(part@));
        }
        i += 1;
    }
    assert(all.take(all.len() as int) =~= all);
    r
}

/// The file of an entry of the status listing.
pub open spec fn file_of(e: NameStatusV, stats: Seq<NumstatV>) -> FileV {
    FileV {
        path: e.2,
        old_path: e.1,
        status: e.0,
        added: counts_of(stats, e.2).0,
        deleted: counts_of(stats, e.2).1,
    }
}

/// A file that is not tracked: all its lines are added.
pub open spec fn untracked_file(path: Seq<char>, lines: Option<u64>) -> FileV {
    FileV {
        path,
        old_path: None,
        status: FileStatus::Untracked,
        added: lines,
        deleted: match lines {
            Some(_) => Some(0),
            None => None,
        },
    }
}

/// The files that the listings name: tracked ones, then the others.
pub open spec fn listed_files(
    ns: Seq<NameStatusV>,
    stats: Seq<NumstatV>,
    untracked: Seq<(Seq<char>, Option<u64>)>,
) -> Seq<FileV> {
    ns.map_values(|e: NameStatusV| file_of(e, stats)) + untracked.map_values(
        |u: (Seq<char>, Option<u64>)| untracked_file(u.0, u.1),
    )
}

/// Files in order, with `f` put behind those that do not come after it.
pub open spec fn insert_file(v: Seq<FileV>, f: FileV) -> Seq<FileV>
    decreases v.len(),
{
    if v.len() == 0 || !before(f.path, v.last().path) {
        v.push(f)
    } else {
        insert_file(v.drop_last(), f).push(v.last())
    }
}

/// Files sorted by path; those with the same path stay in order.
pub open spec fn sorted(v: Seq<FileV>) -> Seq<FileV>
    decreases v.len(),
{
    if v.len() == 0 {
        v
    } else {
        insert_file(sorted(v.drop_last()), v.last())
    }
}

/// The values of files that are not tracked, with their lines.
pub open spec fn untracked_view(v: Seq<(String, Option<u64>)>) -> Seq<(Seq<char>, Option<u64>)> {
    v.map_values(|u: (String, Option<u64>)| (u.0@, u.1))
}

/// The changed files that the answers describe.
pub open spec fn changed(
    ns: Seq<char>,
    num: Seq<char>,
    untracked: Seq<(Seq<char>, Option<u64>)>,
) -> Seq<FileV> {
    sorted(
        listed_files(
            name_status(nonempty(split_on(ns, '\0'))),
            numstat(split_on(num, '\0')),
            untracked,
        ),
    )
}

fn put_file(files: &mut Vec<FileChange>, f: FileChange)
    ensures
        files_view(final(files)@) == insert_file(files_view(old(files)@), f@),
{
    let ghost all = files_view(files@);
    let mut i: usize = files.len();
    assert(all.take(all.len() as int) =~= all);
    assert(all.skip(all.len() as int) =~= Seq::<FileV>::empty());
    assert(insert_file(all, f@) =~= insert_file(all.take(i as int), f@) + all.skip(i as int));
    while i > 0 && less(f.path.as_str(), files[i - 1].path.as_str())
        invariant
            all == files_view(files@),
            i <= files@.len(),
            insert_file(all, f@) == insert_file(all.take(i as int), f@) + all.skip(i as int),
        decreases i,
    {
        proof {
            assert(all[i - 1] == files@[i - 1]@);
            assert(all.take(i as int).last() == all[i - 1]);
            assert(all.take(i as int).drop_last() =~= all.take(i - 1));
            assert(insert_file(all.take(i - 1), f@).push(all[i - 1]) + all.skip(i as int)
                =~= insert_file(all.take(i - 1), f@) + all.skip(i - 1));
        }
        i -= 1;
    }
    proof {
        if i > 0 {
            assert(all[i - 1] == files@[i - 1]@);
            assert(all.take(i as int).last() == all[i - 1]);
        }
        assert(insert_file(all.take(i as int), f@) == all.take(i as int).push(f@));
    }
    let ghost before_files = files@;
    files.insert(i, f);
    assert(files_view(files@) =~= all.take(i as int).push(f@) + all.skip(i as int));
}

/// The changed files for the answers to the status, numbers and untracked questions, sorted by
/// path.
pub fn changed_files(ns: &str, num: &str, untracked: &Vec<(String, Option<u64>)>) -> (r: Vec<
    FileChange,
>)
    ensures
        files_view(r@) == changed(ns@, num@, untracked_view(untracked@)),
{
    let entries = parse_name_status(ns);
    let stats = parse_numstat(num);
    let ghost listed = listed_files(ns_view(entries@), num_view(stats@), untracked_view(untracked@));
    let mut files: Vec<FileChange> = Vec::new();
    let mut i: usize = 0;
    assert(listed.take(0) =~= Seq::<FileV>::empty());
    assert(files_view(files@) =~= Seq::<FileV>::empty());
    while i < entries.len()
        invariant
            listed == listed_files(
                ns_view(entries@),
                num_view(stats@),
                untracked_view(untracked@),
            ),
            i <= entries@.len(),
            files_view(files@) == sorted(listed.take(i as int)),
        decreases entries@.len() - i,
    {
        let e = &entries[i];
        let (added, deleted) = find_counts(&stats, e.2.as_str());
        let old_path = match &e.1 {
            Some(p) => Some(p.clone()),
            None => None,
        };
        let f = FileChange { path: e.2.clone(), old_path, status: e.0, added, deleted };
        proof {
            assert(ns_view(entries@)[i as int] == (e.0, opt_str(e.1), e.2@));
            assert(f@ =~= listed[i as int]);
            assert(listed.take(i + 1).drop_last() =~= listed.take(i as int));
            assert(listed.take(i + 1).last() == f@);
        }
        put_file(&mut files, f);
        i += 1;
    }
    let n = entries.len();
    let mut k: usize = 0;
    while k < untracked.len()
        invariant
            listed == listed_files(
                ns_view(entries@),
                num_view(stats@),
                untracked_view(untracked@),
            ),
            n == entries@.len(),
            k <= untracked@.len(),
            files_view(files@) == sorted(listed.take(n + k)),
        decreases untracked@.len() - k,
    {
        let u = &untracked[k];
        let f = FileChange {
            path: u.0.clone(),
            old_path: None,
            status: FileStatus::Untracked,
            added: u.1,
            deleted: match u.1 {
                Some(_) => Some(0),
                None => None,
            },
        };
        proof {
            assert(untracked_view(untracked@)[k as int] == (u.0@, u.1));
            assert(f@ =~= listed[n + k]);
            assert(listed.take(n + k + 1).drop_last() =~= listed.take(n + k));
            assert(listed.take(n + k + 1).last() == f@);
        }
        put_file(&mut files, f);
        k += 1;
    }
    assert(listed.take(listed.len() as int) =~= listed);
    files
}

/// Whether files are in order of their paths.
pub open spec fn in_order(v: Seq<FileV>) -> bool {
    forall|i: int, j: int|
        0 <= i < j < v.len() ==> !before((#[trigger] v[j]).path, (#[trigger] v[i]).path)
}

proof fn lemma_insert_file(v: Seq<FileV>, f: FileV)
    requires
        in_order(v),
    ensures
        in_order(insert_file(v, f)),
        insert_file(v, f).to_multiset() == v.to_multiset().insert(f),
        insert_file(v, f).len() == v.len() + 1,
        forall|i: int|
            0 <= i < insert_file(v, f).len() ==> (#[trigger] insert_file(v, f)[i]) == f || v.contains(
                insert_file(v, f)[i],
            ),
    decreases v.len(),
{
    broadcast use vstd::seq_lib::group_to_multiset_ensures;

    let r = insert_file(v, f);
    if v.len() == 0 || !before(f.path, v.last().path) {
        assert forall|i: int, j: int| 0 <= i < j < r.len() implies !before(
            (#[trigger] r[j]).path,
            (#[trigger] r[i]).path,
        ) by {
            if j == v.len() {
                if before(f.path, v[i].path) {
                    if i < v.len() - 1 {
                        lemma_before_total(v[i].path, v.last().path);
                        lemma_not_before(f.path, v[i].path, v.last().path);
                    }
                }
            }
        }
        assert forall|i: int| 0 <= i < r.len() implies (#[trigger] r[i]) == f || v.contains(
            r[i],
        ) by {
            if i < v.len() {
                assert(v[i] == r[i]);
            }
        }
    } else {
        let head = v.drop_last();
        let last = v.last();
        lemma_insert_file(head, f);
        let h = insert_file(head, f);
        assert forall|i: int, j: int| 0 <= i < j < r.len() implies !before(
            (#[trigger] r[j]).path,
            (#[trigger] r[i]).path,
        ) by {
            if j < h.len() {
                assert(r[i] == h[i]);
                assert(r[j] == h[j]);
            } else {
                assert(r[i] == h[i]);
                if h[i] == f {
                    lemma_before_total(f.path, last.path);
                } else {
                    let k = choose|k: int| 0 <= k < head.len() && head[k] == h[i];
                    assert(v[k] == h[i]);
                    assert(!before(v[v.len() - 1].path, v[k].path));
                }
            }
        }
        assert forall|i: int| 0 <= i < r.len() implies (#[trigger] r[i]) == f || v.contains(
            r[i],
        ) by {
            if i < h.len() {
                assert(r[i] == h[i]);
                if h[i] != f {
                    let k = choose|k: int| 0 <= k < head.len() && head[k] == h[i];
                    assert(v[k] == r[i]);
                }
            } else {
                assert(v[v.len() - 1] == r[i]);
            }
        }
        assert(v =~= head.push(last));
        assert(r.to_multiset() =~= v.to_multiset().insert(f));
    }
}

proof fn lemma_not_before(a: Seq<char>, b: Seq<char>, c: Seq<char>)
    requires
        before(a, b),
        !before(c, b),
    ensures
        before(a, c),
{
    lemma_before_total(b, c);
    if b != c {
        lemma_before_trans(a, b, c);
    }
}

/// Sorting puts files in order of their paths, and neither loses nor adds any.
pub proof fn law_sorted(v: Seq<FileV>)
    ensures
        in_order(sorted(v)),
        sorted(v).to_multiset() == v.to_multiset(),
        sorted(v).len() == v.len(),
    decreases v.len(),
{
    broadcast use vstd::seq_lib::group_to_multiset_ensures;

    if v.len() > 0 {
        law_sorted(v.drop_last());
        lemma_insert_file(sorted(v.drop_last()), v.last());
        assert(v =~= v.drop_last().push(v.last()));
    }
}

/// The files of `v` with the path `p`, in order.
pub open spec fn at_path(v: Seq<FileV>, p: Seq<char>) -> Seq<FileV>
    decreases v.len(),
{
    if v.len() == 0 {
        v
    } else if v.last().path == p {
        at_path(v.drop_last(), p).push(v.last())
    } else {
        at_path(v.drop_last(), p)
    }
}

proof fn lemma_insert_at_path(v: Seq<FileV>, f: FileV, p: Seq<char>)
    ensures
        at_path(insert_file(v, f), p) == (if f.path == p {
            at_path(v, p).push(f)
        } else {
            at_path(v, p)
        }),
    decreases v.len(),
{
    let r = insert_file(v, f);
    if v.len() == 0 || !before(f.path, v.last().path) {
        assert(r.drop_last() =~= v);
    } else {
        lemma_insert_at_path(v.drop_last(), f, p);
        lemma_before_total(f.path, v.last().path);
        assert(r.drop_last() =~= insert_file(v.drop_last(), f));
    }
}

/// Sorting keeps files with the same path in their order.
pub proof fn law_sorted_is_stable(v: Seq<FileV>, p: Seq<char>)
    ensures
        at_path(sorted(v), p) == at_path(v, p),
    decreases v.len(),
{
    if v.len() > 0 {
        law_sorted_is_stable(v.drop_last(), p);
        lemma_insert_at_path(sorted(v.drop_last()), v.last(), p);
    }
}

// ---- Diff text and totals --------------------------------------------------------

/// The arguments that ask for the diff of one file.
pub open spec fn diff_question(source: SourceV, file: FileV, mb: Seq<char>) -> Seq<Seq<char>> {
    if file.status == FileStatus::Untracked {
        seq!["diff"@, "--no-index"@, "--"@, "/dev/null"@, file.path]
    } else {
        let start = match source {
            SourceV::All => seq!["diff"@, "-M"@, mb],
            SourceV::Current => seq!["diff"@, "-M"@, "HEAD"@],
            SourceV::Commit(sha) => seq!["show"@, "--format="@, "-M"@, sha],
        };
        let paths = match file.old_path {
            Some(old) => seq!["--"@, old, file.path],
            None => seq!["--"@, file.path],
        };
        start + paths
    }
}

/// The arguments that ask for the diff of one file.
pub fn diff_text_args(source: &DiffSource, file: &FileChange, mb: &str) -> (r: Vec<String>)
    ensures
        strs(r@) == diff_question(source@, file@, mb@),
{
    let mut v: Vec<String> = Vec::new();
    if file.status == FileStatus::Untracked {
        v.push("diff".to_string());
        v.push("--no-index".to_string());
        v.push("--".to_string());
        v.push("/dev/null".to_string());
        v.push(file.path.clone());
        assert(strs(v@) =~= diff_question(source@, file@, mb@));
        return v;
    }
    match source {
        DiffSource::All => {
            v.push("diff".to_string());
            v.push("-M".to_string());
            v.push(mb.to_string());
        },
        DiffSource::Current => {
            v.push("diff".to_string());
            v.push("-M".to_string());
            v.push("HEAD".to_string());
        },
        DiffSource::Commit(sha) => {
            v.push("show".to_string());
            v.push("--format=".to_string());
            v.push("-M".to_string());
            v.push(sha.clone());
        },
    }
    v.push("--".to_string());
    if let Some(old) = &file.old_path {
        v.push(old.clone());
    }
    v.push(file.path.clone());
    assert(strs(v@) =~= diff_question(source@, file@, mb@));
    v
}

/// A count, or 0.
pub open spec fn count(n: Option<u64>) -> nat {
    match n {
        Some(n) => n as nat,
        None => 0,
    }
}

/// The added and removed lines of files, summed up.
pub open spec fn sums(v: Seq<FileV>) -> (nat, nat)
    decreases v.len(),
{
    if v.len() == 0 {
        (0, 0)
    } else {
        let (a, d) = sums(v.drop_last());
        (a + count(v.last().added), d + count(v.last().deleted))
    }
}

/// What is left of a sum in 64 bits.
pub open spec fn low(n: nat) -> u64 {
    (n % 0x1_0000_0000_0000_0000) as u64
}

/// The added and removed lines of files, as they are shown: the sums in 64 bits.
pub open spec fn totals_of(v: Seq<FileV>) -> (u64, u64) {
    (low(sums(v).0), low(sums(v).1))
}

/// The added and removed lines of files.
pub fn totals(files: &Vec<FileChange>) -> (r: (u64, u64))
    ensures
        r == totals_of(files_view(files@)),
{
    let ghost all = files_view(files@);
    let mut a: u64 = 0;
    let mut d: u64 = 0;
    let mut i: usize = 0;
    assert(all.take(0) =~= Seq::<FileV>::empty());
    while i < files.len()
        invariant
            all == files_view(files@),
            i <= files@.len(),
            (a, d) == totals_of(all.take(i as int)),
        decreases files@.len() - i,
    {
        let f = &files[i];
        let x: u64 = match f.added {
            Some(n) => n,
            None => 0,
        };
        let y: u64 = match f.deleted {
            Some(n) => n,
            None => 0,
        };
        proof {
            assert(all[i as int] == f@);
            assert(all.take(i + 1).drop_last() =~= all.take(i as int));
            assert(all.take(i + 1).last() == f@);
        }
        a = a.wrapping_add(x);
        d = d.wrapping_add(y);
        i += 1;
    }
    assert(all.take(all.len() as int) =~= all);
    (a, d)
}

/// Totals do not depend on the order of the files: sorting keeps them.
pub proof fn law_totals_of_sorted(v: Seq<FileV>)
    ensures
        sums(sorted(v)) == sums(v),
    decreases v.len(),
{
    if v.len() > 0 {
        law_totals_of_sorted(v.drop_last());
        lemma_sums_insert(sorted(v.drop_last()), v.last());
    }
}

proof fn lemma_sums_insert(v: Seq<FileV>, f: FileV)
    ensures
        sums(insert_file(v, f)) == (sums(v).0 + count(f.added), sums(v).1 + count(f.deleted)),
    decreases v.len(),
{
    let r = insert_file(v, f);
    if v.len() == 0 || !before(f.path, v.last().path) {
        assert(r.drop_last() =~= v);
    } else {
        lemma_sums_insert(v.drop_last(), f);
        assert(r.drop_last() =~= insert_file(v.drop_last(), f));
    }
}

} // verus!
