//! Which paths to watch, and which events matter.

use crate::path_set::{difference, keys, PathSet};
use crate::paths::{components, contains_component, has_component, is_in, lies_in};
use crate::text::strs;
use vstd::prelude::*;
use vstd::string::*;

verus! {

/// Whether a path lies in a `.git` directory.
pub open spec fn git_internal(p: Seq<char>) -> bool {
    has_component(p, ".git"@)
}

/// Whether a path lies in a `.git` directory.
pub fn is_git_internal(p: &str) -> (r: bool)
    ensures
        r == git_internal(p@),
{
    contains_component(p, ".git")
}

/// Whether an event matters: one of its paths is not git's own.
pub fn event_matters(paths: &Vec<String>) -> (r: bool)
    ensures
        r == exists|i: int| 0 <= i < paths@.len() && !git_internal(#[trigger] paths@[i]@),
{
    let mut i: usize = 0;
    while i < paths.len()
        invariant
            i <= paths@.len(),
            forall|k: int| 0 <= k < i ==> git_internal(#[trigger] paths@[k]@),
        decreases paths@.len() - i,
    {
        if !is_git_internal(paths[i].as_str()) {
            assert(!git_internal(paths@[i as int]@));
            return true;
        }
        i += 1;
    }
    false
}

/// The paths to watch, by their components: the top of the repository, and the worktrees that lie
/// outside of it.
pub open spec fn wanted(top: Seq<char>, worktrees: Seq<Seq<char>>) -> Set<
    Seq<Seq<char>>,
>
    decreases worktrees.len(),
{
    if worktrees.len() == 0 {
        Set::empty().insert(components(top))
    } else if lies_in(worktrees.last(), top) {
        wanted(top, worktrees.drop_last())
    } else {
        wanted(top, worktrees.drop_last()).insert(components(worktrees.last()))
    }
}

/// Changes to what is watched.
#[derive(Debug)]
pub struct Plan {
    /// No longer to be watched
    pub stale: Vec<String>,
    /// To be watched from now on
    pub new: Vec<String>,
}

/// What is watched.
#[derive(Debug)]
pub struct Watched {
    pub paths: PathSet,
}

impl Watched {
    /// Nothing is watched.
    pub fn new() -> (r: Watched)
        ensures
            r.paths@ == Set::<Seq<Seq<char>>>::empty(),
    {
        Watched { paths: PathSet::new() }
    }

    /// What has to change for the paths to watch to be watched. The stale paths are forgotten.
    pub fn sync(&mut self, repo_top: &str, worktrees: &Vec<String>) -> (r: Plan)
        ensures
            ({
                let want = wanted(repo_top@, strs(worktrees@));
                &&& keys(r.stale@).to_set() == old(self).paths@.difference(want)
                &&& keys(r.new@).to_set() == want.difference(old(self).paths@)
                &&& keys(r.stale@).no_duplicates()
                &&& keys(r.new@).no_duplicates()
                &&& final(self).paths@ == old(self).paths@.intersect(want)
            }),
    {
        let mut want = PathSet::new();
        want.insert(repo_top.to_string());
        let ghost all = strs(worktrees@);
        let mut i: usize = 0;
        assert(all.take(0) =~= Seq::<Seq<char>>::empty());
        while i < worktrees.len()
            invariant
                all == strs(worktrees@),
                i <= worktrees@.len(),
                want@ == wanted(repo_top@, all.take(i as int)),
            decreases worktrees@.len() - i,
        {
            let wt = worktrees[i].as_str();
            proof {
                assert(all[i as int] == wt@);
                assert(all.take(i + 1).drop_last() =~= all.take(i as int));
                assert(all.take(i + 1).last() == wt@);
            }
            if !is_in(wt, repo_top) {
                want.insert(wt.to_string());
            }
            i += 1;
        }
        assert(all.take(all.len() as int) =~= all);
        let stale = difference(&self.paths, &want);
        let new = difference(&want, &self.paths);
        let ghost had = self.paths@;
        let ghost gone = keys(stale@);
        let mut k: usize = 0;
        assert(gone.take(0).to_set() =~= Set::<Seq<Seq<char>>>::empty());
        assert(had.difference(gone.take(0).to_set()) =~= had);
        while k < stale.len()
            invariant
                gone == keys(stale@),
                k <= stale@.len(),
                self.paths@ == had.difference(gone.take(k as int).to_set()),
            decreases stale@.len() - k,
        {
            proof {
                assert(gone[k as int] == components(stale@[k as int]@));
                assert(gone.take(k + 1) =~= gone.take(k as int).push(gone[k as int]));
                gone.take(k as int).lemma_push_to_set_commute(gone[k as int]);
            }
            self.paths.remove(stale[k].as_str());
            assert(self.paths@ =~= had.difference(gone.take(k + 1).to_set()));
            k += 1;
        }
        assert(gone.take(gone.len() as int) =~= gone);
        assert(self.paths@ =~= had.intersect(want@));
        Plan { stale, new }
    }

    /// Note that a path is watched now.
    pub fn watching(&mut self, path: &str)
        ensures
            final(self).paths@ == old(self).paths@.insert(components(path@)),
    {
        self.paths.insert(path.to_string());
    }
}

/// When every new path could be watched, exactly the paths to watch are watched.
pub proof fn law_sync_reaches_wanted(had: Set<Seq<Seq<char>>>, want: Set<Seq<Seq<char>>>)
    ensures
        had.intersect(want).union(want.difference(had)) == want,
{
    assert(had.intersect(want).union(want.difference(had)) =~= want);
}

/// The top of the repository is always watched, and a worktree is unless it lies in the top.
pub proof fn law_everything_is_covered(top: Seq<char>, worktrees: Seq<Seq<char>>)
    ensures
        wanted(top, worktrees).contains(components(top)),
        forall|i: int|
            0 <= i < worktrees.len() ==> lies_in(#[trigger] worktrees[i], top) || wanted(
                top,
                worktrees,
            ).contains(components(worktrees[i])),
    decreases worktrees.len(),
{
    if worktrees.len() > 0 {
        law_everything_is_covered(top, worktrees.drop_last());
        assert forall|i: int| 0 <= i < worktrees.len() implies lies_in(
            #[trigger] worktrees[i],
            top,
        ) || wanted(top, worktrees).contains(components(worktrees[i])) by {
            if i < worktrees.len() - 1 {
                assert(worktrees.drop_last()[i] == worktrees[i]);
            }
        }
    }
}

} // verus!
