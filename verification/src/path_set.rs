//! Sets of paths, told apart by their components.

use crate::paths::{components, same_path};
use vstd::prelude::*;
use vstd::string::*;

verus! {

/// What tells paths apart: the components of each.
pub open spec fn keys(v: Seq<String>) -> Seq<Seq<Seq<char>>> {
    v.map_values(|s: String| components(s@))
}

/// A set of paths.
#[derive(Debug)]
pub struct PathSet {
    items: Vec<String>,
}

impl View for PathSet {
    type V = Set<Seq<Seq<char>>>;

    closed spec fn view(&self) -> Set<Seq<Seq<char>>> {
        keys(self.items@).to_set()
    }
}

impl PathSet {
    /// The empty set.
    pub fn new() -> (r: PathSet)
        ensures
            r@ == Set::<Seq<Seq<char>>>::empty(),
    {
        let r = PathSet { items: Vec::new() };
        assert(r@ =~= Set::<Seq<Seq<char>>>::empty());
        r
    }

    /// The members of the set, in some order.
    pub fn items(&self) -> (r: &Vec<String>)
        ensures
            keys(r@).to_set() == self@,
    {
        &self.items
    }

    /// Whether `s` is in the set.
    pub fn contains(&self, s: &str) -> (r: bool)
        ensures
            r == self@.contains(components(s@)),
    {
        let mut i: usize = 0;
        while i < self.items.len()
            invariant
                i <= self.items@.len(),
                forall|k: int| 0 <= k < i ==> #[trigger] keys(self.items@)[k] != components(s@),
            decreases self.items@.len() - i,
        {
            assert(keys(self.items@)[i as int] == components(self.items@[i as int]@));
            if same_path(self.items[i].as_str(), s) {
                return true;
            }
            i += 1;
        }
        false
    }

    /// Put `s` into the set.
    pub fn insert(&mut self, s: String)
        ensures
            final(self)@ == old(self)@.insert(components(s@)),
    {
        if self.contains(s.as_str()) {
            assert(self@ =~= old(self)@.insert(components(s@)));
            return;
        }
        let ghost before_items = self.items@;
        self.items.push(s);
        proof {
            let a = keys(before_items);
            assert(keys(self.items@) =~= a.push(components(s@)));
            a.lemma_push_to_set_commute(components(s@));
            assert(self@ =~= old(self)@.insert(components(s@)));
        }
    }

    /// Take `s` out of the set.
    pub fn remove(&mut self, s: &str)
        ensures
            final(self)@ == old(self)@.remove(components(s@)),
    {
        let mut left: Vec<String> = Vec::new();
        let mut i: usize = 0;
        let ghost all = keys(self.items@);
        assert(all.take(0).to_set() =~= Set::<Seq<Seq<char>>>::empty());
        assert(keys(left@).to_set() =~= Set::<Seq<Seq<char>>>::empty());
        while i < self.items.len()
            invariant
                all == keys(self.items@),
                i <= self.items@.len(),
                keys(left@).to_set() == all.take(i as int).to_set().remove(components(s@)),
            decreases self.items@.len() - i,
        {
            let item = &self.items[i];
            let ghost left0 = keys(left@);
            let ghost a = all.take(i as int);
            proof {
                assert(all[i as int] == components(item@));
                assert(all.take(i + 1) =~= a.push(components(item@)));
                a.lemma_push_to_set_commute(components(item@));
            }
            if !same_path(item.as_str(), s) {
                let copy = item.clone();
                left.push(copy);
                assert(keys(left@) =~= left0.push(components(item@)));
                proof {
                    left0.lemma_push_to_set_commute(components(item@));
                }
            }
            assert(keys(left@).to_set() =~= all.take(i + 1).to_set().remove(components(s@)));
            i += 1;
        }
        assert(all.take(all.len() as int) =~= all);
        self.items = left;
    }
}

/// The members of `a` that are not in `b`.
pub fn difference(a: &PathSet, b: &PathSet) -> (r: Vec<String>)
    ensures
        keys(r@).to_set() == a@.difference(b@),
        keys(r@).no_duplicates(),
{
    let items = a.items();
    let ghost all = keys(items@);
    let mut out: Vec<String> = Vec::new();
    let mut seen = PathSet::new();
    let mut i: usize = 0;
    assert(all.take(0).to_set() =~= Set::<Seq<Seq<char>>>::empty());
    assert(keys(out@).to_set() =~= Set::<Seq<Seq<char>>>::empty());
    while i < items.len()
        invariant
            all == keys(items@),
            i <= items@.len(),
            keys(out@).to_set() == all.take(i as int).to_set().difference(b@),
            seen@ == keys(out@).to_set(),
            keys(out@).no_duplicates(),
        decreases items@.len() - i,
    {
        let item = &items[i];
        let ghost out0 = keys(out@);
        let ghost done = all.take(i as int);
        proof {
            assert(all[i as int] == components(item@));
            assert(all.take(i + 1) =~= done.push(components(item@)));
            done.lemma_push_to_set_commute(components(item@));
        }
        if !b.contains(item.as_str()) && !seen.contains(item.as_str()) {
            let copy = item.clone();
            seen.insert(item.clone());
            out.push(copy);
            assert(keys(out@) =~= out0.push(components(item@)));
            proof {
                out0.lemma_push_to_set_commute(components(item@));
                assert(!out0.contains(components(item@)));
                assert forall|x: int, y: int|
                    0 <= x < out0.push(components(item@)).len() && 0 <= y < out0.push(components(item@)).len() && x
                        != y implies out0.push(components(item@))[x] != out0.push(components(item@))[y] by {
                    if x < out0.len() && y < out0.len() {
                        assert(out0[x] != out0[y]);
                    } else if x < out0.len() {
                        assert(out0.contains(out0[x]));
                    } else if y < out0.len() {
                        assert(out0.contains(out0[y]));
                    }
                }
            }
        }
        assert(keys(out@).to_set() =~= all.take(i + 1).to_set().difference(b@));
        i += 1;
    }
    assert(all.take(all.len() as int) =~= all);
    out
}

} // verus!
