//! Sets of strings.

use crate::text::{same, strs};
use vstd::prelude::*;
use vstd::string::*;

verus! {

/// A set of strings.
#[derive(Debug)]
pub struct Names {
    items: Vec<String>,
}

impl View for Names {
    type V = Set<Seq<char>>;

    closed spec fn view(&self) -> Set<Seq<char>> {
        strs(self.items@).to_set()
    }
}

impl Names {
    /// The empty set.
    pub fn new() -> (r: Names)
        ensures
            r@ == Set::<Seq<char>>::empty(),
    {
        let r = Names { items: Vec::new() };
        assert(r@ =~= Set::<Seq<char>>::empty());
        r
    }

    /// The members of the set, in some order.
    pub fn items(&self) -> (r: &Vec<String>)
        ensures
            strs(r@).to_set() == self@,
    {
        &self.items
    }

    /// Whether `s` is in the set.
    pub fn contains(&self, s: &str) -> (r: bool)
        ensures
            r == self@.contains(s@),
    {
        let mut i: usize = 0;
        while i < self.items.len()
            invariant
                i <= self.items@.len(),
                forall|k: int| 0 <= k < i ==> #[trigger] strs(self.items@)[k] != s@,
            decreases self.items@.len() - i,
        {
            assert(strs(self.items@)[i as int] == self.items@[i as int]@);
            if same(self.items[i].as_str(), s) {
                return true;
            }
            i += 1;
        }
        false
    }

    /// Put `s` into the set.
    pub fn insert(&mut self, s: String)
        ensures
            final(self)@ == old(self)@.insert(s@),
    {
        if self.contains(s.as_str()) {
            assert(self@ =~= old(self)@.insert(s@));
            return;
        }
        let ghost before_items = self.items@;
        self.items.push(s);
        proof {
            let a = strs(before_items);
            assert(strs(self.items@) =~= a.push(s@));
            a.lemma_push_to_set_commute(s@);
            assert(self@ =~= old(self)@.insert(s@));
        }
    }

    /// Take `s` out of the set.
    pub fn remove(&mut self, s: &str)
        ensures
            final(self)@ == old(self)@.remove(s@),
    {
        let mut left: Vec<String> = Vec::new();
        let mut i: usize = 0;
        let ghost all = strs(self.items@);
        assert(all.take(0).to_set() =~= Set::<Seq<char>>::empty());
        assert(strs(left@).to_set() =~= Set::<Seq<char>>::empty());
        while i < self.items.len()
            invariant
                all == strs(self.items@),
                i <= self.items@.len(),
                strs(left@).to_set() == all.take(i as int).to_set().remove(s@),
            decreases self.items@.len() - i,
        {
            let item = &self.items[i];
            let ghost left0 = strs(left@);
            let ghost a = all.take(i as int);
            proof {
                assert(all[i as int] == item@);
                assert(all.take(i + 1) =~= a.push(item@));
                a.lemma_push_to_set_commute(item@);
            }
            if !same(item.as_str(), s) {
                let copy = item.clone();
                left.push(copy);
                assert(strs(left@) =~= left0.push(item@));
                proof {
                    left0.lemma_push_to_set_commute(item@);
                }
            }
            assert(strs(left@).to_set() =~= all.take(i + 1).to_set().remove(s@));
            i += 1;
        }
        assert(all.take(all.len() as int) =~= all);
        self.items = left;
    }
}

} // verus!
