use crate::subset::intersects;
use vstd::prelude::*;

verus! {

/// A set of states of an automaton whose states are `0..universe()`, kept
/// as one membership flag per state.
pub struct StateSet {
    flags: Vec<bool>,
}

impl View for StateSet {
    type V = Set<int>;

    closed spec fn view(&self) -> Set<int> {
        Set::new(|s: int| 0 <= s < self.flags.len() && self.flags[s])
    }
}

impl StateSet {
    /// The number of states that the set ranges over.
    pub closed spec fn universe(&self) -> int {
        self.flags.len() as int
    }

    /// Every member is a state below `universe()`.
    pub proof fn lemma_members_in_universe(&self)
        ensures
            forall|s: int| self@.contains(s) ==> 0 <= s < self.universe(),
    {
    }

    /// The empty set over `n` states.
    pub fn empty(n: usize) -> (set: StateSet)
        ensures
            set@ == Set::<int>::empty(),
            set.universe() == n,
    {
        let mut flags: Vec<bool> = Vec::new();
        let mut s: usize = 0;
        while s < n
            invariant
                s <= n,
                flags.len() == s,
                forall|t: int| 0 <= t < s ==> !flags[t],
            decreases n - s,
        {
            flags.push(false);
            s += 1;
        }
        let set = StateSet { flags };
        assert(set@ =~= Set::<int>::empty());
        set
    }

    /// The number of states that the set ranges over.
    pub fn capacity(&self) -> (n: usize)
        ensures
            n == self.universe(),
    {
        self.flags.len()
    }

    /// Adds state `s` to the set.
    pub fn insert(&mut self, s: usize)
        requires
            s < old(self).universe(),
        ensures
            final(self)@ == old(self)@.insert(s as int),
            final(self).universe() == old(self).universe(),
        no_unwind
    {
        self.flags[s] = true;
        assert(self@ =~= old(self)@.insert(s as int));
    }

    /// Tells whether state `s` is in the set.
    pub fn contains(&self, s: usize) -> (r: bool)
        ensures
            r == self@.contains(s as int),
    {
        s < self.flags.len() && self.flags[s]
    }

    /// Tells whether the set has no member.
    pub fn is_empty(&self) -> (r: bool)
        ensures
            r == (self@ == Set::<int>::empty()),
    {
        let mut s: usize = 0;
        while s < self.flags.len()
            invariant
                s <= self.flags.len(),
                forall|t: int| 0 <= t < s ==> !self.flags[t],
            decreases self.flags.len() - s,
        {
            if self.flags[s] {
                assert(self@.contains(s as int));
                return false;
            }
            s += 1;
        }
        assert(self@ =~= Set::<int>::empty());
        true
    }

    /// Tells whether the two sets share a member.
    pub fn intersects(&self, other: &StateSet) -> (r: bool)
        ensures
            r == intersects(self@, other@),
    {
        let mut s: usize = 0;
        while s < self.flags.len()
            invariant
                s <= self.flags.len(),
                forall|t: int| 0 <= t < s ==> !(self@.contains(t) && other@.contains(t)),
            decreases self.flags.len() - s,
        {
            if self.flags[s] && other.contains(s) {
                assert(self@.contains(s as int) && other@.contains(s as int));
                return true;
            }
            s += 1;
        }
        false
    }
}

} // verus!
