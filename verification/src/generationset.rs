//! A membership set with constant-time reset via a generation counter.
//!
//! An identifier is a member when its slot holds the current
//! generation.  Reset bumps the generation, which empties the set
//! without touching the slots; on the rare wrap of the counter the
//! slots are cleared outright, so a reset set is always empty.

use vstd::prelude::*;

verus! {

pub struct GenerationSet {
    vals: Vec<u16>,
    generation: u16,
}

impl GenerationSet {
    /// The members, as a mathematical set.
    pub closed spec fn view(&self) -> Set<int> {
        Set::new(
            |i: int| 0 <= i < self.vals@.len() && self.vals@[i] == self.generation,
        )
    }

    /// How many identifiers the set can hold.
    pub closed spec fn spec_capacity(&self) -> int {
        self.vals@.len() as int
    }

    /// The current generation; members are slots holding it.
    pub closed spec fn spec_generation(&self) -> u16 {
        self.generation
    }

    /// No slot is ahead of the current generation.  This holds from
    /// construction until the generation counter first wraps.
    pub closed spec fn wf(&self) -> bool {
        forall|i: int| 0 <= i < self.vals@.len() ==> (#[trigger] self.vals@[i]) <= self.generation
    }

    /// An empty set over the identifiers `0 .. n`.
    pub fn new(n: usize) -> (r: Self)
        ensures
            r@ == Set::<int>::empty(),
            r.spec_capacity() == n,
            r.spec_generation() == 1u16,
            r.wf(),
    {
        let mut vals: Vec<u16> = Vec::new();
        let mut i: usize = 0;
        while i < n
            invariant
                0 <= i <= n,
                vals@.len() == i,
                forall|j: int| 0 <= j < i ==> vals@[j] == 0u16,
            decreases n - i,
        {
            vals.push(0);
            i += 1;
        }
        let r = GenerationSet { vals, generation: 1 };
        proof {
            assert(r@ =~= Set::<int>::empty()) by {
                assert forall|j: int| !r@.contains(j) by {
                    if 0 <= j < r.vals@.len() {
                        assert(r.vals@[j] == 0u16);
                    }
                }
            }
        }
        r
    }

    /// Record `t` as a member.
    pub fn insert(&mut self, t: usize)
        requires
            (t as int) < old(self).spec_capacity(),
        ensures
            final(self)@ == old(self)@.insert(t as int),
            final(self).spec_capacity() == old(self).spec_capacity(),
            final(self).spec_generation() == old(self).spec_generation(),
            old(self).wf() ==> final(self).wf(),
    {
        self.vals[t] = self.generation;
        proof {
            assert(self@ =~= old(self)@.insert(t as int)) by {
                assert forall|i: int| self@.contains(i) <==> (old(self)@.contains(i) || i
                    == t as int) by {
                    if 0 <= i < self.vals@.len() && i != t as int {
                        assert(self.vals@[i] == old(self).vals@[i]);
                    }
                }
            }
        }
    }

    /// Whether `t` is a member.
    pub fn contains(&self, t: usize) -> (r: bool)
        requires
            (t as int) < self.spec_capacity(),
        ensures
            r == self@.contains(t as int),
    {
        self.vals[t] == self.generation
    }

    /// Empty the set by moving to the next generation; when the
    /// counter wraps, clear the slots and restart at one, so the set
    /// is empty in every case.
    #[verifier::loop_isolation(false)]
    pub fn reset(&mut self)
        requires
            old(self).wf(),
        ensures
            final(self).spec_capacity() == old(self).spec_capacity(),
            final(self)@ == Set::<int>::empty(),
            final(self).wf(),
    {
        let ghost g0 = self.generation;
        if self.generation < u16::MAX {
            self.generation = self.generation + 1;
            proof {
                assert(self@ =~= Set::<int>::empty()) by {
                    assert forall|i: int| !self@.contains(i) by {
                        if 0 <= i < self.vals@.len() {
                            assert(old(self).vals@[i] <= g0);
                        }
                    }
                }
            }
        } else {
            let n = self.vals.len();
            let mut i: usize = 0;
            while i < n
                invariant
                    0 <= i <= n,
                    self.vals@.len() == n,
                    self.generation == g0,
                    forall|j: int| 0 <= j < i ==> self.vals@[j] == 0u16,
                decreases n - i,
            {
                self.vals[i] = 0;
                i += 1;
            }
            self.generation = 1;
            proof {
                assert(self@ =~= Set::<int>::empty()) by {
                    assert forall|j: int| !self@.contains(j) by {
                        if 0 <= j < self.vals@.len() {
                            assert(self.vals@[j] == 0u16);
                        }
                    }
                }
            }
        }
    }
}

} // verus!
