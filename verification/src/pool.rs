//! A pool of reusable visited sets.
//!
//! Checking a set out clears it; returning it stores it for reuse.
//! When the pool is empty, or no pooled set is large enough, a fresh
//! set is made, so a checkout always succeeds.

use vstd::prelude::*;

use crate::bitset::BitSet;

verus! {

/// Reusable [`BitSet`]s for marking visited nodes.
pub struct VisitedPool {
    items: Vec<BitSet>,
}

impl VisitedPool {
    /// How many sets the pool holds right now.
    pub closed spec fn spec_len(&self) -> int {
        self.items@.len() as int
    }

    /// Every pooled set covers identifiers below `universe`.
    pub closed spec fn covers(&self, universe: int) -> bool {
        forall|i: int|
            0 <= i < self.items@.len() ==> (#[trigger] self.items@[i]).spec_capacity()
                >= universe
    }

    /// A pool pre-allocating `size` sets, each ready for identifiers
    /// below `universe`.
    #[verifier::loop_isolation(false)]
    pub fn new(size: usize, universe: usize) -> (r: Self)
        requires
            universe <= 0xffff_ffff,
        ensures
            r.spec_len() == size,
            r.covers(universe as int),
    {
        let mut items: Vec<BitSet> = Vec::new();
        let mut i: usize = 0;
        while i < size
            invariant
                0 <= i <= size,
                items@.len() == i,
                forall|j: int|
                    0 <= j < items@.len() ==> (#[trigger] items@[j]).spec_capacity() >= universe,
            decreases size - i,
        {
            items.push(BitSet::new(universe));
            i += 1;
        }
        VisitedPool { items }
    }

    /// Check out a cleared set able to hold identifiers below `n`.
    pub fn get_sized(&mut self, n: usize) -> (r: BitSet)
        requires
            n <= 0xffff_ffff,
        ensures
            r@ == Set::<int>::empty(),
            r.spec_capacity() >= n,
    {
        match self.items.pop() {
            Some(mut t) => {
                if t.capacity_at_least(n) {
                    t.reset();
                    t
                } else {
                    BitSet::new(n)
                }
            },
            None => BitSet::new(n),
        }
    }

    /// Return a set to the pool for reuse.
    pub fn release(&mut self, t: BitSet) {
        self.items.push(t);
    }
}

} // verus!
