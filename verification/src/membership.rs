//! The membership-set interface shared by the visited-set
//! implementations.

use vstd::prelude::*;

use crate::bitset::BitSet;
use crate::generationset::GenerationSet;

verus! {

/// A fixed-capacity membership set over small identifiers.
pub trait MemberSet: Sized {
    spec fn members(&self) -> Set<int>;

    spec fn capacity(&self) -> int;

    fn insert(&mut self, t: u32)
        requires
            (t as int) < old(self).capacity(),
        ensures
            final(self).members() == old(self).members().insert(t as int),
            final(self).capacity() == old(self).capacity(),
    ;

    fn contains(&self, t: u32) -> (r: bool)
        requires
            (t as int) < self.capacity(),
        ensures
            r == self.members().contains(t as int),
    ;
}

impl MemberSet for BitSet {
    open spec fn members(&self) -> Set<int> {
        self@
    }

    open spec fn capacity(&self) -> int {
        self.spec_capacity()
    }

    fn insert(&mut self, t: u32) {
        self.insert(t);
    }

    fn contains(&self, t: u32) -> (r: bool) {
        self.contains(t)
    }
}

impl MemberSet for GenerationSet {
    open spec fn members(&self) -> Set<int> {
        self@
    }

    open spec fn capacity(&self) -> int {
        self.spec_capacity()
    }

    fn insert(&mut self, t: u32) {
        self.insert(t as usize);
    }

    fn contains(&self, t: u32) -> (r: bool) {
        self.contains(t as usize)
    }
}

} // verus!
