//! A membership set over node identifiers, backed by a bit vector.
//!
//! The search checks out one of these per traversal to mark visited
//! nodes.  The view is the mathematical set of stored identifiers.

use vstd::prelude::*;

verus! {

/// Bit `i` of the word sequence.
pub open spec fn bit_at(bits: Seq<u64>, i: int) -> bool {
    0 <= i && i / 64 < bits.len() && ((bits[i / 64] >> ((i % 64) as u64)) & 1u64) == 1u64
}

/// A fixed-capacity bit set over the identifiers `0 .. capacity`.
#[derive(Clone, Debug)]
pub struct BitSet {
    bits: Vec<u64>,
}

impl BitSet {
    /// The members, as a mathematical set.
    pub closed spec fn view(&self) -> Set<int> {
        Set::new(|i: int| bit_at(self.bits@, i))
    }

    /// How many identifiers the set can hold.
    pub closed spec fn spec_capacity(&self) -> int {
        (self.bits@.len() * 64) as int
    }

    /// An empty set able to hold identifiers below `n`.
    #[verifier::loop_isolation(false)]
    pub fn new(n: usize) -> (r: Self)
        requires
            n <= 0xffff_ffff,
        ensures
            r@ == Set::<int>::empty(),
            r.spec_capacity() >= n,
    {
        let blocks = n / 64 + 1;
        let mut bits: Vec<u64> = Vec::new();
        let mut i: usize = 0;
        while i < blocks
            invariant
                0 <= i <= blocks,
                bits@.len() == i,
                forall|j: int| 0 <= j < i ==> bits@[j] == 0u64,
            decreases blocks - i,
        {
            bits.push(0);
            i += 1;
        }
        let r = BitSet { bits };
        proof {
            assert(r.spec_capacity() >= n) by (nonlinear_arith)
                requires
                    r.bits@.len() == n / 64 + 1,
            ;
            assert(r@ =~= Set::<int>::empty()) by {
                assert forall|j: int| !bit_at(r.bits@, j) by {
                    if 0 <= j && j / 64 < r.bits@.len() {
                        assert(r.bits@[j / 64] == 0u64);
                        let k = (j % 64) as u64;
                        assert(((0u64 >> k) & 1u64) == 0u64) by (bit_vector);
                    }
                }
            }
        }
        r
    }

    /// Record `t` as a member.
    pub fn insert(&mut self, t: u32)
        requires
            (t as int) < old(self).spec_capacity(),
        ensures
            final(self)@ == old(self)@.insert(t as int),
            final(self).spec_capacity() == old(self).spec_capacity(),
    {
        let block = (t as usize) / 64;
        let off = (t as u64) % 64;
        proof {
            assert(block < self.bits@.len()) by (nonlinear_arith)
                requires
                    (t as int) < self.bits@.len() * 64,
                    block == (t as int) / 64,
            ;
        }
        let ghost old_bits = self.bits@;
        let word = self.bits[block];
        self.bits[block] = word | (1u64 << off);
        proof {
            let w0 = old_bits[block as int];
            let w1 = self.bits@[block as int];
            assert(w1 == w0 | (1u64 << off));
            assert forall|j: u64|
                j < 64 implies (((w0 | (1u64 << off)) >> j) & 1u64) == (if j == off {
                1u64
            } else {
                ((w0 >> j) & 1u64)
            }) by {
                assert(forall|x: u64, j: u64, k: u64|
                    j < 64 && k < 64 ==> (((x | (1u64 << k)) >> j) & 1u64) == (if j == k {
                        1u64
                    } else {
                        ((x >> j) & 1u64)
                    })) by (bit_vector);
            }
            assert(self@ =~= old(self)@.insert(t as int)) by {
                assert forall|i: int| self@.contains(i) <==> (old(self)@.contains(i) || i
                    == t as int) by {
                    assert(self@.contains(i) == bit_at(self.bits@, i));
                    assert(old(self)@.contains(i) == bit_at(old_bits, i));
                    if 0 <= i && i / 64 < self.bits@.len() {
                        if i / 64 == block as int {
                            assert(((i % 64) as u64) < 64);
                            assert((i == t as int) <==> ((i / 64 == block as int) && ((i % 64)
                                as u64 == off))) by (nonlinear_arith)
                                requires
                                    0 <= i,
                                    0 <= t,
                                    block == (t as int) / 64,
                                    off == (t as u64) % 64,
                            ;
                        } else {
                            assert(self.bits@[i / 64] == old_bits[i / 64]);
                        }
                    }
                }
            }
        }
    }

    /// Whether `t` is a member.
    pub fn contains(&self, t: u32) -> (r: bool)
        requires
            (t as int) < self.spec_capacity(),
        ensures
            r == self@.contains(t as int),
    {
        let block = (t as usize) / 64;
        let off = (t as u64) % 64;
        proof {
            assert(block < self.bits@.len()) by (nonlinear_arith)
                requires
                    (t as int) < self.bits@.len() * 64,
                    block == (t as int) / 64,
            ;
            assert((t as int) / 64 == block as int && ((t as int) % 64) as u64 == off)
                by (nonlinear_arith)
                requires
                    0 <= t,
                    block == (t as int) / 64,
                    off == (t as u64) % 64,
            ;
        }
        let word = self.bits[block];
        ((word >> off) & 1u64) == 1u64
    }

    /// Whether the set can hold every identifier below `n`.
    pub fn capacity_at_least(&self, n: usize) -> (r: bool)
        requires
            n <= 0xffff_ffff,
        ensures
            r ==> self.spec_capacity() >= n,
    {
        let need = n / 64 + 1;
        let r = self.bits.len() >= need;
        proof {
            if r {
                assert(self.bits@.len() * 64 >= (n / 64 + 1) * 64 >= n) by (nonlinear_arith)
                    requires
                        self.bits@.len() >= n / 64 + 1,
                ;
            }
        }
        r
    }

    /// Forget every member.
    #[verifier::loop_isolation(false)]
    pub fn reset(&mut self)
        ensures
            final(self)@ == Set::<int>::empty(),
            final(self).spec_capacity() == old(self).spec_capacity(),
    {
        let n = self.bits.len();
        let mut i: usize = 0;
        while i < n
            invariant
                0 <= i <= n,
                self.bits@.len() == n,
                forall|j: int| 0 <= j < i ==> self.bits@[j] == 0u64,
            decreases n - i,
        {
            self.bits[i] = 0;
            i += 1;
        }
        proof {
            assert(self@ =~= Set::<int>::empty()) by {
                assert forall|j: int| !bit_at(self.bits@, j) by {
                    if 0 <= j && j / 64 < self.bits@.len() {
                        assert(self.bits@[j / 64] == 0u64);
                        let k = (j % 64) as u64;
                        assert(((0u64 >> k) & 1u64) == 0u64) by (bit_vector);
                    }
                }
            }
        }
    }
}

} // verus!
