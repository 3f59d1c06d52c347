//! An n-ary max-heap over a flat vector.
//!
//! The node at position `k > 0` has its parent at `k / N`; the root is
//! the maximum.  The view is the backing vector; contents are compared
//! through [`TotalOrd`] and tracked as a multiset across the heap
//! operations.

use vstd::prelude::*;
use vstd::seq_lib::group_to_multiset_ensures;

use crate::order::TotalOrd;

verus! {

/// Relies on `<[ElemT]>::swap`: exchanges the elements at two indices.
pub assume_specification<ElemT>[ <[ElemT]>::swap ](s: &mut [ElemT], a: usize, b: usize)
    requires
        a < old(s)@.len(),
        b < old(s)@.len(),
    ensures
        final(s)@ == old(s)@.update(a as int, old(s)@[b as int]).update(
            b as int,
            old(s)@[a as int],
        ),
;

/// Exchanging two elements leaves the contents unchanged.
proof fn lemma_swap_multiset<T>(s: Seq<T>, a: int, b: int)
    requires
        0 <= a < s.len(),
        0 <= b < s.len(),
    ensures
        s.update(a, s[b]).update(b, s[a]).to_multiset() == s.to_multiset(),
{
    broadcast use group_to_multiset_ensures;

    let s1 = s.update(a, s[b]);
    if a == b {
        assert(s.update(a, s[b]).update(b, s[a]) =~= s);
    } else {
        assert(s1[b] == s[b]);
        assert(s1.update(b, s[a]).to_multiset() == s1.to_multiset().insert(s[a]).remove(s[b]));
        assert(s1.to_multiset() == s.to_multiset().insert(s[b]).remove(s[a]));
        assert(s.to_multiset().contains(s[a]));
        assert(s.to_multiset().insert(s[b]).remove(s[a]).insert(s[a]).remove(s[b])
            =~= s.to_multiset());
    }
}

/// An n-ary max-heap.
pub struct NHeap<const N: usize, T: TotalOrd> {
    data: Vec<T>,
}

/// The parent of every later element dominates it.
pub open spec fn heap_ordered<T: TotalOrd>(s: Seq<T>, n: int) -> bool {
    forall|k: int| 0 < k < s.len() ==> (#[trigger] s[k]).le_spec(&s[k / n])
}

/// Like [`heap_ordered`], except that pairs whose parent sits below
/// `i` carry no obligation — the state during a bottom-up rebuild.
pub open spec fn heap_ordered_above<T: TotalOrd>(s: Seq<T>, n: int, i: int) -> bool {
    forall|k: int| 0 < k < s.len() && k / n >= i ==> (#[trigger] s[k]).le_spec(&s[k / n])
}

impl<const N: usize, T: TotalOrd> NHeap<N, T> {
    pub closed spec fn view(&self) -> Seq<T> {
        self.data@
    }

    /// The heap shape invariant.
    pub open spec fn wf(&self) -> bool {
        N >= 2 && heap_ordered(self@, N as int)
    }

    /// In an ordered heap the root dominates everything.
    proof fn lemma_root_max(s: Seq<T>, k: int)
        requires
            N >= 2,
            heap_ordered(s, N as int),
            0 <= k < s.len(),
        ensures
            s[k].le_spec(&s[0]),
        decreases k,
    {
        if k == 0 {
            T::lemma_total(&s[0], &s[0]);
        } else {
            assert(s[k].le_spec(&s[k / (N as int)]));
            assert(0 <= k / (N as int) < k) by (nonlinear_arith)
                requires
                    N >= 2,
                    k > 0,
            ;
            Self::lemma_root_max(s, k / (N as int));
            T::lemma_trans(&s[k], &s[k / (N as int)], &s[0]);
        }
    }

    /// Creates a new, empty heap.
    pub fn new() -> (r: Self)
        requires
            N >= 2,
        ensures
            r.wf(),
            r@.len() == 0,
    {
        NHeap { data: Vec::new() }
    }

    /// The width of the heap: how many children each node may have.
    pub fn width(&self) -> (r: usize)
        ensures
            r == N,
    {
        N
    }

    pub fn is_empty(&self) -> (r: bool)
        ensures
            r == (self@.len() == 0),
    {
        self.data.is_empty()
    }

    /// Empties the heap.
    pub fn clear(&mut self)
        ensures
            final(self)@.len() == 0,
            old(self).wf() ==> final(self).wf(),
    {
        self.data.clear()
    }

    pub fn len(&self) -> (r: usize)
        ensures
            r == self@.len(),
    {
        self.data.len()
    }

    /// Insert a new item.
    pub fn push(&mut self, item: T)
        requires
            old(self).wf(),
        ensures
            final(self).wf(),
            final(self)@.len() == old(self)@.len() + 1,
            final(self)@.to_multiset() == old(self)@.to_multiset().insert(item),
    {
        proof {
            broadcast use group_to_multiset_ensures;

        }
        self.data.push(item);
        let i = self.data.len() - 1;
        proof {
            assert forall|k: int|
                0 < k < self.data@.len() && k != i as int implies (#[trigger] self.data@[k]).le_spec(
                &self.data@[k / (N as int)],
            ) by {
                assert((k / (N as int)) < i as int) by (nonlinear_arith)
                    requires
                        N >= 2,
                        0 < k < self.data@.len(),
                        i as int == self.data@.len() - 1,
                ;
                assert(old(self).data@[k].le_spec(&old(self).data@[k / (N as int)]));
            }
            assert forall|k: int|
                0 < k < self.data@.len() && k / (N as int) == i as int implies (
            #[trigger] self.data@[k]).le_spec(&self.data@[(i as int) / (N as int)]) by {
                assert(k >= (N as int) * (i as int)) by (nonlinear_arith)
                    requires
                        N >= 2,
                        k / (N as int) == i as int,
                        k > 0,
                ;
                assert(k >= self.data@.len()) by (nonlinear_arith)
                    requires
                        N >= 2,
                        k >= (N as int) * (i as int),
                        i as int == self.data@.len() - 1,
                        self.data@.len() >= 1,
                        k > 0,
                ;
            }
        }
        self.sift_up(i);
    }

    /// Remove and return the maximum, if any.
    pub fn pop(&mut self) -> (r: Option<T>)
        requires
            old(self).wf(),
        ensures
            final(self).wf(),
            match r {
                Some(x) => {
                    &&& old(self)@.len() > 0
                    &&& x == old(self)@[0]
                    &&& forall|i: int|
                        0 <= i < old(self)@.len() ==> (#[trigger] old(self)@[i]).le_spec(&x)
                    &&& final(self)@.len() == old(self)@.len() - 1
                    &&& final(self)@.to_multiset() == old(self)@.to_multiset().remove(x)
                },
                None => old(self)@.len() == 0 && final(self)@ == old(self)@,
            },
    {
        proof {
            broadcast use group_to_multiset_ensures;

        }
        if self.data.is_empty() {
            return None;
        }
        let ghost s = self.data@;
        let res = self.data.swap_remove(0);
        proof {
            assert(self.data@ == s.update(0, s.last()).drop_last());
            assert(s.update(0, s.last()).drop_last() =~= s.update(0, s.last()).remove(
                s.len() - 1,
            ));
            if s.len() == 1 {
                assert(s.update(0, s.last()) =~= s);
                assert(self.data@.to_multiset() == s.to_multiset().remove(s[0]));
            } else {
                assert(s.update(0, s.last()).to_multiset() == s.to_multiset().insert(
                    s.last(),
                ).remove(s[0]));
                assert(s.update(0, s.last())[s.len() - 1] == s.last());
                assert(self.data@.to_multiset() == s.update(0, s.last()).to_multiset().remove(
                    s.last(),
                ));
                assert(s.to_multiset().contains(s[0]));
                assert(s.to_multiset().insert(s.last()).remove(s[0]).remove(s.last())
                    =~= s.to_multiset().remove(s[0]));
            }
            assert forall|k: int|
                0 < k < self.data@.len() && k / (N as int) >= 1 implies (
            #[trigger] self.data@[k]).le_spec(&self.data@[k / (N as int)]) by {
                assert(self.data@[k] == s[k] && self.data@[k / (N as int)] == s[k / (N as int)]);
            }
            assert forall|i: int| 0 <= i < s.len() implies (#[trigger] s[i]).le_spec(&s[0]) by {
                Self::lemma_root_max(s, i);
            }
        }
        self.sift_down(0);
        Some(res)
    }

    /// Replace the maximum with a new item; returns the old maximum,
    /// or nothing if the heap was empty.
    pub fn poppush(&mut self, item: T) -> (r: Option<T>)
        requires
            old(self).wf(),
        ensures
            final(self).wf(),
            match r {
                Some(x) => {
                    &&& old(self)@.len() > 0
                    &&& x == old(self)@[0]
                    &&& forall|i: int|
                        0 <= i < old(self)@.len() ==> (#[trigger] old(self)@[i]).le_spec(&x)
                    &&& final(self)@.len() == old(self)@.len()
                    &&& final(self)@.to_multiset() == old(self)@.to_multiset().remove(x).insert(
                        item,
                    )
                },
                None => {
                    &&& old(self)@.len() == 0
                    &&& final(self)@.len() == 1
                    &&& final(self)@.to_multiset() == old(self)@.to_multiset().insert(item)
                },
            },
    {
        proof {
            broadcast use group_to_multiset_ensures;

        }
        if self.data.is_empty() {
            self.push(item);
            return None;
        }
        let ghost s = self.data@;
        self.data.push(item);
        let res = self.data.swap_remove(0);
        proof {
            let s1 = s.push(item);
            assert(self.data@ == s1.update(0, s1.last()).drop_last());
            assert(s1.last() == item);
            assert(self.data@ =~= s.update(0, item));
            assert(self.data@.to_multiset() == s.to_multiset().insert(item).remove(s[0]));
            assert(s.to_multiset().contains(s[0]));
            assert(s.to_multiset().insert(item).remove(s[0]) =~= s.to_multiset().remove(
                s[0],
            ).insert(item));
            assert forall|k: int|
                0 < k < self.data@.len() && k / (N as int) >= 1 implies (
            #[trigger] self.data@[k]).le_spec(&self.data@[k / (N as int)]) by {
                assert(self.data@[k] == s[k] && self.data@[k / (N as int)] == s[k / (N as int)]);
            }
            assert forall|i: int| 0 <= i < s.len() implies (#[trigger] s[i]).le_spec(&s[0]) by {
                Self::lemma_root_max(s, i);
            }
        }
        self.sift_down(0);
        Some(res)
    }

    /// A reference to the maximum, if any.
    pub fn peek(&self) -> (r: Option<&T>)
        requires
            self.wf(),
        ensures
            match r {
                Some(x) => {
                    &&& self@.len() > 0
                    &&& *x == self@[0]
                    &&& forall|i: int| 0 <= i < self@.len() ==> (#[trigger] self@[i]).le_spec(x)
                },
                None => self@.len() == 0,
            },
    {
        if self.data.is_empty() {
            None
        } else {
            proof {
                assert forall|i: int|
                    0 <= i < self@.len() implies (#[trigger] self@[i]).le_spec(&self@[0]) by {
                    Self::lemma_root_max(self.data@, i);
                }
            }
            Some(&self.data[0])
        }
    }

    /// Heap-order a heap whose violation sits at `i` against its
    /// parent chain.
    #[verifier::loop_isolation(false)]
    fn sift_up(&mut self, i: usize)
        requires
            N >= 2,
            (i as int) < old(self)@.len(),
            forall|k: int|
                0 < k < old(self)@.len() && k != i as int ==> (#[trigger] old(self)@[k]).le_spec(
                    &old(self)@[k / (N as int)],
                ),
            forall|k: int|
                0 < k < old(self)@.len() && k / (N as int) == i as int ==> (
                #[trigger] old(self)@[k]).le_spec(&old(self)@[(i as int) / (N as int)]),
        ensures
            final(self).wf(),
            final(self)@.len() == old(self)@.len(),
            final(self)@.to_multiset() == old(self)@.to_multiset(),
    {
        let ghost s0 = self.data@;
        let mut i = i;
        while i > 0 && !le_at(&self.data, i, i / N)
            invariant
                (i as int) < self.data@.len(),
                self.data@.len() == s0.len(),
                self.data@.to_multiset() == s0.to_multiset(),
                forall|k: int|
                    0 < k < self.data@.len() && k != i as int ==> (
                    #[trigger] self.data@[k]).le_spec(&self.data@[k / (N as int)]),
                forall|k: int|
                    0 < k < self.data@.len() && k / (N as int) == i as int ==> (
                    #[trigger] self.data@[k]).le_spec(
                        &self.data@[(i as int) / (N as int)],
                    ),
            decreases i,
        {
            let ghost s = self.data@;
            let p = i / N;
            proof {
                assert((p as int) == (i as int) / (N as int)) by (nonlinear_arith)
                    requires
                        N >= 2,
                        p == i / N,
                ;
                assert((p as int) < i as int) by (nonlinear_arith)
                    requires
                        N >= 2,
                        i > 0,
                        p as int == (i as int) / (N as int),
                ;
            }
            self.data.swap(i, p);
            proof {
                lemma_swap_multiset(s, i as int, p as int);
                let t = self.data@;
                assert forall|k: int|
                    0 < k < t.len() && k != p as int implies (#[trigger] t[k]).le_spec(
                    &t[k / (N as int)],
                ) by {
                    let kp = k / (N as int);
                    assert(0 <= kp < k) by (nonlinear_arith)
                        requires
                            N >= 2,
                            k > 0,
                            kp == k / (N as int),
                    ;
                    if k == i as int {
                        // the old parent moved here and its own parent
                        // holds the old child, which dominates it
                        assert(t[k] == s[p as int]);
                        assert(kp == p as int);
                        assert(!s[i as int].le_spec(&s[p as int]));
                        T::lemma_total(&s[i as int], &s[p as int]);
                        assert(s[p as int].le_spec(&s[i as int]));
                        assert(t[kp] == s[i as int]);
                    } else if kp == i as int {
                        // children of the old child: they were bounded
                        // by the old grandparent value, now at kp
                        assert(t[k] == s[k]);
                        assert(t[kp] == s[p as int]);
                        assert(s[k].le_spec(&s[(i as int) / (N as int)]));
                    } else if kp == p as int {
                        // siblings of the old child keep their parent
                        // slot, which now holds a larger value
                        assert(t[k] == s[k]);
                        assert(t[kp] == s[i as int]);
                        assert(s[k].le_spec(&s[p as int]));
                        assert(s[p as int].le_spec(&s[i as int])) by {
                            assert(!s[i as int].le_spec(&s[p as int]));
                            T::lemma_total(&s[i as int], &s[p as int]);
                        }
                        T::lemma_trans(&s[k], &s[p as int], &s[i as int]);
                    } else {
                        assert(t[k] == s[k] && t[kp] == s[kp]);
                    }
                }
                assert forall|k: int|
                    0 < k < t.len() && k / (N as int) == p as int implies (
                #[trigger] t[k]).le_spec(&t[(p as int) / (N as int)]) by {
                    let pp = (p as int) / (N as int);
                    assert(0 <= pp < p as int || p == 0) by (nonlinear_arith)
                        requires
                            N >= 2,
                            pp == (p as int) / (N as int),
                            p as int >= 0,
                    ;
                    if k == i as int {
                        assert(t[k] == s[p as int]);
                        if p > 0 {
                            assert(s[p as int].le_spec(&s[pp]));
                            assert(t[pp] == s[pp]);
                        } else {
                            assert(pp == 0);
                            assert(t[pp] == s[i as int]);
                            assert(s[p as int].le_spec(&s[i as int])) by {
                                assert(!s[i as int].le_spec(&s[p as int]));
                                T::lemma_total(&s[i as int], &s[p as int]);
                            }
                        }
                    } else {
                        assert(t[k] == s[k]);
                        assert(s[k].le_spec(&s[k / (N as int)]));
                        if p > 0 {
                            assert(t[pp] == s[pp]);
                            assert(s[p as int].le_spec(&s[pp]));
                            T::lemma_trans(&s[k], &s[p as int], &s[pp]);
                        } else {
                            assert(pp == 0);
                            assert(t[pp] == s[i as int]);
                            assert(s[p as int].le_spec(&s[i as int])) by {
                                assert(!s[i as int].le_spec(&s[p as int]));
                                T::lemma_total(&s[i as int], &s[p as int]);
                            }
                            T::lemma_trans(&s[k], &s[p as int], &s[i as int]);
                        }
                    }
                }
            }
            i = p;
        }
        proof {
            if i > 0 {
                assert(self.data@[i as int].le_spec(&self.data@[(i as int) / (N as int)]));
            }
            assert forall|k: int|
                0 < k < self.data@.len() implies (#[trigger] self.data@[k]).le_spec(
                &self.data@[k / (N as int)],
            ) by {
                if k != i as int {
                }
            }
        }
    }

    /// Heap-order a heap whose only violations sit below `i`: push the
    /// value at `i` down past its largest children.
    #[verifier::loop_isolation(false)]
    #[verifier::rlimit(60)]
    fn sift_down(&mut self, i: usize)
        requires
            N >= 2,
            heap_ordered_above(old(self)@, N as int, i as int + 1),
        ensures
            final(self)@.len() == old(self)@.len(),
            final(self)@.to_multiset() == old(self)@.to_multiset(),
            heap_ordered_above(final(self)@, N as int, i as int),
    {
        let ghost s0 = self.data@;
        let ghost nn = N as int;
        let mut cur = i;
        let len = self.data.len();
        while len > 0 && cur <= (len - 1) / N
            invariant
                i <= cur,
                self.data@.len() == s0.len(),
                len == s0.len(),
                self.data@.to_multiset() == s0.to_multiset(),
                forall|k: int|
                    0 < k < s0.len() && k / nn >= i as int && k / nn != cur as int ==> (
                    #[trigger] self.data@[k]).le_spec(&self.data@[k / nn]),
                cur != i ==> (cur as int) < s0.len(),
                cur != i ==> forall|k: int|
                    0 < k < s0.len() && k / nn == cur as int ==> (
                    #[trigger] self.data@[k]).le_spec(&self.data@[(cur as int) / nn]),
            decreases len - cur,
        {
            let ghost s = self.data@;
            proof {
                assert((N as int) * (cur as int) <= (len as int) - 1) by (nonlinear_arith)
                    requires
                        N >= 2,
                        len > 0,
                        (cur as int) <= ((len - 1) as int) / (N as int),
                ;
            }
            let start = N * cur;
            proof {
                assert((start as int) == nn * (cur as int) && (start as int) < len as int)
                    by (nonlinear_arith)
                    requires
                        N >= 2,
                        len > 0,
                        (cur as int) <= ((len - 1) as int) / (N as int),
                        start == N * cur,
                        nn == N as int,
                ;
            }
            let end = if len - start > N {
                start + N
            } else {
                len
            };
            // find the last maximal child in [start, end)
            let mut best = start;
            let mut j = start + 1;
            proof {
                T::lemma_total(&s[start as int], &s[start as int]);
            }
            while j < end
                invariant
                    start <= best < j <= end,
                    end <= len,
                    self.data@ == s,
                    forall|t: int|
                        start <= t < j ==> (#[trigger] s[t]).le_spec(&s[best as int]),
                decreases end - j,
            {
                if le_at(&self.data, best, j) {
                    proof {
                        assert forall|t: int|
                            start <= t < j + 1 implies (#[trigger] s[t]).le_spec(&s[j as int]) by {
                            if t < j {
                                T::lemma_trans(&s[t], &s[best as int], &s[j as int]);
                            } else {
                                T::lemma_total(&s[j as int], &s[j as int]);
                            }
                        }
                    }
                    best = j;
                } else {
                    proof {
                        T::lemma_total(&s[best as int], &s[j as int]);
                    }
                }
                j += 1;
            }
            if le_at(&self.data, best, cur) {
                proof {
                    assert forall|k: int|
                        0 < k < s0.len() && k / nn >= i as int implies (
                    #[trigger] self.data@[k]).le_spec(&self.data@[k / nn]) by {
                        if k / nn == cur as int {
                            assert((start as int) <= k < (start as int) + nn)
                                by (nonlinear_arith)
                                requires
                                    nn >= 2,
                                    k / nn == cur as int,
                                    k > 0,
                                    start as int == nn * (cur as int),
                            ;
                            assert(k < end as int);
                            assert(s[k].le_spec(&s[best as int]));
                            T::lemma_trans(&s[k], &s[best as int], &s[cur as int]);
                        }
                    }
                }
                return ;
            }
            proof {
                assert(best != cur) by {
                    if best == cur {
                        T::lemma_total(&s[best as int], &s[cur as int]);
                    }
                }
                assert((cur as int) < best as int) by (nonlinear_arith)
                    requires
                        nn >= 2,
                        start as int == nn * (cur as int),
                        (start as int) <= best as int,
                        best != cur,
                ;
                assert((best as int) / nn == cur as int) by (nonlinear_arith)
                    requires
                        nn >= 2,
                        start as int == nn * (cur as int),
                        (start as int) <= (best as int) < (start as int) + nn,
                ;
                T::lemma_total(&s[best as int], &s[cur as int]);
                assert(s[cur as int].le_spec(&s[best as int]));
            }
            self.data.swap(cur, best);
            proof {
                lemma_swap_multiset(s, cur as int, best as int);
                let t = self.data@;
                let bi = best as int;
                let ci = cur as int;
                assert(t[ci] == s[bi] && t[bi] == s[ci]);
                assert forall|k: int|
                    0 < k < s0.len() && k / nn >= i as int && k / nn != bi implies (
                #[trigger] t[k]).le_spec(&t[k / nn]) by {
                    let kp = k / nn;
                    assert(0 <= kp < k) by (nonlinear_arith)
                        requires
                            nn >= 2,
                            k > 0,
                            kp == k / nn,
                    ;
                    if k == ci {
                        // the max child moved up; its new parent held
                        // and holds something at least as large
                        if ci != i as int {
                            assert(s[bi].le_spec(&s[ci / nn]));
                            assert(kp != bi && kp != ci);
                            assert(t[kp] == s[kp]);
                            assert(s[ci / nn] == s[kp]);
                        } else {
                            // the pair (i, i / n) carries an obligation
                            // only if i / n >= i, that is i == 0; then
                            // k == 0, excluded by k > 0
                            assert(kp >= i as int);
                            assert(kp < k);
                            assert(false);
                        }
                    } else if k == bi {
                        assert(kp == ci);
                        assert(t[k] == s[ci]);
                        assert(t[ci] == s[bi]);
                        assert(s[ci].le_spec(&s[bi]));
                    } else if kp == ci {
                        assert(t[k] == s[k]);
                        assert((start as int) <= k < (start as int) + nn) by (nonlinear_arith)
                            requires
                                nn >= 2,
                                kp == k / nn,
                                kp == ci,
                                ci == cur as int,
                                k > 0,
                                start as int == nn * (cur as int),
                        ;
                        assert(k < end as int);
                        assert(s[k].le_spec(&s[bi]));
                        assert(t[kp] == s[bi]);
                    } else if kp == bi {
                        assert(false);
                    } else {
                        assert(t[k] == s[k] && t[kp] == s[kp]);
                        assert(kp != ci && kp != bi);
                        assert(s[k].le_spec(&s[kp]));
                    }
                }
                assert forall|k: int|
                    0 < k < s0.len() && k / nn == bi implies (#[trigger] t[k]).le_spec(
                    &t[bi / nn],
                ) by {
                    assert(k != ci) by {
                        assert(ci < bi);
                        assert((k / nn) < k) by (nonlinear_arith)
                            requires
                                nn >= 2,
                                k > 0,
                        ;
                    }
                    assert(k != bi) by {
                        assert((k / nn) < k) by (nonlinear_arith)
                            requires
                                nn >= 2,
                                k > 0,
                        ;
                    }
                    assert(t[k] == s[k]);
                    assert(s[k].le_spec(&s[bi]));
                    assert(t[bi / nn] == t[ci]);
                    assert(t[ci] == s[bi]);
                }
            }
            cur = best;
        }
        proof {
            assert forall|k: int|
                0 < k < s0.len() && k / nn >= i as int implies (#[trigger] self.data@[k]).le_spec(
                &self.data@[k / nn],
            ) by {
                if k / nn == cur as int {
                    // cur has no children: every candidate child index
                    // sits at or beyond the length
                    assert(k >= nn * (cur as int)) by (nonlinear_arith)
                        requires
                            nn >= 2,
                            k / nn == cur as int,
                            k > 0,
                    ;
                    if len > 0 {
                        assert((cur as int) > ((len - 1) as int) / nn);
                        assert(k >= len as int) by (nonlinear_arith)
                            requires
                                nn >= 2,
                                k >= nn * (cur as int),
                                (cur as int) > ((len - 1) as int) / nn,
                                len > 0,
                        ;
                    }
                }
            }
        }
    }

    /// Restore heap order over arbitrary contents, bottom-up.
    #[verifier::loop_isolation(false)]
    fn rebuild(&mut self)
        requires
            N >= 2,
        ensures
            final(self).wf(),
            final(self)@.len() == old(self)@.len(),
            final(self)@.to_multiset() == old(self)@.to_multiset(),
    {
        let ghost s0 = self.data@;
        let ghost nn = N as int;
        let len = self.data.len();
        let top = len / 2 + 1;
        let mut i = top;
        proof {
            assert forall|k: int|
                0 < k < s0.len() && k / nn >= top as int implies (#[trigger] s0[k]).le_spec(
                &s0[k / nn],
            ) by {
                assert(k >= nn * (k / nn)) by (nonlinear_arith)
                    requires
                        nn >= 2,
                        k > 0,
                ;
                assert(k >= s0.len()) by (nonlinear_arith)
                    requires
                        nn >= 2,
                        k >= nn * (k / nn),
                        (k / nn) >= top as int,
                        top == len / 2 + 1,
                        len == s0.len(),
                ;
            }
        }
        while i > 0
            invariant
                0 <= i <= top,
                self.data@.len() == s0.len(),
                self.data@.to_multiset() == s0.to_multiset(),
                heap_ordered_above(self.data@, nn, i as int),
            decreases i,
        {
            i -= 1;
            self.sift_down(i);
        }
    }

    /// Build a heap from arbitrary contents.
    pub fn from_vec(v: Vec<T>) -> (r: Self)
        requires
            N >= 2,
        ensures
            r.wf(),
            r@.len() == v@.len(),
            r@.to_multiset() == v@.to_multiset(),
    {
        let mut heap = NHeap { data: v };
        heap.rebuild();
        heap
    }

    /// The backing vector, heap order and all.
    pub fn into_vec(self) -> (r: Vec<T>)
        ensures
            r@ == self@,
    {
        self.data
    }
}

/// Compare two heap slots.
fn le_at<T: TotalOrd>(data: &Vec<T>, a: usize, b: usize) -> (r: bool)
    requires
        (a as int) < data@.len(),
        (b as int) < data@.len(),
    ensures
        r == data@[a as int].le_spec(&data@[b as int]),
{
    data[a].le(&data[b])
}

} // verus!
