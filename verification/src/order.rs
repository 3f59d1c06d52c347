//! Total orders for the crate's containers, and sorting utilities.
//!
//! Candidate records are ranked lexicographically by `(distance, key)`,
//! which makes every tie-break deterministic.  The containers (heaps,
//! sorted candidate lists, k-smallest selection) are generic over the
//! [`TotalOrd`] trait, whose implementations carry proofs that the
//! order is total, antisymmetric and transitive.

use vstd::prelude::*;

verus! {

/// A total order usable by the crate's verified containers.
///
/// `le_spec` is the mathematical order; `le` is its executable twin.
/// Every implementation proves totality, antisymmetry and transitivity.
pub trait TotalOrd: Sized {
    spec fn le_spec(&self, other: &Self) -> bool;

    proof fn lemma_total(a: &Self, b: &Self)
        ensures
            a.le_spec(b) || b.le_spec(a),
            a.le_spec(b) && b.le_spec(a) ==> a == b,
    ;

    proof fn lemma_trans(a: &Self, b: &Self, c: &Self)
        requires
            a.le_spec(b),
            b.le_spec(c),
        ensures
            a.le_spec(c),
    ;

    fn le(&self, other: &Self) -> (r: bool)
        ensures
            r == self.le_spec(other),
    ;
}

impl TotalOrd for usize {
    open spec fn le_spec(&self, other: &Self) -> bool {
        *self <= *other
    }

    proof fn lemma_total(a: &Self, b: &Self) {
    }

    proof fn lemma_trans(a: &Self, b: &Self, c: &Self) {
    }

    fn le(&self, other: &Self) -> (r: bool) {
        *self <= *other
    }
}

impl TotalOrd for u32 {
    open spec fn le_spec(&self, other: &Self) -> bool {
        *self <= *other
    }

    proof fn lemma_total(a: &Self, b: &Self) {
    }

    proof fn lemma_trans(a: &Self, b: &Self, c: &Self) {
    }

    fn le(&self, other: &Self) -> (r: bool) {
        *self <= *other
    }
}

impl TotalOrd for i32 {
    open spec fn le_spec(&self, other: &Self) -> bool {
        *self <= *other
    }

    proof fn lemma_total(a: &Self, b: &Self) {
    }

    proof fn lemma_trans(a: &Self, b: &Self, c: &Self) {
    }

    fn le(&self, other: &Self) -> (r: bool) {
        *self <= *other
    }
}

/// Lexicographic order on `(distance, key)` records.
impl TotalOrd for (usize, usize) {
    open spec fn le_spec(&self, other: &Self) -> bool {
        self.0 < other.0 || (self.0 == other.0 && self.1 <= other.1)
    }

    proof fn lemma_total(a: &Self, b: &Self) {
    }

    proof fn lemma_trans(a: &Self, b: &Self, c: &Self) {
    }

    fn le(&self, other: &Self) -> (r: bool) {
        self.0 < other.0 || (self.0 == other.0 && self.1 <= other.1)
    }
}

/// The sequence is in ascending order.
pub open spec fn sorted<T: TotalOrd>(s: Seq<T>) -> bool {
    forall|i: int, j: int| 0 <= i <= j < s.len() ==> #[trigger] s[i].le_spec(&s[j])
}

/// `v` placed after the longest prefix of elements that are `<= v`.
pub open spec fn insert_sorted<T: TotalOrd>(s: Seq<T>, v: T) -> Seq<T>
    decreases s.len(),
{
    if s.len() == 0 {
        seq![v]
    } else if s[0].le_spec(&v) {
        seq![s[0]] + insert_sorted(s.drop_first(), v)
    } else {
        seq![v] + s
    }
}

/// The input sequence in ascending order, by repeated sorted insertion.
pub open spec fn sort_spec<T: TotalOrd>(s: Seq<T>) -> Seq<T>
    decreases s.len(),
{
    if s.len() == 0 {
        Seq::empty()
    } else {
        insert_sorted(sort_spec(s.drop_last()), s.last())
    }
}

pub proof fn lemma_insert_sorted_len<T: TotalOrd>(s: Seq<T>, v: T)
    ensures
        insert_sorted(s, v).len() == s.len() + 1,
    decreases s.len(),
{
    if s.len() > 0 && s[0].le_spec(&v) {
        lemma_insert_sorted_len(s.drop_first(), v);
    }
}

pub proof fn lemma_insert_sorted_contains<T: TotalOrd>(s: Seq<T>, v: T, x: T)
    ensures
        insert_sorted(s, v).contains(x) <==> (s.contains(x) || x == v),
    decreases s.len(),
{
    if s.len() > 0 && s[0].le_spec(&v) {
        lemma_insert_sorted_contains(s.drop_first(), v, x);
        lemma_cons_contains(s[0], s.drop_first(), x);
        assert(s =~= seq![s[0]] + s.drop_first());
        let t1 = insert_sorted(s.drop_first(), v);
        lemma_cons_contains(s[0], t1, x);
        assert(insert_sorted(s, v) == seq![s[0]] + t1);
    } else {
        let t = insert_sorted(s, v);
        if s.len() == 0 {
            assert(t == seq![v]);
            assert(t.contains(x) <==> x == v) by {
                if t.contains(x) {
                    let i = choose|i: int| 0 <= i < t.len() && t[i] == x;
                    assert(t[i] == v);
                }
                assert(t[0] == v);
            }
        } else {
            lemma_cons_contains(v, s, x);
        }
    }
}

/// `([h] + s).contains(x)` iff `x == h` or `s.contains(x)`.
proof fn lemma_cons_contains<T>(h: T, s: Seq<T>, x: T)
    ensures
        (seq![h] + s).contains(x) <==> (x == h || s.contains(x)),
{
    let t = seq![h] + s;
    if t.contains(x) {
        let i = choose|i: int| 0 <= i < t.len() && t[i] == x;
        if i > 0 {
            assert(s[i - 1] == x);
        }
    }
    assert(t[0] == h);
    if s.contains(x) {
        let i = choose|i: int| 0 <= i < s.len() && s[i] == x;
        assert(t[i + 1] == x);
    }
}

pub proof fn lemma_insert_sorted_sorted<T: TotalOrd>(s: Seq<T>, v: T)
    requires
        sorted(s),
    ensures
        sorted(insert_sorted(s, v)),
    decreases s.len(),
{
    let t = insert_sorted(s, v);
    lemma_insert_sorted_len(s, v);
    if s.len() == 0 {
        assert(t == seq![v]);
        assert forall|i: int, j: int| 0 <= i <= j < t.len() implies #[trigger] t[i].le_spec(
            &t[j],
        ) by {
            T::lemma_total(&t[i], &t[i]);
        }
    } else if s[0].le_spec(&v) {
        let s1 = s.drop_first();
        assert(sorted(s1)) by {
            assert forall|i: int, j: int| 0 <= i <= j < s1.len() implies #[trigger] s1[i].le_spec(
                &s1[j],
            ) by {
                assert(s[i + 1].le_spec(&s[j + 1]));
            }
        }
        lemma_insert_sorted_sorted(s1, v);
        let t1 = insert_sorted(s1, v);
        // Every element of t1 is an element of s1 or is v, and s[0] is below all of them.
        assert forall|j: int| 0 <= j < t1.len() implies s[0].le_spec(&t1[j]) by {
            lemma_insert_sorted_contains(s1, v, t1[j]);
            if t1[j] == v {
                assert(s[0].le_spec(&v));
            } else {
                let i = choose|i: int| 0 <= i < s1.len() && s1[i] == t1[j];
                assert(s[0].le_spec(&s[i + 1]));
            }
        }
        assert forall|i: int, j: int| 0 <= i <= j < t.len() implies #[trigger] t[i].le_spec(
            &t[j],
        ) by {
            if i == 0 {
                if j == 0 {
                    T::lemma_total(&t[0], &t[0]);
                } else {
                    assert(t[j] == t1[j - 1]);
                }
            } else {
                assert(t[i] == t1[i - 1] && t[j] == t1[j - 1]);
            }
        }
    } else {
        // v goes first and is strictly below s[0], hence below everything.
        assert forall|i: int, j: int| 0 <= i <= j < t.len() implies #[trigger] t[i].le_spec(
            &t[j],
        ) by {
            if i == 0 {
                if j == 0 {
                    T::lemma_total(&t[0], &t[0]);
                } else {
                    T::lemma_total(&s[0], &v);
                    assert(v.le_spec(&s[0]));
                    T::lemma_trans(&v, &s[0], &s[j - 1]);
                }
            } else {
                assert(t[i] == s[i - 1] && t[j] == s[j - 1]);
            }
        }
    }
}

/// Splitting view of `insert_sorted`: if the first `k` elements are `<= v`
/// and the element at `k` (if any) is not, then `v` lands at index `k`.
pub proof fn lemma_insert_sorted_split<T: TotalOrd>(s: Seq<T>, v: T, k: int)
    requires
        0 <= k <= s.len(),
        forall|i: int| 0 <= i < k ==> #[trigger] s[i].le_spec(&v),
        k < s.len() ==> !s[k].le_spec(&v),
    ensures
        insert_sorted(s, v) == s.take(k) + seq![v] + s.skip(k),
    decreases s.len(),
{
    let t = insert_sorted(s, v);
    if s.len() == 0 {
        assert(t =~= s.take(k) + seq![v] + s.skip(k));
    } else if s[0].le_spec(&v) {
        assert(k > 0);
        let s1 = s.drop_first();
        lemma_insert_sorted_split(s1, v, k - 1);
        assert(s1.take(k - 1) =~= s.take(k).drop_first());
        assert(s1.skip(k - 1) =~= s.skip(k));
        assert(t =~= s.take(k) + seq![v] + s.skip(k));
    } else {
        assert(k == 0);
        assert(t =~= s.take(k) + seq![v] + s.skip(k));
    }
}

pub proof fn lemma_sort_spec_len<T: TotalOrd>(s: Seq<T>)
    ensures
        sort_spec(s).len() == s.len(),
    decreases s.len(),
{
    if s.len() > 0 {
        lemma_sort_spec_len(s.drop_last());
        lemma_insert_sorted_len(sort_spec(s.drop_last()), s.last());
    }
}

pub proof fn lemma_sort_spec_sorted<T: TotalOrd>(s: Seq<T>)
    ensures
        sorted(sort_spec(s)),
    decreases s.len(),
{
    if s.len() > 0 {
        lemma_sort_spec_sorted(s.drop_last());
        lemma_insert_sorted_sorted(sort_spec(s.drop_last()), s.last());
    }
}

pub proof fn lemma_sort_spec_contains<T: TotalOrd>(s: Seq<T>, x: T)
    ensures
        sort_spec(s).contains(x) <==> s.contains(x),
    decreases s.len(),
{
    if s.len() > 0 {
        lemma_sort_spec_contains(s.drop_last(), x);
        lemma_insert_sorted_contains(sort_spec(s.drop_last()), s.last(), x);
        assert(s.contains(x) <==> (s.drop_last().contains(x) || x == s.last())) by {
            if s.contains(x) {
                let i = choose|i: int| 0 <= i < s.len() && s[i] == x;
                if i < s.len() - 1 {
                    assert(s.drop_last()[i] == x);
                }
            }
            if s.drop_last().contains(x) {
                let i = choose|i: int| 0 <= i < s.drop_last().len() && s.drop_last()[i] == x;
                assert(s[i] == x);
            }
        }
    }
}

pub proof fn lemma_sorted_drop_first<T: TotalOrd>(s: Seq<T>)
    requires
        sorted(s),
        s.len() > 0,
    ensures
        sorted(s.drop_first()),
{
    let t = s.drop_first();
    assert forall|i: int, j: int| 0 <= i <= j < t.len() implies #[trigger] t[i].le_spec(
        &t[j],
    ) by {
        assert(s[i + 1].le_spec(&s[j + 1]));
    }
}

pub proof fn lemma_sorted_drop_last<T: TotalOrd>(s: Seq<T>)
    requires
        sorted(s),
        s.len() > 0,
    ensures
        sorted(s.drop_last()),
{
    let t = s.drop_last();
    assert forall|i: int, j: int| 0 <= i <= j < t.len() implies #[trigger] t[i].le_spec(
        &t[j],
    ) by {
        assert(s[i].le_spec(&s[j]));
    }
}

/// Insert `x` into an already sorted vector, keeping it sorted.
#[verifier::loop_isolation(false)]
pub fn insert_into_sorted<T: TotalOrd>(out: &mut Vec<T>, x: T)
    requires
        sorted(old(out)@),
    ensures
        final(out)@ == insert_sorted(old(out)@, x),
        sorted(final(out)@),
        final(out)@.len() == old(out)@.len() + 1,
{
    let ghost s = out@;
    let mut j: usize = 0;
    while j < out.len() && out[j].le(&x)
        invariant
            0 <= j <= out.len(),
            out@ == s,
            forall|i: int| 0 <= i < j ==> #[trigger] s[i].le_spec(&x),
        decreases out.len() - j,
    {
        j += 1;
    }
    proof {
        lemma_insert_sorted_split(s, x, j as int);
        lemma_insert_sorted_sorted(s, x);
        lemma_insert_sorted_len(s, x);
    }
    out.insert(j, x);
    assert(out@ =~= s.take(j as int) + seq![x] + s.skip(j as int));
    assert(out@ == insert_sorted(s, x));
}

/// Sort a vector in ascending order.
#[verifier::loop_isolation(false)]
pub fn sort_vec<T: TotalOrd>(v: Vec<T>) -> (r: Vec<T>)
    ensures
        r@ == sort_spec(v@),
        sorted(r@),
        r@.len() == v@.len(),
{
    let ghost s = v@;
    let mut v = v;
    let mut out: Vec<T> = Vec::new();
    let ghost mut i: int = 0;
    while v.len() > 0
        invariant
            0 <= i <= s.len(),
            v@ == s.skip(i),
            out@ == sort_spec(s.take(i)),
            sorted(out@),
        decreases v.len(),
    {
        let x = v.remove(0);
        assert(x == s[i]);
        insert_into_sorted(&mut out, x);
        proof {
            assert(v@ =~= s.skip(i + 1));
            assert(s.take(i + 1).drop_last() =~= s.take(i));
            assert(s.take(i + 1).last() == s[i]);
            i = i + 1;
        }
    }
    proof {
        assert(s.take(i) =~= s);
        lemma_sort_spec_len(s);
    }
    out
}

/// Selection of the `k` smallest elements, in ascending order.
pub trait MinK<T: TotalOrd>: Sized {
    spec fn elements(&self) -> Seq<T>;

    fn min_k(self, k: usize) -> (r: Vec<T>)
        ensures
            r@ == sort_spec(self.elements()).take(
                min_int(k as int, self.elements().len() as int),
            ),
    ;
}

/// The smaller of two integers.
pub open spec fn min_int(a: int, b: int) -> int {
    if a <= b {
        a
    } else {
        b
    }
}

impl<T: TotalOrd> MinK<T> for Vec<T> {
    open spec fn elements(&self) -> Seq<T> {
        self@
    }

    fn min_k(self, k: usize) -> (r: Vec<T>) {
        let ghost s = self@;
        let mut r = sort_vec(self);
        if k < r.len() {
            r.truncate(k);
            assert(r@ =~= sort_spec(s).take(min_int(k as int, s.len() as int)));
        } else {
            assert(r@ =~= sort_spec(s).take(min_int(k as int, s.len() as int)));
        }
        r
    }
}

} // verus!
