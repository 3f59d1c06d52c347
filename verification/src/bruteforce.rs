//! The brute-force baseline index: measure every stored point against
//! the query and keep the `k` nearest.

use vstd::prelude::*;

use crate::nsw::Rec;
use crate::order::insert_sorted;
use crate::order::lemma_insert_sorted_contains;
use crate::order::lemma_sort_spec_contains;
use crate::order::lemma_sort_spec_len;
use crate::order::lemma_sort_spec_sorted;
use crate::order::min_int;
use crate::order::sort_spec;
use crate::order::sort_vec;
use crate::order::sorted;
use crate::order::TotalOrd;
use crate::point::Distance;
use crate::point::Point;

verus! {

/// All records of an index against a query: each point's distance,
/// paired with its identifier.
pub open spec fn brute_recs<P: Point>(points: Seq<P>, q: P) -> Seq<Rec> {
    Seq::new(points.len(), |i: int| (points[i].spec_distance(&q), i as usize))
}

/// What a brute-force query returns: the `k` nearest records, in
/// ascending `(distance, key)` order.
pub open spec fn brute_search_recs<P: Point>(points: Seq<P>, q: P, k: int) -> Seq<Rec> {
    let s = sort_spec(brute_recs(points, q));
    s.take(min_int(k, s.len() as int))
}

/// Sorting preserves pairwise-distinct keys.
proof fn lemma_sort_keys_distinct(s: Seq<Rec>)
    requires
        forall|i: int, j: int| 0 <= i < j < s.len() ==> s[i].1 != s[j].1,
    ensures
        forall|i: int, j: int|
            0 <= i < j < sort_spec(s).len() ==> sort_spec(s)[i].1 != sort_spec(s)[j].1,
    decreases s.len(),
{
    if s.len() > 0 {
        let s0 = s.drop_last();
        let v = s.last();
        assert(forall|i: int, j: int| 0 <= i < j < s0.len() ==> s0[i].1 != s0[j].1) by {
            assert(forall|i: int| 0 <= i < s0.len() ==> s0[i] == s[i]);
        }
        lemma_sort_keys_distinct(s0);
        let t0 = sort_spec(s0);
        assert forall|x: Rec| #[trigger] t0.contains(x) implies x.1 != v.1 by {
            lemma_sort_spec_contains(s0, x);
            let i = choose|i: int| 0 <= i < s0.len() && s0[i] == x;
            assert(s[i] == x && s[s.len() - 1] == v);
        }
        crate::nsw::lemma_insert_keys_distinct_pub(t0, v);
    }
}

/// Some record in `s` carries the key `v`.
pub open spec fn has_key<P: Point>(s: Seq<Distance<P>>, v: int) -> bool {
    exists|i: int| 0 <= i < s.len() && (#[trigger] s[i]).key == v
}

/// The brute-force index: the stored points, measured exhaustively.
pub struct Bruteforce<P> {
    points: Vec<P>,
}

impl<P: Point> Bruteforce<P> {
    pub closed spec fn spec_points(&self) -> Seq<P> {
        self.points@
    }

    pub fn new() -> (r: Self)
        ensures
            r.spec_points().len() == 0,
    {
        Bruteforce { points: Vec::new() }
    }

    /// An index over the given points.
    pub fn from_points(points: Vec<P>) -> (r: Self)
        ensures
            r.spec_points() == points@,
    {
        Bruteforce { points }
    }

    /// Store one more point.
    pub fn add(&mut self, point: P)
        ensures
            final(self).spec_points() == old(self).spec_points().push(point),
    {
        self.points.push(point);
    }

    /// Store every given point.
    #[verifier::loop_isolation(false)]
    pub fn extend(&mut self, points: Vec<P>)
        ensures
            final(self).spec_points() == old(self).spec_points() + points@,
    {
        let ghost ps = points@;
        let mut pts = points;
        while pts.len() > 0
            invariant
                self.spec_points() + pts@ == old(self).spec_points() + ps,
            decreases pts@.len(),
        {
            let ghost pre = pts@;
            let ghost acc = self.points@;
            let p = pts.remove(0);
            proof {
                assert(pts@ =~= pre.drop_first());
            }
            self.points.push(p);
            proof {
                assert(self.points@ + pts@ =~= acc + pre);
            }
        }
        proof {
            assert(self.spec_points() =~= self.spec_points() + pts@);
        }
    }

    /// Freeze the builder; brute force needs no build step.
    pub fn build(self) -> (r: Self)
        ensures
            r.spec_points() == self.spec_points(),
    {
        self
    }

    pub fn size(&self) -> (r: usize)
        ensures
            r == self.spec_points().len(),
    {
        self.points.len()
    }

    /// The stored points, in identifier order.
    pub fn points(&self) -> (r: &Vec<P>)
        ensures
            r@ == self.spec_points(),
    {
        &self.points
    }

    /// Exhaustive top-k query: the `k` records nearest to `query`, in
    /// ascending `(distance, key)` order.  The beam width is ignored.
    /// With `k` equal to the index size, every stored point appears
    /// exactly once.
    #[verifier::loop_isolation(false)]
    pub fn search(&self, query: &P, k: usize, _ef: usize) -> (r: Vec<Distance<P>>)
        ensures
            ({
                let recs = brute_search_recs(self.spec_points(), *query, k as int);
                &&& r@.len() == recs.len()
                &&& forall|i: int|
                    0 <= i < recs.len() ==> (#[trigger] r@[i]).distance == recs[i].0
                        && r@[i].key == recs[i].1 && r@[i].point
                        == self.spec_points()[recs[i].1 as int]
            }),
            r@.len() == min_int(k as int, self.spec_points().len() as int),
            forall|i: int, j: int|
                0 <= i <= j < r@.len() ==> (#[trigger] r@[i]).distance <= (
                #[trigger] r@[j]).distance,
            forall|i: int, j: int|
                0 <= i < j < r@.len() ==> (#[trigger] r@[i]).key != (#[trigger] r@[j]).key,
            k >= self.spec_points().len() ==> forall|v: int|
                0 <= v < self.spec_points().len() ==> #[trigger] has_key(r@, v),
    {
        let ghost ps = self.points@;
        let ghost all = brute_recs(ps, *query);
        let n = self.points.len();
        let mut recs: Vec<Rec> = Vec::new();
        let mut i: usize = 0;
        while i < n
            invariant
                0 <= i <= n,
                recs@ == all.take(i as int),
            decreases n - i,
        {
            let d = self.points[i].distance(query);
            recs.push((d, i));
            proof {
                assert(recs@ =~= all.take(i + 1));
            }
            i += 1;
        }
        proof {
            assert(recs@ =~= all);
            lemma_sort_spec_len(all);
            lemma_sort_spec_sorted(all);
            assert(forall|a: int, b: int| 0 <= a < b < all.len() ==> all[a].1 != all[b].1);
            lemma_sort_keys_distinct(all);
        }
        let mut sorted_recs = sort_vec(recs);
        let ghost full = sorted_recs@;
        if sorted_recs.len() > k {
            sorted_recs.truncate(k);
            proof {
                assert(sorted_recs@ == full.take(k as int));
            }
        } else {
            proof {
                assert(sorted_recs@ =~= full.take(sorted_recs@.len() as int));
            }
        }
        let ghost cut = sorted_recs@;
        // keys stay in bounds: every record in the sorted list is one
        // of the originals
        proof {
            assert forall|x: Rec| #[trigger] cut.contains(x) implies (x.1 as int) < ps.len() by {
                let i = choose|i: int| 0 <= i < cut.len() && cut[i] == x;
                assert(full[i] == x);
                assert(full.contains(x));
                lemma_sort_spec_contains(all, x);
                let j = choose|j: int| 0 <= j < all.len() && all[j] == x;
            }
        }
        let m = sorted_recs.len();
        let mut out: Vec<Distance<P>> = Vec::new();
        let mut t: usize = 0;
        while t < m
            invariant
                0 <= t <= m,
                m == cut.len(),
                sorted_recs@ == cut,
                out@.len() == t,
                forall|a: int|
                    0 <= a < t ==> (#[trigger] out@[a]).distance == cut[a].0 && out@[a].key
                        == cut[a].1 && out@[a].point == ps[cut[a].1 as int],
            decreases m - t,
        {
            let d = sorted_recs[t].0;
            let key = sorted_recs[t].1;
            proof {
                assert(cut[t as int] == (d, key));
                assert(cut.contains((d, key)));
            }
            let p = self.points[key].clone_point();
            out.push(Distance::new(d, key, p));
            t += 1;
        }
        proof {
            assert forall|a: int, b: int|
                0 <= a <= b < out@.len() implies (#[trigger] out@[a]).distance <= (
            #[trigger] out@[b]).distance by {
                assert(full[a].le_spec(&full[b]));
            }
            assert forall|a: int, b: int|
                0 <= a < b < out@.len() implies (#[trigger] out@[a]).key != (
            #[trigger] out@[b]).key by {
                assert(full[a].1 != full[b].1);
            }
            if k >= ps.len() {
                assert forall|v: int| 0 <= v < ps.len() implies #[trigger] has_key(out@, v) by {
                    let x = (ps[v].spec_distance(query), v as usize);
                    assert(all[v] == x);
                    assert(all.contains(x));
                    lemma_sort_spec_contains(all, x);
                    let i = choose|i: int| 0 <= i < full.len() && full[i] == x;
                    assert(cut =~= full);
                    assert(out@[i].key == v);
                    assert(has_key(out@, v));
                }
            }
        }
        out
    }
}

} // verus!
