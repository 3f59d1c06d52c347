//! The flat navigable small-world index: a single graph layer, built
//! by repeated INSERT-LAYER, queried by beam search.

use vstd::prelude::*;

use crate::nsw::beam_search;
use crate::nsw::insert_neighbors;
use crate::nsw::insert_point;
use crate::nsw::keys_distinct;
use crate::nsw::recs_ok;
use crate::nsw::recs_to_dists;
use crate::nsw::search_select_neighbors;
use crate::nsw::Rec;
use crate::order::TotalOrd;
use crate::order::sorted;
use crate::point::Distance;
use crate::point::Point;
use crate::pool::VisitedPool;
use crate::simplegraph::Idx;
use crate::simplegraph::SimpleGraph;

verus! {

/// Build parameters for the small-world indexes.
pub struct NSWOptions {
    /// Beam width during insertion.
    pub ef_construction: usize,
    /// Desired degree of each node.
    pub connections: usize,
    /// Hard cap on a node's degree after pruning.
    pub max_connections: usize,
    /// Size hint for the visited-set pool.
    pub size: usize,
}

impl NSWOptions {
    /// Valid configuration: a beam of at least one, a desired degree of
    /// at least two, and a cap no smaller than the desired degree.
    pub open spec fn valid(&self) -> bool {
        &&& self.ef_construction >= 1
        &&& self.connections >= 2
        &&& self.max_connections >= self.connections
        &&& self.size <= 0xffff_ffff
    }
}

impl Default for NSWOptions {
    fn default() -> (r: Self)
        ensures
            r.ef_construction == 100,
            r.connections == 16,
            r.max_connections == 32,
            r.size == 0,
            r.valid(),
    {
        NSWOptions { ef_construction: 100, connections: 16, max_connections: 32, size: 0 }
    }
}

/// A builder that grows the graph one point at a time.
pub struct NSWBuilder<P> {
    graph: SimpleGraph<P>,
    ep: Option<Idx>,
    ef_construction: usize,
    connections: usize,
    max_connections: usize,
    pool: VisitedPool,
}

impl<P: Point> NSWBuilder<P> {
    /// The graph built so far.
    pub closed spec fn spec_graph(&self) -> SimpleGraph<P> {
        self.graph
    }

    /// The current entry point.
    pub closed spec fn spec_ep(&self) -> Option<Idx> {
        self.ep
    }

    pub closed spec fn spec_max_connections(&self) -> int {
        self.max_connections as int
    }

    /// The builder invariant: a well-formed graph whose degrees stay
    /// within the hard cap, and an entry point exactly when the graph
    /// is non-empty.
    pub closed spec fn wf(&self) -> bool {
        &&& self.graph.wf()
        &&& self.graph.degrees_bounded(self.max_connections as int)
        &&& match self.ep {
            Some(e) => self.graph.spec_size() > 0 && (e as int) < self.graph.spec_size(),
            None => self.graph.spec_size() == 0,
        }
        &&& self.ef_construction >= 1
        &&& 2 <= self.connections <= self.max_connections
    }

    pub closed spec fn spec_size(&self) -> int {
        self.graph.spec_size()
    }

    pub fn new(options: NSWOptions) -> (r: Self)
        requires
            options.valid(),
        ensures
            r.wf(),
            r.spec_size() == 0,
            r.spec_max_connections() == options.max_connections,
    {
        NSWBuilder {
            graph: SimpleGraph::new(),
            ep: None,
            ef_construction: options.ef_construction,
            connections: options.connections,
            max_connections: options.max_connections,
            pool: VisitedPool::new(4, options.size),
        }
    }

    pub fn size(&self) -> (r: usize)
        ensures
            r == self.spec_size(),
    {
        self.graph.size()
    }

    /// Insert one point: search for its neighbourhood from the entry
    /// point, connect, and prune (the per-insert sequence).  When the
    /// graph already held a point, the new node ends connected.
    pub fn add(&mut self, point: P)
        requires
            old(self).wf(),
            old(self).spec_size() < 0xffff_ffff,
        ensures
            final(self).wf(),
            final(self).spec_size() == old(self).spec_size() + 1,
            final(self).spec_graph().spec_nodes() == old(self).spec_graph().spec_nodes().push(
                point,
            ),
            old(self).spec_size() >= 1 ==> final(self).spec_graph().deg(old(self).spec_size())
                >= 1,
            final(self).spec_max_connections() == old(self).spec_max_connections(),
    {
        let n = self.graph.size();
        match self.ep {
            Some(ep) => {
                let mut visited = self.pool.get_sized(n + 1);
                let _ = insert_point(
                    &mut self.graph,
                    point,
                    self.connections,
                    self.max_connections,
                    self.ef_construction,
                    ep,
                    &mut visited,
                );
                self.pool.release(visited);
            },
            None => {
                let idx = self.graph.add(point);
                self.ep = Some(idx);
                let mut visited = self.pool.get_sized(n + 1);
                let _ = crate::nsw::insert_idx(
                    &mut self.graph,
                    idx,
                    self.connections,
                    self.max_connections,
                    self.ef_construction,
                    idx,
                    &mut visited,
                );
                self.pool.release(visited);
            },
        }
    }

    /// Insert every point, one after the other.  The points are
    /// appended in order; the last one ends connected whenever the
    /// graph then holds at least two points.
    #[verifier::loop_isolation(false)]
    pub fn extend(&mut self, points: Vec<P>)
        requires
            old(self).wf(),
            old(self).spec_size() + points@.len() <= 0xffff_ffff,
        ensures
            final(self).wf(),
            final(self).spec_size() == old(self).spec_size() + points@.len(),
            final(self).spec_graph().spec_nodes() == old(self).spec_graph().spec_nodes()
                + points@,
            points@.len() > 0 && old(self).spec_size() + points@.len() >= 2 ==> final(self).spec_graph().deg(old(self).spec_size() + points@.len() - 1) >= 1,
            final(self).spec_max_connections() == old(self).spec_max_connections(),
    {
        let ghost ps = points@;
        let mut pts = points;
        while pts.len() > 0
            invariant
                self.wf(),
                self.spec_size() + pts@.len() <= 0xffff_ffff,
                self.spec_size() + pts@.len() == old(self).spec_size() + points@.len(),
                self.spec_graph().spec_nodes() + pts@ == old(self).spec_graph().spec_nodes()
                    + ps,
                pts@.len() == 0 && ps.len() > 0 && self.spec_size() >= 2 ==> self.spec_graph().deg(
                    self.spec_size() - 1,
                ) >= 1,
                self.spec_max_connections() == old(self).spec_max_connections(),
            decreases pts@.len(),
        {
            let ghost pre = pts@;
            let ghost acc = self.spec_graph().spec_nodes();
            let p = pts.remove(0);
            proof {
                assert(pts@ =~= pre.drop_first());
            }
            self.add(p);
            proof {
                assert(self.spec_graph().spec_nodes() + pts@ =~= acc + pre);
            }
        }
        proof {
            assert(final(self).spec_graph().spec_nodes() =~= final(self).spec_graph().spec_nodes() + pts@);
        }
    }

    /// Insert points with the batched read/write phasing of the
    /// parallel pipeline, sequentially: append a chunk, plan every
    /// chunk member's neighbourhood against the frozen graph, then
    /// integrate the plans in order.  The points are appended in
    /// order.
    #[verifier::loop_isolation(false)]
    pub fn extend_batch(&mut self, points: Vec<P>)
        requires
            old(self).wf(),
            old(self).spec_size() + points@.len() <= 0xffff_ffff,
        ensures
            final(self).wf(),
            final(self).spec_size() == old(self).spec_size() + points@.len(),
            final(self).spec_graph().spec_nodes() == old(self).spec_graph().spec_nodes()
                + points@,
            final(self).spec_max_connections() == old(self).spec_max_connections(),
    {
        let ghost ps = points@;
        let mut pts = points;
        // warm the graph up serially so the read phases have something
        // navigable to plan against
        let mut warm: usize = 0;
        while warm < 128 && pts.len() > 0
            invariant
                self.wf(),
                self.spec_size() + pts@.len() <= 0xffff_ffff,
                self.spec_size() + pts@.len() == old(self).spec_size() + points@.len(),
                self.spec_graph().spec_nodes() + pts@ == old(self).spec_graph().spec_nodes()
                    + ps,
                self.spec_max_connections() == old(self).spec_max_connections(),
                warm > 0 ==> self.spec_size() > 0,
            decreases pts@.len(),
        {
            let ghost pre = pts@;
            let ghost acc = self.spec_graph().spec_nodes();
            let p = pts.remove(0);
            proof {
                assert(pts@ =~= pre.drop_first());
            }
            self.add(p);
            proof {
                assert(self.spec_graph().spec_nodes() + pts@ =~= acc + pre);
            }
            warm += 1;
        }
        while pts.len() > 0
            invariant
                self.wf(),
                self.spec_size() + pts@.len() <= 0xffff_ffff,
                self.spec_size() + pts@.len() == old(self).spec_size() + points@.len(),
                self.spec_graph().spec_nodes() + pts@ == old(self).spec_graph().spec_nodes()
                    + ps,
                self.spec_max_connections() == old(self).spec_max_connections(),
                pts@.len() > 0 ==> self.spec_size() > 0,
            decreases pts@.len(),
        {
            let ghost nodes_at = self.spec_graph().spec_nodes();
            let ghost pts_at = pts@;
            let ghost size0 = self.spec_size();
            let ghost mc = self.max_connections;
            let ep = match self.ep {
                Some(e) => e,
                None => 0,
            };
            proof {
                assert((ep as int) < self.spec_size());
            }
            // Phase a: append a chunk of points, which gives them
            // identifiers but no edges yet.
            let mut chunk_idxs: Vec<Idx> = Vec::new();
            let mut taken: usize = 0;
            while taken < 32 && pts.len() > 0
                invariant
                    self.graph.wf(),
                    self.graph.degrees_bounded(self.max_connections as int),
                    self.spec_size() == size0 + taken,
                    chunk_idxs@.len() == taken,
                    self.spec_size() + pts@.len() == old(self).spec_size() + points@.len(),
                    self.spec_size() + pts@.len() <= 0xffff_ffff,
                    forall|i: int|
                        0 <= i < chunk_idxs@.len() ==> (#[trigger] chunk_idxs@[i]) as int == size0
                            + i,
                    forall|i: int|
                        0 <= i < chunk_idxs@.len() ==> self.graph.deg(
                            (#[trigger] chunk_idxs@[i]) as int,
                        ) == 0,
                    (ep as int) < size0,
                    self.ep is Some,
                    self.ep->0 == ep,
                    self.ef_construction >= 1,
                    2 <= self.connections <= self.max_connections,
                    self.max_connections == mc,
                    forall|v: int|
                        size0 <= v < self.graph.spec_size() ==> self.graph.deg(v) == 0,
                    self.graph.spec_nodes() + pts@ == nodes_at + pts_at,
                decreases pts@.len(),
            {
                let ghost pre = pts@;
                let ghost acc = self.graph.spec_nodes();
                let p = pts.remove(0);
                proof {
                    assert(pts@ =~= pre.drop_first());
                }
                let ghost gb = self.graph;
                let idx = self.graph.add(p);
                proof {
                    assert(self.graph.spec_nodes() + pts@ =~= acc + pre);
                }
                proof {
                    assert forall|v: int|
                        0 <= v < self.graph.spec_size() implies self.graph.deg(v)
                            <= self.max_connections as int by {
                        if v < gb.spec_size() {
                            assert(self.graph.adj(v) == gb.adj(v));
                            assert(gb.deg(v) <= self.max_connections as int);
                        } else {
                            assert(self.graph.adj(v).len() == 0);
                        }
                    }
                    assert forall|a: int|
                        0 <= a < chunk_idxs@.len() implies self.graph.deg(
                            (#[trigger] chunk_idxs@[a]) as int,
                        ) == 0 by {
                        assert(self.graph.adj(chunk_idxs@[a] as int) == gb.adj(
                            chunk_idxs@[a] as int,
                        ));
                    }
                    assert(forall|v: int|
                        size0 <= v < gb.spec_size() ==> gb.deg(v) == 0);
                    assert forall|v: int|
                        size0 <= v < self.graph.spec_size() implies self.graph.deg(v) == 0 by {
                        if v < gb.spec_size() {
                            assert(self.graph.adj(v) == gb.adj(v));
                            assert(gb.deg(v) == 0);
                        } else {
                            assert(self.graph.adj(v).len() == 0);
                        }
                    }
                }
                chunk_idxs.push(idx);
                taken += 1;
            }
            // Phase b: plan each chunk member's neighbourhood against
            // the graph as it stands; no writes happen here, so the
            // plans all observe one consistent snapshot.
            let cn = chunk_idxs.len();
            let ghost gsnap = self.graph;
            let mut plans: Vec<Vec<Idx>> = Vec::new();
            let mut i: usize = 0;
            while i < cn
                invariant
                    0 <= i <= cn,
                    self.ep is Some,
                    self.ep->0 == ep,
                    self.ef_construction >= 1,
                    2 <= self.connections <= self.max_connections,
                    self.max_connections == mc,
                    self.graph == gsnap,
                    gsnap.degrees_bounded(mc as int),
                    (ep as int) < size0,
                    size0 <= gsnap.spec_size(),
                    forall|v: int| size0 <= v < gsnap.spec_size() ==> gsnap.deg(v) == 0,
                    plans@.len() == i,
                    forall|a: int, b: int|
                        0 <= a < plans@.len() && 0 <= b < plans@[a]@.len() ==> ((
                        #[trigger] plans@[a]@[b]) < size0),
                    forall|a: int| 0 <= a < plans@.len() ==> (#[trigger] plans@[a]@).len() <= self.connections,
                    gsnap.wf(),
                    (ep as int) < gsnap.spec_size(),
                    forall|a: int, b: int|
                        0 <= a < plans@.len() && 0 <= b < plans@[a]@.len() ==> ((
                        #[trigger] plans@[a]@[b]) as int) < gsnap.spec_size(),
                    forall|a: int| 0 <= a < plans@.len() ==> (#[trigger] plans@[a]@).no_duplicates(),
                    forall|a: int, b: int|
                        0 <= a < plans@.len() && 0 <= b < plans@[a]@.len() ==> ((
                        #[trigger] plans@[a]@[b]) == ep || gsnap.deg(plans@[a]@[b] as int) > 0),
                decreases cn - i,
            {
                let idx = chunk_idxs[i];
                let p = self.graph.get(idx).unwrap().clone_point();
                let n2 = self.graph.size();
                let mut visited = self.pool.get_sized(n2);
                let nbrs = search_select_neighbors(
                    &self.graph,
                    &p,
                    self.connections,
                    self.ef_construction,
                    ep,
                    &mut visited,
                );
                self.pool.release(visited);
                proof {
                    assert forall|b: int| 0 <= b < nbrs@.len() implies (#[trigger] nbrs@[b])
                        < size0 by {
                        assert(nbrs@[b] == ep || gsnap.deg(nbrs@[b] as int) > 0);
                        if (nbrs@[b] as int) >= size0 {
                            assert(gsnap.deg(nbrs@[b] as int) == 0);
                        }
                    }
                }
                plans.push(nbrs);
                i += 1;
            }
            // Phase c: integrate the plans serially, in chunk order.
            let mut i2: usize = 0;
            while i2 < cn
                invariant
                    0 <= i2 <= cn,
                    self.ep is Some,
                    self.ep->0 == ep,
                    (ep as int) < size0,
                    size0 <= self.graph.spec_size(),
                    self.ef_construction >= 1,
                    2 <= self.connections <= self.max_connections,
                    self.max_connections == mc,
                    self.graph.wf(),
                    self.graph.degrees_bounded(mc as int),
                    self.graph.spec_size() == gsnap.spec_size(),
                    self.graph.spec_nodes() == gsnap.spec_nodes(),
                    plans@.len() == cn,
                    chunk_idxs@.len() == cn,
                    forall|a: int|
                        0 <= a < cn ==> (#[trigger] chunk_idxs@[a]) as int == size0 + a,
                    gsnap.spec_size() == size0 + cn,
                    forall|a: int|
                        i2 <= a < cn ==> self.graph.deg((#[trigger] chunk_idxs@[a]) as int) == 0,
                    forall|a: int| 0 <= a < cn ==> (#[trigger] plans@[a]@).len() <= self.connections,
                    forall|a: int, b: int|
                        0 <= a < cn && 0 <= b < plans@[a]@.len() ==> ((#[trigger] plans@[a]@[b])
                            as int) < gsnap.spec_size(),
                    forall|a: int| 0 <= a < cn ==> (#[trigger] plans@[a]@).no_duplicates(),
                    forall|a: int, b: int|
                        0 <= a < cn && 0 <= b < plans@[a]@.len() ==> ((#[trigger] plans@[a]@[b])
                            < size0),
                decreases cn - i2,
            {
                let idx = chunk_idxs[i2];
                let nbrs = &plans[i2];
                let ghost gpre = self.graph;
                proof {
                    assert(chunk_idxs@[i2 as int] == idx);
                    assert(plans@[i2 as int]@ == nbrs@);
                    assert(!nbrs@.contains(idx)) by {
                        if nbrs@.contains(idx) {
                            let b = choose|b: int| 0 <= b < nbrs@.len() && nbrs@[b] == idx;
                            assert(plans@[i2 as int]@[b] < size0);
                        }
                    }
                    assert(gpre.deg(idx as int) == 0);
                }
                insert_neighbors(&mut self.graph, idx, nbrs, self.max_connections);
                proof {
                    assert forall|v: int|
                        0 <= v < self.graph.spec_size() implies self.graph.deg(v) <= mc as int by {
                        let vi = v as Idx;
                        if v == idx as int {
                            assert(self.graph.deg(v) <= gpre.deg(v) + nbrs@.len());
                            assert(nbrs@.len() <= self.connections);
                        } else if nbrs@.contains(vi) {
                            let b = choose|b: int| 0 <= b < nbrs@.len() && nbrs@[b] == vi;
                            assert(nbrs@[b] != idx);
                            assert(self.graph.deg(nbrs@[b] as int) <= mc as int);
                        } else {
                            assert(gpre.valid(vi) && vi != idx && !nbrs@.contains(vi));
                            assert(self.graph.deg(v) <= gpre.deg(v));
                            assert(gpre.deg(v) <= mc as int);
                        }
                    }
                    assert forall|a: int|
                        i2 + 1 <= a < cn implies self.graph.deg(
                            (#[trigger] chunk_idxs@[a]) as int,
                        ) == 0 by {
                        let ci = chunk_idxs@[a];
                        assert(!nbrs@.contains(ci)) by {
                            if nbrs@.contains(ci) {
                                let b = choose|b: int| 0 <= b < nbrs@.len() && nbrs@[b] == ci;
                                assert(plans@[i2 as int]@[b] < size0);
                            }
                        }
                        assert(ci != idx);
                        assert(self.graph.deg(ci as int) <= gpre.deg(ci as int));
                    }
                }
                i2 += 1;
            }
        }
    }

    /// Freeze the builder into an immutable index.
    pub fn build(self) -> (r: NSWIndex<P>)
        requires
            self.wf(),
        ensures
            r.wf(),
            r.graph == self.spec_graph(),
            r.ep == self.spec_ep(),
    {
        NSWIndex { graph: self.graph, ep: self.ep }
    }
}

/// Degree bound: every graph a builder can stand in keeps each node's
/// degree within the hard cap, after any completed insert.
pub proof fn lemma_degree_bound<P: Point>(b: &NSWBuilder<P>)
    requires
        b.wf(),
    ensures
        b.spec_graph().degrees_bounded(b.spec_max_connections()),
{
}

/// A frozen small-world graph, ready to serialise or query.
pub struct NSWIndex<P> {
    pub graph: SimpleGraph<P>,
    pub ep: Option<Idx>,
}

impl<P: Point> NSWIndex<P> {
    /// A well-formed graph with an entry point exactly when non-empty.
    pub open spec fn wf(&self) -> bool {
        &&& self.graph.wf()
        &&& match self.ep {
            Some(e) => self.graph.spec_size() > 0 && (e as int) < self.graph.spec_size(),
            None => self.graph.spec_size() == 0,
        }
    }

    pub fn size(&self) -> (r: usize)
        ensures
            r == self.graph.spec_size(),
    {
        self.graph.size()
    }

    /// Decide well-formedness by inspection, so untrusted data can be
    /// validated before use.
    pub fn check_wf(&self) -> (r: bool)
        ensures
            r == self.wf(),
    {
        if !self.graph.check_wf() {
            return false;
        }
        match self.ep {
            Some(e) => self.graph.size() > 0 && (e as usize) < self.graph.size(),
            None => self.graph.size() == 0,
        }
    }
}

/// What a flat query returns: nothing on an empty index or for `k` of
/// zero; otherwise the `k` nearest of a base beam search run with a
/// beam of at least `k`.
pub open spec fn flat_search_recs<P: Point>(
    g: SimpleGraph<P>,
    ep: Option<Idx>,
    q: P,
    k: int,
    ef: int,
) -> Seq<Rec> {
    match ep {
        None => Seq::empty(),
        Some(e) => {
            if k <= 0 {
                Seq::empty()
            } else {
                let efq = if ef >= k {
                    ef
                } else {
                    k
                };
                let s = beam_search(g, q, efq, e);
                s.take(if k <= s.len() {
                    k
                } else {
                    s.len() as int
                })
            }
        },
    }
}

/// A queryable flat small-world index.
pub struct NSW<P> {
    graph: SimpleGraph<P>,
    ep: Option<Idx>,
}

impl<P: Point> NSW<P> {
    pub closed spec fn spec_graph(&self) -> SimpleGraph<P> {
        self.graph
    }

    pub closed spec fn spec_ep(&self) -> Option<Idx> {
        self.ep
    }

    pub closed spec fn wf(&self) -> bool {
        &&& self.graph.wf()
        &&& match self.ep {
            Some(e) => self.graph.spec_size() > 0 && (e as int) < self.graph.spec_size(),
            None => self.graph.spec_size() == 0,
        }
    }

    /// Thaw a frozen index for querying.
    pub fn from_index(value: NSWIndex<P>) -> (r: Self)
        requires
            value.wf(),
        ensures
            r.wf(),
            r.spec_graph() == value.graph,
            r.spec_ep() == value.ep,
    {
        NSW { graph: value.graph, ep: value.ep }
    }

    pub fn size(&self) -> (r: usize)
        ensures
            r == self.spec_graph().spec_size(),
    {
        self.graph.size()
    }

    /// Top-k query: beam-search the graph with a beam of at least `k`
    /// and return the `k` nearest records in ascending
    /// `(distance, key)` order.  An empty index, or `k` of zero, gives
    /// an empty result.  The result is a function of the index and the
    /// query alone: repeating a query returns identical records.
    pub fn search(&self, query: &P, k: usize, ef: usize) -> (r: Vec<Distance<P>>)
        requires
            self.wf(),
        ensures
            ({
                let recs = flat_search_recs(self.spec_graph(), self.spec_ep(), *query, k as int, ef as int);
                &&& r@.len() == recs.len()
                &&& forall|i: int|
                    0 <= i < recs.len() ==> (#[trigger] r@[i]).distance == recs[i].0
                        && r@[i].key == recs[i].1 && r@[i].point
                        == self.spec_graph().spec_nodes()[recs[i].1 as int]
            }),
            r@.len() <= k,
            self.spec_ep() is Some && k >= 1 ==> r@.len() >= 1,
            forall|i: int, j: int|
                0 <= i <= j < r@.len() ==> (#[trigger] r@[i]).distance <= (#[trigger] r@[j]).distance,
            forall|i: int, j: int|
                0 <= i < j < r@.len() ==> (#[trigger] r@[i]).key != (#[trigger] r@[j]).key,
    {
        search_flat(&self.graph, self.ep, query, k, ef)
    }
}

/// Shared implementation of the flat top-k query.
#[verifier::loop_isolation(false)]
pub fn search_flat<P: Point>(
    graph: &SimpleGraph<P>,
    ep: Option<Idx>,
    query: &P,
    k: usize,
    ef: usize,
) -> (r: Vec<Distance<P>>)
    requires
        graph.wf(),
        match ep {
            Some(e) => graph.spec_size() > 0 && (e as int) < graph.spec_size(),
            None => graph.spec_size() == 0,
        },
    ensures
        ({
            let recs = flat_search_recs(*graph, ep, *query, k as int, ef as int);
            &&& r@.len() == recs.len()
            &&& forall|i: int|
                0 <= i < recs.len() ==> (#[trigger] r@[i]).distance == recs[i].0 && r@[i].key
                    == recs[i].1 && r@[i].point == graph.spec_nodes()[recs[i].1 as int]
        }),
        r@.len() <= k,
        ep is Some && k >= 1 ==> r@.len() >= 1,
        forall|i: int, j: int|
            0 <= i <= j < r@.len() ==> (#[trigger] r@[i]).distance <= (#[trigger] r@[j]).distance,
        forall|i: int, j: int|
            0 <= i < j < r@.len() ==> (#[trigger] r@[i]).key != (#[trigger] r@[j]).key,
{
    let e = match ep {
        Some(e) => e,
        None => {
            return Vec::new();
        },
    };
    if k == 0 {
        return Vec::new();
    }
    let efq = if ef >= k {
        ef
    } else {
        k
    };
    let n = graph.size();
    let mut visited = crate::bitset::BitSet::new(n);
    let mut recs = crate::nsw::search_layer(graph, query, efq, e, &mut visited);
    let ghost full = recs@;
    if recs.len() > k {
        recs.truncate(k);
        proof {
            assert(recs@ == full.take(k as int));
        }
    } else {
        proof {
            assert(recs@ =~= full.take(recs@.len() as int));
        }
    }
    proof {
        assert forall|x: Rec| #[trigger] recs@.contains(x) implies (x.1 as int)
            < graph.spec_size() by {
            let i = choose|i: int| 0 <= i < recs@.len() && recs@[i] == x;
            assert(full[i] == x);
            assert(full.contains(x));
        }
        assert forall|i: int, j: int| 0 <= i <= j < recs@.len() implies rec_le_at(
            recs@,
            i,
            j,
        ) by {
            assert(full[i].le_spec(&full[j]));
        }
        assert forall|i: int, j: int| 0 <= i < j < recs@.len() implies recs@[i].1 != recs@[j].1 by {
            assert(full[i].1 != full[j].1);
        }
    }
    let out = recs_to_dists(graph, &recs);
    proof {
        assert forall|i: int, j: int|
            0 <= i <= j < out@.len() implies (#[trigger] out@[i]).distance <= (
        #[trigger] out@[j]).distance by {
            assert(full[i].le_spec(&full[j]));
            assert(out@[i].distance == recs@[i].0 && out@[j].distance == recs@[j].0);
        }
        assert forall|i: int, j: int|
            0 <= i < j < out@.len() implies (#[trigger] out@[i]).key != (
        #[trigger] out@[j]).key by {
            assert(full[i].1 != full[j].1);
            assert(out@[i].key == recs@[i].1 && out@[j].key == recs@[j].1);
        }
    }
    out
}

/// Equal views give equal flat query results.
pub proof fn lemma_flat_search_cong<P: Point>(
    g1: SimpleGraph<P>,
    g2: SimpleGraph<P>,
    ep: Option<Idx>,
    q: P,
    k: int,
    ef: int,
)
    requires
        crate::nsw::same_graph_views(g1, g2),
        g1.wf(),
        match ep {
            Some(e) => (e as int) < g1.spec_size(),
            None => true,
        },
    ensures
        flat_search_recs(g1, ep, q, k, ef) == flat_search_recs(g2, ep, q, k, ef),
{
    match ep {
        None => {},
        Some(e) => {
            if k > 0 {
                let efq = if ef >= k {
                    ef
                } else {
                    k
                };
                crate::nsw::lemma_beam_search_cong(g1, g2, q, efq, e);
            }
        },
    }
}

/// Records at `i` and `j` are in lexicographic order.
pub open spec fn rec_le_at(s: Seq<Rec>, i: int, j: int) -> bool {
    s[i].0 < s[j].0 || (s[i].0 == s[j].0 && s[i].1 <= s[j].1)
}

} // verus!
