//! Greedy beam search over one navigable small-world layer, with the
//! neighbour-selection heuristic and single-point insertion.
//!
//! The search procedure is itself the specification: the spec function
//! [`beam_search`] defines, by recursion, exactly the sequence of
//! `(distance, key)` records the executable search returns.  Repeated
//! searches on one graph with equal parameters therefore return equal
//! results, and every tie breaks by the lexicographic `(distance, key)`
//! order.

use vstd::prelude::*;
use vstd::set_lib::lemma_int_range;
use vstd::set_lib::lemma_len_subset;
use vstd::set_lib::set_int_range;

use min_max_heap::MinMaxHeap;

use crate::bitset::BitSet;
use crate::heapext::heap_drain_asc;
use crate::heapext::heap_len;
use crate::heapext::heap_new;
use crate::heapext::heap_peek_max;
use crate::heapext::heap_pop_max;
use crate::heapext::heap_pop_min;
use crate::heapext::heap_push;
use crate::heapext::heap_seq;
use crate::order::insert_sorted;
use crate::order::TotalOrd;
use crate::order::lemma_insert_sorted_contains;
use crate::order::lemma_insert_sorted_len;
use crate::order::lemma_insert_sorted_sorted;
use crate::order::lemma_sorted_drop_first;
use crate::order::lemma_sorted_drop_last;
use crate::order::sorted;
use crate::point::Distance;
use crate::point::Point;
use crate::simplegraph::Idx;
use crate::simplegraph::SimpleGraph;

verus! {

/// A `(distance, key)` record.
pub type Rec = (usize, usize);

/// Every record points at a node of `g` and carries that node's true
/// distance to `q`.
pub open spec fn recs_ok<T: Point>(g: SimpleGraph<T>, q: T, s: Seq<Rec>) -> bool {
    forall|x: Rec| #[trigger]
        s.contains(x) ==> (x.1 as int) < g.spec_size() && x.0 == g.spec_nodes()[x.1 as int].spec_distance(&q)
}

/// The visited set holds identifiers of `g`, finitely many.
pub open spec fn visited_ok<T: Point>(g: SimpleGraph<T>, visited: Set<int>) -> bool {
    &&& visited.finite()
    &&& forall|x: int| #[trigger] visited.contains(x) ==> 0 <= x < g.spec_size()
    &&& visited.len() <= g.spec_size()
}

/// No two records share a key.
pub open spec fn keys_distinct(s: Seq<Rec>) -> bool {
    forall|i: int, j: int| 0 <= i < j < s.len() ==> s[i].1 != s[j].1
}

/// The full invariant of a search state.
pub open spec fn st_ok<T: Point>(
    g: SimpleGraph<T>,
    q: T,
    visited: Set<int>,
    w: Seq<Rec>,
    c: Seq<Rec>,
) -> bool {
    &&& g.wf()
    &&& visited_ok(g, visited)
    &&& recs_ok(g, q, w)
    &&& recs_ok(g, q, c)
}

/// One pass over the neighbour list of the current candidate, from
/// position `j` on: unvisited neighbours are marked, measured against
/// the query, and — unless the result window is full and they are no
/// closer than its farthest record — pushed into both the candidate
/// frontier and the result window, which is then trimmed to `ef`.
pub open spec fn process_nbrs<T: Point>(
    g: SimpleGraph<T>,
    q: T,
    ef: int,
    visited: Set<int>,
    w: Seq<Rec>,
    c: Seq<Rec>,
    nbrs: Seq<Idx>,
    j: int,
) -> (Set<int>, Seq<Rec>, Seq<Rec>)
    decreases nbrs.len() - j,
{
    if j < 0 || j >= nbrs.len() {
        (visited, w, c)
    } else {
        let e = nbrs[j];
        if visited.contains(e as int) {
            process_nbrs(g, q, ef, visited, w, c, nbrs, j + 1)
        } else {
            let v2 = visited.insert(e as int);
            let ed = g.spec_nodes()[e as int].spec_distance(&q);
            let f = w.last();
            if w.len() >= ef && ed >= f.0 {
                process_nbrs(g, q, ef, v2, w, c, nbrs, j + 1)
            } else {
                let r = (ed, e as usize);
                let c2 = insert_sorted(c, r);
                let w1 = insert_sorted(w, r);
                let w2 = if w1.len() > ef {
                    w1.drop_last()
                } else {
                    w1
                };
                process_nbrs(g, q, ef, v2, w2, c2, nbrs, j + 1)
            }
        }
    }
}

/// Structural facts about one neighbour pass, for the termination and
/// invariant arguments.
pub proof fn lemma_process_nbrs<T: Point>(
    g: SimpleGraph<T>,
    q: T,
    ef: int,
    visited: Set<int>,
    w: Seq<Rec>,
    c: Seq<Rec>,
    nbrs: Seq<Idx>,
    j: int,
)
    requires
        g.wf(),
        visited_ok(g, visited),
        recs_ok(g, q, w),
        recs_ok(g, q, c),
        forall|k: int| 0 <= k < nbrs.len() ==> ((#[trigger] nbrs[k]) as int) < g.spec_size(),
    ensures
        ({
            let st = process_nbrs(g, q, ef, visited, w, c, nbrs, j);
            &&& visited_ok(g, st.0)
            &&& recs_ok(g, q, st.1)
            &&& recs_ok(g, q, st.2)
            &&& visited.len() <= st.0.len()
            &&& forall|x: int| visited.contains(x) ==> #[trigger] st.0.contains(x)
            &&& st.2.len() <= c.len() + (st.0.len() - visited.len())
        }),
    decreases nbrs.len() - j,
{
    if j < 0 || j >= nbrs.len() {
    } else {
        let e = nbrs[j];
        if visited.contains(e as int) {
            lemma_process_nbrs(g, q, ef, visited, w, c, nbrs, j + 1);
        } else {
            let v2 = visited.insert(e as int);
            assert(visited_ok(g, v2)) by {
                assert(v2.subset_of(set_int_range(0, g.spec_size())));
                lemma_int_range(0, g.spec_size());
                lemma_len_subset(v2, set_int_range(0, g.spec_size()));
            }
            assert(visited.len() < v2.len()) by {
                assert(v2.remove(e as int) =~= visited);
            }
            let ed = g.spec_nodes()[e as int].spec_distance(&q);
            let f = w.last();
            if w.len() >= ef && ed >= f.0 {
                lemma_process_nbrs(g, q, ef, v2, w, c, nbrs, j + 1);
            } else {
                let r = (ed, e as usize);
                let c2 = insert_sorted(c, r);
                let w1 = insert_sorted(w, r);
                let w2 = if w1.len() > ef {
                    w1.drop_last()
                } else {
                    w1
                };
                assert(recs_ok(g, q, c2)) by {
                    assert forall|x: Rec| #[trigger] c2.contains(x) implies (x.1 as int)
                        < g.spec_size() && x.0 == g.spec_nodes()[x.1 as int].spec_distance(
                        &q,
                    ) by {
                        lemma_insert_sorted_contains(c, r, x);
                    }
                }
                assert(recs_ok(g, q, w1)) by {
                    assert forall|x: Rec| #[trigger] w1.contains(x) implies (x.1 as int)
                        < g.spec_size() && x.0 == g.spec_nodes()[x.1 as int].spec_distance(
                        &q,
                    ) by {
                        lemma_insert_sorted_contains(w, r, x);
                    }
                }
                assert(recs_ok(g, q, w2)) by {
                    assert forall|x: Rec| #[trigger] w2.contains(x) implies w1.contains(x) by {
                        let i = choose|i: int| 0 <= i < w2.len() && w2[i] == x;
                        assert(w1[i] == x);
                    }
                }
                lemma_insert_sorted_len(c, r);
                lemma_insert_sorted_len(w, r);
                lemma_process_nbrs(g, q, ef, v2, w2, c2, nbrs, j + 1);
            }
        }
    }
}

/// The remainder of the beam search from a given state: pop the nearest
/// candidate; stop when it cannot improve a full result window; else
/// process its neighbours and continue.
pub open spec fn search_rec<T: Point>(
    g: SimpleGraph<T>,
    q: T,
    ef: int,
    visited: Set<int>,
    w: Seq<Rec>,
    c: Seq<Rec>,
) -> Seq<Rec>
    decreases g.spec_size() - visited.len(), c.len(),
    when st_ok(g, q, visited, w, c)
    via search_rec_decreases::<T>
{
    if c.len() == 0 {
        w
    } else {
        let cur = c[0];
        let c1 = c.drop_first();
        let f = w.last();
        if cur.0 > f.0 && w.len() >= ef {
            w
        } else {
            let st = process_nbrs(g, q, ef, visited, w, c1, g.adj(cur.1 as int), 0);
            search_rec(g, q, ef, st.0, st.1, st.2)
        }
    }
}

#[via_fn]
proof fn search_rec_decreases<T: Point>(
    g: SimpleGraph<T>,
    q: T,
    ef: int,
    visited: Set<int>,
    w: Seq<Rec>,
    c: Seq<Rec>,
) {
    if c.len() > 0 {
        let cur = c[0];
        let c1 = c.drop_first();
        let f = w.last();
        if !(cur.0 > f.0 && w.len() >= ef) {
            let nbrs = g.adj(cur.1 as int);
            assert(c.contains(cur));
            assert((cur.1 as int) < g.spec_size());
            assert(forall|k: int|
                0 <= k < nbrs.len() ==> ((#[trigger] nbrs[k]) as int) < g.spec_size());
            assert(recs_ok(g, q, c1)) by {
                assert forall|x: Rec| #[trigger] c1.contains(x) implies c.contains(x) by {
                    let i = choose|i: int| 0 <= i < c1.len() && c1[i] == x;
                    assert(c[i + 1] == x);
                }
            }
            lemma_process_nbrs(g, q, ef, visited, w, c1, nbrs, 0);
        }
    }
}

/// The beam search of the whole layer: seed both the candidate frontier
/// and the result window with the entry point, then run to completion.
pub open spec fn beam_search<T: Point>(g: SimpleGraph<T>, q: T, ef: int, ep: Idx) -> Seq<Rec> {
    let d0 = g.spec_nodes()[ep as int].spec_distance(&q);
    let r0 = (d0, ep as usize);
    search_rec(g, q, ef, Set::empty().insert(ep as int), seq![r0], seq![r0])
}

/// A neighbour pass never empties the result window.
proof fn lemma_process_nbrs_wlen<T: Point>(
    g: SimpleGraph<T>,
    q: T,
    ef: int,
    visited: Set<int>,
    w: Seq<Rec>,
    c: Seq<Rec>,
    nbrs: Seq<Idx>,
    j: int,
)
    requires
        w.len() >= 1,
        ef >= 1,
    ensures
        process_nbrs(g, q, ef, visited, w, c, nbrs, j).1.len() >= 1,
    decreases nbrs.len() - j,
{
    if 0 <= j < nbrs.len() {
        let e = nbrs[j];
        if visited.contains(e as int) {
            lemma_process_nbrs_wlen(g, q, ef, visited, w, c, nbrs, j + 1);
        } else {
            let v2 = visited.insert(e as int);
            let ed = g.spec_nodes()[e as int].spec_distance(&q);
            let f = w.last();
            if w.len() >= ef && ed >= f.0 {
                lemma_process_nbrs_wlen(g, q, ef, v2, w, c, nbrs, j + 1);
            } else {
                let r = (ed, e as usize);
                let c2 = insert_sorted(c, r);
                let w1 = insert_sorted(w, r);
                lemma_insert_sorted_len(w, r);
                let w2 = if w1.len() > ef {
                    w1.drop_last()
                } else {
                    w1
                };
                lemma_process_nbrs_wlen(g, q, ef, v2, w2, c2, nbrs, j + 1);
            }
        }
    }
}

/// From any sound state the search returns at least one record, every
/// record naming a node of the graph with its true distance.
proof fn lemma_search_rec_props<T: Point>(
    g: SimpleGraph<T>,
    q: T,
    ef: int,
    visited: Set<int>,
    w: Seq<Rec>,
    c: Seq<Rec>,
)
    requires
        st_ok(g, q, visited, w, c),
        w.len() >= 1,
        ef >= 1,
    ensures
        recs_ok(g, q, search_rec(g, q, ef, visited, w, c)),
        search_rec(g, q, ef, visited, w, c).len() >= 1,
    decreases g.spec_size() - visited.len(), c.len(),
{
    if c.len() == 0 {
    } else {
        let cur = c[0];
        let c1 = c.drop_first();
        let f = w.last();
        if cur.0 > f.0 && w.len() >= ef {
        } else {
            assert(c.contains(cur));
            assert((cur.1 as int) < g.spec_size());
            let nbrs = g.adj(cur.1 as int);
            assert(recs_ok(g, q, c1)) by {
                assert forall|x: Rec| #[trigger] c1.contains(x) implies c.contains(x) by {
                    let i = choose|i: int| 0 <= i < c1.len() && c1[i] == x;
                    assert(c[i + 1] == x);
                }
            }
            assert(forall|k: int|
                0 <= k < nbrs.len() ==> ((#[trigger] nbrs[k]) as int) < g.spec_size());
            lemma_process_nbrs(g, q, ef, visited, w, c1, nbrs, 0);
            lemma_process_nbrs_wlen(g, q, ef, visited, w, c1, nbrs, 0);
            let st = process_nbrs(g, q, ef, visited, w, c1, nbrs, 0);
            lemma_search_rec_props(g, q, ef, st.0, st.1, st.2);
        }
    }
}

/// The beam search of a well-formed layer returns at least one record,
/// each naming a node with its true distance to the query.
pub proof fn lemma_beam_search_props<T: Point>(g: SimpleGraph<T>, q: T, ef: int, ep: Idx)
    requires
        g.wf(),
        (ep as int) < g.spec_size(),
        ef >= 1,
    ensures
        recs_ok(g, q, beam_search(g, q, ef, ep)),
        beam_search(g, q, ef, ep).len() >= 1,
{
    let d0 = g.spec_nodes()[ep as int].spec_distance(&q);
    let r0 = (d0, ep as usize);
    let v0 = Set::empty().insert(ep as int);
    assert(v0.len() == 1) by {
        assert(v0.remove(ep as int) =~= Set::<int>::empty());
    }
    assert forall|x: Rec| #[trigger] seq![r0].contains(x) implies x == r0 by {
        let i = choose|i: int| 0 <= i < 1 && seq![r0][i] == x;
    }
    assert(st_ok(g, q, v0, seq![r0], seq![r0]));
    lemma_search_rec_props(g, q, ef, v0, seq![r0], seq![r0]);
}

/// Two graph stores hold the same nodes and the same adjacency lists.
pub open spec fn same_graph_views<T: Point>(g1: SimpleGraph<T>, g2: SimpleGraph<T>) -> bool {
    &&& g1.spec_nodes() == g2.spec_nodes()
    &&& g1.adj_lists@.len() == g2.adj_lists@.len()
    &&& forall|v: int| 0 <= v < g1.adj_lists@.len() ==> #[trigger] g1.adj(v) == g2.adj(v)
}

/// Equal views give equal well-formedness.
pub proof fn lemma_wf_cong<T: Point>(g1: SimpleGraph<T>, g2: SimpleGraph<T>)
    requires
        same_graph_views(g1, g2),
        g1.wf(),
    ensures
        g2.wf(),
{
    assert forall|v: int|
        0 <= v < g2.spec_size() implies (#[trigger] g2.adj(v)).no_duplicates() by {
        assert(g2.adj(v) == g1.adj(v));
    }
    assert forall|v: int, j: int|
        0 <= v < g2.spec_size() && 0 <= j < g2.adj(v).len() implies (#[trigger] g2.adj(v)[j]
            as int) < g2.spec_size() && g2.adj(v)[j] != v by {
        assert(g2.adj(v) == g1.adj(v));
    }
    assert forall|v: Idx, w: Idx| #[trigger] g2.has_edge(v, w) implies g2.has_edge(w, v) by {
        assert(g2.adj(v as int) == g1.adj(v as int));
        assert(g1.has_edge(v, w));
        assert(g1.has_edge(w, v));
        assert(g2.adj(w as int) == g1.adj(w as int));
    }
}

/// The neighbour pass reads only the stored points, so equal views
/// give equal passes.
proof fn lemma_process_nbrs_cong<T: Point>(
    g1: SimpleGraph<T>,
    g2: SimpleGraph<T>,
    q: T,
    ef: int,
    visited: Set<int>,
    w: Seq<Rec>,
    c: Seq<Rec>,
    nbrs: Seq<Idx>,
    j: int,
)
    requires
        g1.spec_nodes() == g2.spec_nodes(),
    ensures
        process_nbrs(g1, q, ef, visited, w, c, nbrs, j) == process_nbrs(
            g2,
            q,
            ef,
            visited,
            w,
            c,
            nbrs,
            j,
        ),
    decreases nbrs.len() - j,
{
    if 0 <= j < nbrs.len() {
        let e = nbrs[j];
        if visited.contains(e as int) {
            lemma_process_nbrs_cong(g1, g2, q, ef, visited, w, c, nbrs, j + 1);
        } else {
            let v2 = visited.insert(e as int);
            let ed = g1.spec_nodes()[e as int].spec_distance(&q);
            let f = w.last();
            if w.len() >= ef && ed >= f.0 {
                lemma_process_nbrs_cong(g1, g2, q, ef, v2, w, c, nbrs, j + 1);
            } else {
                let r = (ed, e as usize);
                let c2 = insert_sorted(c, r);
                let w1 = insert_sorted(w, r);
                let w2 = if w1.len() > ef {
                    w1.drop_last()
                } else {
                    w1
                };
                lemma_process_nbrs_cong(g1, g2, q, ef, v2, w2, c2, nbrs, j + 1);
            }
        }
    }
}

/// The search reads only the stored points and adjacency lists, so
/// equal views give equal searches from any state.
proof fn lemma_search_rec_cong<T: Point>(
    g1: SimpleGraph<T>,
    g2: SimpleGraph<T>,
    q: T,
    ef: int,
    visited: Set<int>,
    w: Seq<Rec>,
    c: Seq<Rec>,
)
    requires
        same_graph_views(g1, g2),
        st_ok(g1, q, visited, w, c),
    ensures
        search_rec(g1, q, ef, visited, w, c) == search_rec(g2, q, ef, visited, w, c),
    decreases g1.spec_size() - visited.len(), c.len(),
{
    lemma_wf_cong(g1, g2);
    if c.len() == 0 {
    } else {
        let cur = c[0];
        let c1 = c.drop_first();
        let f = w.last();
        if cur.0 > f.0 && w.len() >= ef {
        } else {
            assert(c.contains(cur));
            assert((cur.1 as int) < g1.spec_size());
            let nbrs = g1.adj(cur.1 as int);
            assert(g2.adj(cur.1 as int) == nbrs);
            assert(recs_ok(g1, q, c1)) by {
                assert forall|x: Rec| #[trigger] c1.contains(x) implies c.contains(x) by {
                    let i = choose|i: int| 0 <= i < c1.len() && c1[i] == x;
                    assert(c[i + 1] == x);
                }
            }
            assert(forall|k: int|
                0 <= k < nbrs.len() ==> ((#[trigger] nbrs[k]) as int) < g1.spec_size());
            lemma_process_nbrs(g1, q, ef, visited, w, c1, nbrs, 0);
            lemma_process_nbrs_cong(g1, g2, q, ef, visited, w, c1, nbrs, 0);
            let st = process_nbrs(g1, q, ef, visited, w, c1, nbrs, 0);
            lemma_search_rec_cong(g1, g2, q, ef, st.0, st.1, st.2);
        }
    }
}

/// Equal views give equal beam searches.
pub proof fn lemma_beam_search_cong<T: Point>(
    g1: SimpleGraph<T>,
    g2: SimpleGraph<T>,
    q: T,
    ef: int,
    ep: Idx,
)
    requires
        same_graph_views(g1, g2),
        g1.wf(),
        (ep as int) < g1.spec_size(),
    ensures
        beam_search(g1, q, ef, ep) == beam_search(g2, q, ef, ep),
{
    let d0 = g1.spec_nodes()[ep as int].spec_distance(&q);
    let r0 = (d0, ep as usize);
    let v0 = Set::empty().insert(ep as int);
    assert(v0.len() == 1) by {
        assert(v0.remove(ep as int) =~= Set::<int>::empty());
    }
    assert forall|x: Rec| #[trigger] seq![r0].contains(x) implies x == r0 by {
        let i = choose|i: int| 0 <= i < 1 && seq![r0][i] == x;
    }
    assert(st_ok(g1, q, v0, seq![r0], seq![r0]));
    lemma_search_rec_cong(g1, g2, q, ef, v0, seq![r0], seq![r0]);
}

/// Keys in `s` all lie in the visited set.
pub open spec fn keys_visited(s: Seq<Rec>, visited: Set<int>) -> bool {
    forall|x: Rec| #[trigger] s.contains(x) ==> visited.contains(x.1 as int)
}

/// Inserting a record whose key is fresh keeps keys pairwise distinct.
pub proof fn lemma_insert_keys_distinct_pub(s: Seq<Rec>, v: Rec)
    requires
        keys_distinct(s),
        forall|x: Rec| #[trigger] s.contains(x) ==> x.1 != v.1,
    ensures
        forall|i: int, j: int|
            0 <= i < j < insert_sorted(s, v).len() ==> insert_sorted(s, v)[i].1 != insert_sorted(
                s,
                v,
            )[j].1,
{
    lemma_insert_keys_distinct(s, v);
}

/// Inserting a record whose key is fresh keeps keys pairwise distinct.
proof fn lemma_insert_keys_distinct(s: Seq<Rec>, v: Rec)
    requires
        keys_distinct(s),
        forall|x: Rec| #[trigger] s.contains(x) ==> x.1 != v.1,
    ensures
        keys_distinct(insert_sorted(s, v)),
    decreases s.len(),
{
    let t = insert_sorted(s, v);
    if s.len() == 0 {
    } else if s[0].le_spec(&v) {
        let s1 = s.drop_first();
        assert(keys_distinct(s1)) by {
            assert forall|i: int, j: int| 0 <= i < j < s1.len() implies s1[i].1 != s1[j].1 by {
                assert(s[i + 1].1 != s[j + 1].1);
            }
        }
        assert forall|x: Rec| #[trigger] s1.contains(x) implies x.1 != v.1 by {
            let i = choose|i: int| 0 <= i < s1.len() && s1[i] == x;
            assert(s[i + 1] == x);
            assert(s.contains(x));
        }
        lemma_insert_keys_distinct(s1, v);
        let t1 = insert_sorted(s1, v);
        assert(t == seq![s[0]] + t1);
        assert forall|i: int, j: int| 0 <= i < j < t.len() implies t[i].1 != t[j].1 by {
            if i == 0 {
                assert(t[j] == t1[j - 1]);
                assert(t1.contains(t1[j - 1]));
                lemma_insert_sorted_contains(s1, v, t1[j - 1]);
                if t1[j - 1] == v {
                    assert(s.contains(s[0]));
                } else {
                    let k = choose|k: int| 0 <= k < s1.len() && s1[k] == t1[j - 1];
                    assert(s[0].1 != s[k + 1].1);
                }
            } else {
                assert(t[i] == t1[i - 1] && t[j] == t1[j - 1]);
            }
        }
    } else {
        assert(t == seq![v] + s);
        assert forall|i: int, j: int| 0 <= i < j < t.len() implies t[i].1 != t[j].1 by {
            if i == 0 {
                assert(t[j] == s[j - 1]);
                assert(s.contains(s[j - 1]));
            } else {
                assert(t[i] == s[i - 1] && t[j] == s[j - 1]);
            }
        }
    }
}

/// Beam search on one layer (SEARCH-LAYER).
///
/// Returns up to `ef` of the records nearest to `q` found by greedy
/// best-first traversal from `ep`, in ascending `(distance, key)`
/// order.  The result equals [`beam_search`] of the inputs: searching
/// a fixed graph with fixed parameters twice returns the same records.
#[verifier::loop_isolation(false)]
pub fn search_layer<T: Point>(
    g: &SimpleGraph<T>,
    q: &T,
    ef: usize,
    ep: Idx,
    visited: &mut BitSet,
) -> (r: Vec<Rec>)
    requires
        g.wf(),
        ef >= 1,
        (ep as int) < g.spec_size(),
        old(visited)@ == Set::<int>::empty(),
        old(visited).spec_capacity() >= g.spec_size(),
    ensures
        r@ == beam_search(*g, *q, ef as int, ep),
        sorted(r@),
        1 <= r@.len() <= ef,
        recs_ok(*g, *q, r@),
        keys_distinct(r@),
        forall|x: Rec| #[trigger] r@.contains(x) ==> x.1 == ep as usize || g.deg(x.1 as int) > 0,
        final(visited).spec_capacity() == old(visited).spec_capacity(),
{
    let ghost gg = *g;
    let ghost qq = *q;
    let ep_elem = g.get(ep).unwrap();
    let d0 = ep_elem.distance(q);
    let r0 = (d0, ep as usize);
    visited.insert(ep);
    let mut w: MinMaxHeap<Rec> = heap_new();
    let mut c: MinMaxHeap<Rec> = heap_new();
    heap_push(&mut w, r0);
    heap_push(&mut c, r0);
    let ghost target = beam_search(gg, qq, ef as int, ep);
    proof {
        assert(heap_seq(w) == seq![r0]);
        assert(heap_seq(c) == seq![r0]);
        assert(visited@ =~= Set::empty().insert(ep as int));
        assert(seq![r0][0] == r0);
        assert forall|x: Rec| #[trigger] seq![r0].contains(x) implies x == r0 by {
            let i = choose|i: int| 0 <= i < 1 && seq![r0][i] == x;
        }
        assert(visited@.len() == 1) by {
            assert(visited@.remove(ep as int) =~= Set::<int>::empty());
        }
        assert(sorted(seq![r0])) by {
            assert(r0.0 < r0.0 || (r0.0 == r0.0 && r0.1 <= r0.1));
        }
    }
    let mut c_len: usize = 1;
    while c_len > 0
        invariant
            visited.spec_capacity() == old(visited).spec_capacity(),
            visited_ok(gg, visited@),
            recs_ok(gg, qq, heap_seq(w)),
            recs_ok(gg, qq, heap_seq(c)),
            sorted(heap_seq(w)),
            sorted(heap_seq(c)),
            1 <= heap_seq(w).len() <= ef,
            keys_distinct(heap_seq(w)),
            keys_visited(heap_seq(w), visited@),
            forall|x: Rec| #[trigger] heap_seq(w).contains(x) ==> x.1 == ep as usize || gg.deg(
                x.1 as int,
            ) > 0,
            c_len == heap_seq(c).len(),
            search_rec(gg, qq, ef as int, visited@, heap_seq(w), heap_seq(c)) == target,
        decreases gg.spec_size() - visited@.len(), heap_seq(c).len(),
    {
        let ghost v_at = visited@;
        let ghost w_at = heap_seq(w);
        let ghost c_at = heap_seq(c);
        let cur = heap_pop_min(&mut c).unwrap();
        let fmax = heap_peek_max(&w).unwrap();
        let wlen = heap_len(&w);
        if cur.0 > fmax.0 && wlen >= ef {
            proof {
                assert(target == w_at);
            }
            let out = heap_drain_asc(&mut w);
            return out;
        }
        proof {
            assert(c_at[0] == cur);
            assert(c_at.contains(cur));
            lemma_sorted_drop_first::<Rec>(c_at);
            assert forall|x: Rec| #[trigger] c_at.drop_first().contains(x) implies c_at.contains(
                x,
            ) by {
                let i = choose|i: int| 0 <= i < c_at.drop_first().len() && c_at.drop_first()[i]
                    == x;
                assert(c_at[i + 1] == x);
            }
        }
        let key = cur.1 as u32;
        let nbrs = g.neighborhood(key);
        let ghost nb = nbrs@;
        let ghost c1 = c_at.drop_first();
        let ghost p0 = process_nbrs(gg, qq, ef as int, v_at, w_at, c1, nb, 0);
        let n = nbrs.len();
        let mut j: usize = 0;
        while j < n
            invariant
                0 <= j <= n,
                visited.spec_capacity() == old(visited).spec_capacity(),
                visited_ok(gg, visited@),
                recs_ok(gg, qq, heap_seq(w)),
                recs_ok(gg, qq, heap_seq(c)),
                sorted(heap_seq(w)),
                sorted(heap_seq(c)),
                1 <= heap_seq(w).len() <= ef,
                keys_distinct(heap_seq(w)),
                keys_visited(heap_seq(w), visited@),
                forall|x: Rec| #[trigger] heap_seq(w).contains(x) ==> x.1 == ep as usize
                    || gg.deg(x.1 as int) > 0,
                forall|x: int| v_at.contains(x) ==> #[trigger] visited@.contains(x),
                v_at.len() <= visited@.len(),
                heap_seq(c).len() <= c1.len() + (visited@.len() - v_at.len()),
                process_nbrs(gg, qq, ef as int, visited@, heap_seq(w), heap_seq(c), nb, j as int)
                    == p0,
            decreases n - j,
        {
            let ghost vj = visited@;
            let ghost wj = heap_seq(w);
            let ghost cj = heap_seq(c);
            let e = nbrs[j];
            proof {
                assert(nb[j as int] == e);
                assert((e as int) < gg.spec_size());
            }
            if !visited.contains(e) {
                visited.insert(e);
                proof {
                    assert(visited@.subset_of(set_int_range(0, gg.spec_size())));
                    lemma_int_range(0, gg.spec_size());
                    lemma_len_subset(visited@, set_int_range(0, gg.spec_size()));
                    assert(vj.len() < visited@.len()) by {
                        assert(visited@.remove(e as int) =~= vj);
                    }
                }
                let felem = heap_peek_max(&w).unwrap();
                let wl = heap_len(&w);
                let elem = g.get(e).unwrap();
                let ed = elem.distance(q);
                if wl >= ef && ed >= felem.0 {
                    proof {
                        assert(process_nbrs(gg, qq, ef as int, vj, wj, cj, nb, j as int)
                            == process_nbrs(
                            gg,
                            qq,
                            ef as int,
                            visited@,
                            heap_seq(w),
                            heap_seq(c),
                            nb,
                            j + 1,
                        ));
                    }
                } else {
                    let rec = (ed, e as usize);
                    proof {
                        lemma_insert_sorted_sorted(heap_seq(c), rec);
                        lemma_insert_sorted_sorted(heap_seq(w), rec);
                        lemma_insert_sorted_len(heap_seq(c), rec);
                        lemma_insert_sorted_len(heap_seq(w), rec);
                        assert forall|x: Rec| #[trigger] wj.contains(x) implies x.1 != rec.1 by {
                            assert(vj.contains(x.1 as int) == true);
                        }
                        lemma_insert_keys_distinct(wj, rec);
                    }
                    heap_push(&mut c, rec);
                    heap_push(&mut w, rec);
                    proof {
                        assert forall|x: Rec| #[trigger] heap_seq(c).contains(x) implies (x.1
                            as int) < gg.spec_size() && x.0 == gg.spec_nodes()[x.1 as int].spec_distance(&qq) by {
                            lemma_insert_sorted_contains(cj, rec, x);
                        }
                        assert forall|x: Rec| #[trigger] heap_seq(w).contains(x) implies (x.1
                            as int) < gg.spec_size() && x.0 == gg.spec_nodes()[x.1 as int].spec_distance(&qq) by {
                            lemma_insert_sorted_contains(wj, rec, x);
                        }
                        assert forall|x: Rec| #[trigger] heap_seq(w).contains(x) implies visited@.contains(x.1 as int) by {
                            lemma_insert_sorted_contains(wj, rec, x);
                        }
                        assert(gg.has_edge(key, e)) by {
                            assert(gg.adj(key as int)[j as int] == e);
                            assert(gg.adj(key as int).contains(e));
                        }
                        assert(gg.has_edge(e, key));
                        assert(gg.deg(e as int) > 0) by {
                            assert(gg.adj(e as int).contains(key));
                            let i = choose|i: int|
                                0 <= i < gg.adj(e as int).len() && gg.adj(e as int)[i] == key;
                        }
                        assert forall|x: Rec| #[trigger] heap_seq(w).contains(x) implies x.1 == ep
                            as usize || gg.deg(x.1 as int) > 0 by {
                            lemma_insert_sorted_contains(wj, rec, x);
                        }
                    }
                    let wl2 = heap_len(&w);
                    if wl2 > ef {
                        let ghost wfull = heap_seq(w);
                        let _dropped = heap_pop_max(&mut w);
                        proof {
                            lemma_sorted_drop_last::<Rec>(wfull);
                            assert forall|x: Rec| #[trigger] heap_seq(w).contains(x) implies wfull.contains(x) by {
                                let i = choose|i: int|
                                    0 <= i < heap_seq(w).len() && heap_seq(w)[i] == x;
                                assert(wfull[i] == x);
                            }
                        }
                    }
                    proof {
                        assert(process_nbrs(gg, qq, ef as int, vj, wj, cj, nb, j as int)
                            == process_nbrs(
                            gg,
                            qq,
                            ef as int,
                            visited@,
                            heap_seq(w),
                            heap_seq(c),
                            nb,
                            j + 1,
                        ));
                    }
                }
            } else {
                proof {
                    assert(process_nbrs(gg, qq, ef as int, vj, wj, cj, nb, j as int)
                        == process_nbrs(
                        gg,
                        qq,
                        ef as int,
                        visited@,
                        heap_seq(w),
                        heap_seq(c),
                        nb,
                        j + 1,
                    ));
                }
            }
            j += 1;
        }
        proof {
            assert(process_nbrs(gg, qq, ef as int, visited@, heap_seq(w), heap_seq(c), nb, n as int)
                == (visited@, heap_seq(w), heap_seq(c)));
            assert((visited@, heap_seq(w), heap_seq(c)) == p0);
            assert(search_rec(gg, qq, ef as int, v_at, w_at, c_at) == search_rec(
                gg,
                qq,
                ef as int,
                p0.0,
                p0.1,
                p0.2,
            ));
            if visited@.len() == v_at.len() {
                assert(heap_seq(c).len() <= c1.len());
                assert(c1.len() < c_at.len());
            }
        }
        c_len = heap_len(&c);
    }
    proof {
        assert(target == heap_seq(w));
    }
    let out = heap_drain_asc(&mut w);
    out
}

/// The candidate is farther from every already-accepted record than it
/// is from the query, so it adds a new direction to the neighbourhood.
pub open spec fn diverse<P: Point>(e: Distance<P>, acc: Seq<Distance<P>>) -> bool {
    forall|i: int|
        0 <= i < acc.len() ==> e.point.spec_distance(&(#[trigger] acc[i]).point) > e.distance
}

/// The diversity-preserving selection (SELECT-NEIGHBORS): walk the
/// candidates from nearest to farthest and accept each one that is
/// diverse with respect to those accepted before it, until `m` are
/// accepted.
pub open spec fn select_spec<P: Point>(
    cands: Seq<Distance<P>>,
    m: int,
    acc: Seq<Distance<P>>,
) -> Seq<Distance<P>>
    decreases cands.len(),
{
    if cands.len() == 0 || acc.len() >= m {
        acc
    } else {
        let e = cands[0];
        if diverse(e, acc) {
            select_spec(cands.drop_first(), m, acc.push(e))
        } else {
            select_spec(cands.drop_first(), m, acc)
        }
    }
}

/// What the selection adds: the accepted prefix stays, at most `m`
/// records come out, and each added record is one of the candidates.
pub proof fn lemma_select_spec<P: Point>(cands: Seq<Distance<P>>, m: int, acc: Seq<Distance<P>>)
    ensures
        ({
            let r = select_spec(cands, m, acc);
            &&& acc.len() <= r.len()
            &&& forall|i: int| 0 <= i < acc.len() ==> r[i] == acc[i]
            &&& r.len() <= (if acc.len() >= m {
                acc.len() as int
            } else {
                m
            })
            &&& forall|i: int| acc.len() <= i < r.len() ==> cands.contains(#[trigger] r[i])
            &&& (cands.len() > 0 && acc.len() < m && diverse(cands[0], acc)) ==> r.len()
                > acc.len()
        }),
    decreases cands.len(),
{
    if cands.len() == 0 || acc.len() >= m {
    } else {
        let e = cands[0];
        let c1 = cands.drop_first();
        assert(forall|x: Distance<P>| c1.contains(x) ==> cands.contains(x)) by {
            assert forall|x: Distance<P>| c1.contains(x) implies cands.contains(x) by {
                let i = choose|i: int| 0 <= i < c1.len() && c1[i] == x;
                assert(cands[i + 1] == x);
            }
        }
        assert(cands.contains(e));
        if diverse(e, acc) {
            lemma_select_spec(c1, m, acc.push(e));
        } else {
            lemma_select_spec(c1, m, acc);
        }
    }
}

/// SELECT-NEIGHBORS: prune a candidate list, sorted ascending by
/// `(distance, key)`, down to at most `m` diverse neighbours.
///
/// The result equals [`select_spec`] of the inputs, keeps the
/// candidates' order, and — given at least one candidate — is never
/// empty.
#[verifier::loop_isolation(false)]
pub fn select_neighbors<P: Point>(candidates: Vec<Distance<P>>, m: usize) -> (r: Vec<
    Distance<P>,
>)
    requires
        m >= 1,
    ensures
        r@ == select_spec(candidates@, m as int, Seq::<Distance<P>>::empty()),
        r@.len() <= m,
        candidates@.len() > 0 ==> r@.len() >= 1,
        forall|i: int| 0 <= i < r@.len() ==> candidates@.contains(#[trigger] r@[i]),
{
    let ghost cs = candidates@;
    let mut cands = candidates;
    let mut acc: Vec<Distance<P>> = Vec::new();
    proof {
        lemma_select_spec(cs, m as int, Seq::<Distance<P>>::empty());
    }
    while cands.len() > 0 && acc.len() < m
        invariant
            acc@.len() <= m,
            select_spec(cands@, m as int, acc@) == select_spec(
                cs,
                m as int,
                Seq::<Distance<P>>::empty(),
            ),
        decreases cands@.len(),
    {
        let e = cands.remove(0);
        let ghost cpre = cands@;
        let mut ok = true;
        let mut i: usize = 0;
        while i < acc.len()
            invariant
                0 <= i <= acc@.len(),
                ok <==> (forall|k: int|
                    0 <= k < i ==> e.point.spec_distance(&(#[trigger] acc@[k]).point)
                        > e.distance),
            decreases acc@.len() - i,
        {
            let d = e.point.distance(&acc[i].point);
            if d <= e.distance {
                ok = false;
                proof {
                    assert(!(e.point.spec_distance(&acc@[i as int].point) > e.distance));
                }
                i = acc.len();
            } else {
                i += 1;
            }
        }
        if ok {
            proof {
                assert(diverse(e, acc@));
            }
            acc.push(e);
        } else {
            proof {
                assert(!diverse(e, acc@));
            }
        }
    }
    proof {
        if cands@.len() == 0 || acc@.len() >= m {
            assert(select_spec(cands@, m as int, acc@) == acc@);
        }
        lemma_select_spec(cs, m as int, Seq::<Distance<P>>::empty());
    }
    acc
}

/// No two records share a key.
pub open spec fn dist_keys_distinct<P: Point>(s: Seq<Distance<P>>) -> bool {
    forall|i: int, j: int| 0 <= i < j < s.len() ==> s[i].key != s[j].key
}

/// Selection keeps keys pairwise distinct when they start out so.
proof fn lemma_select_distinct<P: Point>(cands: Seq<Distance<P>>, m: int, acc: Seq<Distance<P>>)
    requires
        dist_keys_distinct(cands),
        dist_keys_distinct(acc),
        forall|x: Distance<P>, y: Distance<P>|
            acc.contains(x) && cands.contains(y) ==> x.key != y.key,
    ensures
        dist_keys_distinct(select_spec(cands, m, acc)),
    decreases cands.len(),
{
    if cands.len() == 0 || acc.len() >= m {
    } else {
        let e = cands[0];
        let c1 = cands.drop_first();
        assert(cands.contains(e));
        assert(dist_keys_distinct(c1)) by {
            assert forall|i: int, j: int| 0 <= i < j < c1.len() implies c1[i].key != c1[j].key by {
                assert(cands[i + 1].key != cands[j + 1].key);
            }
        }
        assert(forall|y: Distance<P>| c1.contains(y) ==> cands.contains(y)) by {
            assert forall|y: Distance<P>| c1.contains(y) implies cands.contains(y) by {
                let i = choose|i: int| 0 <= i < c1.len() && c1[i] == y;
                assert(cands[i + 1] == y);
            }
        }
        if diverse(e, acc) {
            let acc2 = acc.push(e);
            assert(dist_keys_distinct(acc2)) by {
                assert forall|i: int, j: int|
                    0 <= i < j < acc2.len() implies acc2[i].key != acc2[j].key by {
                    if j == acc.len() {
                        assert(acc2[j] == e);
                        assert(acc.contains(acc[i]));
                        assert(acc2[i] == acc[i]);
                    }
                }
            }
            assert forall|x: Distance<P>, y: Distance<P>|
                acc2.contains(x) && c1.contains(y) implies x.key != y.key by {
                let i = choose|i: int| 0 <= i < acc2.len() && acc2[i] == x;
                if i < acc.len() {
                    assert(acc.contains(acc[i]));
                    assert(acc[i] == x);
                } else {
                    assert(x == e);
                    let jy = choose|jy: int| 0 <= jy < c1.len() && c1[jy] == y;
                    assert(cands[jy + 1] == y);
                    assert(cands[0].key != cands[jy + 1].key);
                }
            }
            lemma_select_distinct(c1, m, acc2);
        } else {
            lemma_select_distinct(c1, m, acc);
        }
    }
}

/// A beam search seeded at an isolated entry point returns only the
/// entry point's record.
proof fn lemma_beam_isolated<T: Point>(g: SimpleGraph<T>, q: T, ef: int, ep: Idx)
    requires
        g.wf(),
        (ep as int) < g.spec_size(),
        ef >= 1,
        g.deg(ep as int) == 0,
    ensures
        beam_search(g, q, ef, ep) == seq![
            (g.spec_nodes()[ep as int].spec_distance(&q), ep as usize),
        ],
{
    let d0 = g.spec_nodes()[ep as int].spec_distance(&q);
    let r0 = (d0, ep as usize);
    let v0 = Set::empty().insert(ep as int);
    assert(v0.len() == 1) by {
        assert(v0.remove(ep as int) =~= Set::<int>::empty());
    }
    assert forall|x: Rec| #[trigger] seq![r0].contains(x) implies x == r0 by {
        let i = choose|i: int| 0 <= i < 1 && seq![r0][i] == x;
    }
    assert(st_ok(g, q, v0, seq![r0], seq![r0]));
    let nbrs = g.adj(ep as int);
    assert(nbrs.len() == 0);
    let c1 = seq![r0].drop_first();
    assert(c1.len() == 0);
    assert(process_nbrs(g, q, ef, v0, seq![r0], c1, nbrs, 0) == (v0, seq![r0], c1));
    assert(st_ok(g, q, v0, seq![r0], c1));
    assert(search_rec(g, q, ef, v0, seq![r0], c1) == seq![r0]);
    assert(seq![r0][0] == r0);
    assert(search_rec(g, q, ef, v0, seq![r0], seq![r0]) == seq![r0]);
}

/// Turn `(distance, key)` records into owned distance records carrying
/// the stored points.
#[verifier::loop_isolation(false)]
pub fn recs_to_dists<T: Point>(g: &SimpleGraph<T>, recs: &Vec<Rec>) -> (r: Vec<Distance<T>>)
    requires
        g.wf(),
        forall|x: Rec| #[trigger] recs@.contains(x) ==> (x.1 as int) < g.spec_size(),
    ensures
        r@.len() == recs@.len(),
        forall|i: int|
            0 <= i < recs@.len() ==> (#[trigger] r@[i]).distance == recs@[i].0 && r@[i].key
                == recs@[i].1 && r@[i].point == g.spec_nodes()[recs@[i].1 as int],
{
    let mut out: Vec<Distance<T>> = Vec::new();
    let n = recs.len();
    let mut i: usize = 0;
    while i < n
        invariant
            0 <= i <= n,
            out@.len() == i,
            forall|k: int|
                0 <= k < i ==> (#[trigger] out@[k]).distance == recs@[k].0 && out@[k].key
                    == recs@[k].1 && out@[k].point == g.spec_nodes()[recs@[k].1 as int],
        decreases n - i,
    {
        let d = recs[i].0;
        let key = recs[i].1;
        proof {
            assert(recs@[i as int] == (d, key));
            assert(recs@.contains((d, key)));
        }
        let p = g.get(key as u32).unwrap().clone_point();
        out.push(Distance::new(d, key, p));
        i += 1;
    }
    out
}

/// The beam records as owned distance records carrying the stored
/// points.
pub open spec fn dists_of<T: Point>(g: SimpleGraph<T>, s: Seq<Rec>) -> Seq<Distance<T>> {
    Seq::new(
        s.len(),
        |i: int|
            Distance { distance: s[i].0, key: s[i].1, point: g.spec_nodes()[s[i].1 as int] },
    )
}

/// The identifiers of a record sequence.
pub open spec fn keys_of<T: Point>(s: Seq<Distance<T>>) -> Seq<Idx> {
    Seq::new(s.len(), |i: int| s[i].key as Idx)
}

/// What SEARCH followed by SELECT-NEIGHBORS returns: the identifiers
/// of the diversity-pruned selection over the beam-search records.
pub open spec fn ssn_spec<T: Point>(g: SimpleGraph<T>, q: T, m: int, ef: int, ep: Idx) -> Seq<
    Idx,
> {
    keys_of(select_spec(dists_of(g, beam_search(g, q, ef, ep)), m, Seq::<Distance<T>>::empty()))
}

/// Search one layer, then prune the result to at most `m` diverse
/// neighbour identifiers (SEARCH then SELECT-NEIGHBORS).
///
/// The result is never empty, holds no duplicate, stays inside the
/// graph, and — when the entry point is isolated — is exactly the
/// entry point.
pub fn search_select_neighbors<T: Point>(
    g: &SimpleGraph<T>,
    q: &T,
    m: usize,
    ef: usize,
    ep: Idx,
    visited: &mut BitSet,
) -> (r: Vec<Idx>)
    requires
        g.wf(),
        m >= 1,
        ef >= 1,
        (ep as int) < g.spec_size(),
        old(visited)@ == Set::<int>::empty(),
        old(visited).spec_capacity() >= g.spec_size(),
    ensures
        r@ == ssn_spec(*g, *q, m as int, ef as int, ep),
        1 <= r@.len() <= m,
        forall|i: int| 0 <= i < r@.len() ==> ((#[trigger] r@[i]) as int) < g.spec_size(),
        r@.no_duplicates(),
        forall|i: int| 0 <= i < r@.len() ==> r@[i] == ep || g.deg((#[trigger] r@[i]) as int) > 0,
        g.deg(ep as int) == 0 ==> r@ == seq![ep],
        final(visited).spec_capacity() == old(visited).spec_capacity(),
{
    let ghost gg = *g;
    let ghost qq = *q;
    let recs = search_layer(g, q, ef, ep, visited);
    let dists = recs_to_dists(g, &recs);
    proof {
        assert(dist_keys_distinct(dists@)) by {
            assert forall|i: int, j: int|
                0 <= i < j < dists@.len() implies dists@[i].key != dists@[j].key by {
                assert(recs@[i].1 != recs@[j].1);
            }
        }
        lemma_select_distinct(dists@, m as int, Seq::<Distance<T>>::empty());
        assert(dists@ =~= dists_of(gg, recs@)) by {
            assert forall|i: int| 0 <= i < dists@.len() implies #[trigger] dists@[i] == dists_of(
                gg,
                recs@,
            )[i] by {
                assert(dists@[i].distance == recs@[i].0);
                assert(dists@[i].key == recs@[i].1);
                assert(dists@[i].point == gg.spec_nodes()[recs@[i].1 as int]);
            }
        }
    }
    let sel = select_neighbors(dists, m);
    let ghost ss = sel@;
    let mut out: Vec<Idx> = Vec::new();
    let n = sel.len();
    let mut i: usize = 0;
    #[verifier::loop_isolation(false)]
    while i < n
        invariant
            0 <= i <= n,
            out@.len() == i,
            forall|k: int| 0 <= k < i ==> (#[trigger] out@[k]) as usize == ss[k].key,
            forall|k: int| 0 <= k < i ==> ((#[trigger] out@[k]) as int) < gg.spec_size(),
            forall|k: int|
                0 <= k < i ==> out@[k] == ep || gg.deg((#[trigger] out@[k]) as int) > 0,
        decreases n - i,
    {
        let key = sel[i].key();
        proof {
            assert(ss[i as int] == sel@[i as int]);
            assert(ss.contains(ss[i as int]));
            let j = choose|j: int| 0 <= j < dists@.len() && dists@[j] == ss[i as int];
            assert(dists@[j].key == recs@[j].1);
            assert(recs@.contains(recs@[j]));
            assert((recs@[j].1 as int) < gg.spec_size());
            assert(recs@[j].1 == ep as usize || gg.deg(recs@[j].1 as int) > 0);
        }
        out.push(key as u32);
        i += 1;
    }
    proof {
        assert(out@ =~= keys_of(ss)) by {
            assert forall|k: int| 0 <= k < out@.len() implies #[trigger] out@[k] == keys_of(
                ss,
            )[k] by {
                assert((out@[k]) as usize == ss[k].key);
                assert(ss.contains(ss[k]));
                let j = choose|j: int| 0 <= j < dists@.len() && dists@[j] == ss[k];
                assert((dists@[j].key as int) < gg.spec_size());
            }
        }
        assert(out@ == ssn_spec(gg, qq, m as int, ef as int, ep));
        assert(out@.no_duplicates()) by {
            assert forall|a: int, b: int| 0 <= a < b < out@.len() implies out@[a] != out@[b] by {
                assert(ss[a].key != ss[b].key);
            }
        }
        if gg.deg(ep as int) == 0 {
            lemma_beam_isolated(gg, qq, ef as int, ep);
            let d0 = gg.spec_nodes()[ep as int].spec_distance(&qq);
            let r0 = (d0, ep as usize);
            assert(recs@ == seq![r0]);
            assert(recs@[0] == r0);
            let dd = dists@[0];
            assert(dd.distance == d0 && dd.key == ep as usize);
            assert(dists@ =~= seq![dd]);
            assert(diverse(dd, Seq::<Distance<T>>::empty()));
            assert(Seq::<Distance<T>>::empty().push(dd) =~= seq![dd]);
            assert(seq![dd].drop_first().len() == 0);
            assert(select_spec(seq![dd].drop_first(), m as int, seq![dd]) == seq![dd]);
            assert(select_spec(dists@, m as int, Seq::<Distance<T>>::empty()) == seq![dd]);
            assert(ss == seq![dd]);
            assert(out@[0] == ep);
            assert(out@ =~= seq![ep]);
        }
    }
    out
}

/// SELECT-NEIGHBORS returns at most `m` records, never more than the
/// candidates offered, and, when the candidates carry
/// pairwise-distinct keys, never a duplicate.
pub proof fn lemma_select_bound<P: Point>(cands: Seq<Distance<P>>, m: int)
    requires
        m >= 0,
    ensures
        select_spec(cands, m, Seq::<Distance<P>>::empty()).len() <= m,
        select_spec(cands, m, Seq::<Distance<P>>::empty()).len() <= cands.len(),
        dist_keys_distinct(cands) ==> dist_keys_distinct(
            select_spec(cands, m, Seq::<Distance<P>>::empty()),
        ),
{
    lemma_select_spec(cands, m, Seq::<Distance<P>>::empty());
    lemma_select_len_le_cands(cands, m, Seq::<Distance<P>>::empty());
    if dist_keys_distinct(cands) {
        lemma_select_distinct(cands, m, Seq::<Distance<P>>::empty());
    }
}

/// The selection accepts at most one record per candidate.
proof fn lemma_select_len_le_cands<P: Point>(cands: Seq<Distance<P>>, m: int, acc: Seq<Distance<P>>)
    ensures
        select_spec(cands, m, acc).len() <= acc.len() + cands.len(),
    decreases cands.len(),
{
    if cands.len() == 0 || acc.len() >= m {
    } else {
        let e = cands[0];
        let c1 = cands.drop_first();
        if diverse(e, acc) {
            lemma_select_len_le_cands(c1, m, acc.push(e));
        } else {
            lemma_select_len_le_cands(c1, m, acc);
        }
    }
}

/// With self-distance zero, the selection never accepts the same
/// point twice: a duplicate of an accepted record fails the diversity
/// test, a zero distance never exceeding a stored one.
pub proof fn lemma_select_no_duplicate_points<P: Point>(
    cands: Seq<Distance<P>>,
    m: int,
    acc: Seq<Distance<P>>,
)
    requires
        forall|p: P| #[trigger] p.spec_distance(&p) == 0,
        forall|i: int, j: int|
            0 <= i < j < acc.len() ==> (#[trigger] acc[i]).point != (#[trigger] acc[j]).point,
    ensures
        ({
            let r = select_spec(cands, m, acc);
            forall|i: int, j: int|
                0 <= i < j < r.len() ==> (#[trigger] r[i]).point != (#[trigger] r[j]).point
        }),
    decreases cands.len(),
{
    if cands.len() == 0 || acc.len() >= m {
        assert(select_spec(cands, m, acc) == acc);
    } else {
        let e = cands[0];
        let c1 = cands.drop_first();
        if diverse(e, acc) {
            let acc2 = acc.push(e);
            assert(select_spec(cands, m, acc) == select_spec(c1, m, acc2));
            assert forall|i: int, j: int|
                0 <= i < j < acc2.len() implies (#[trigger] acc2[i]).point != (
            #[trigger] acc2[j]).point by {
                if j == acc.len() {
                    assert(acc2[j] == e);
                    assert(acc2[i] == acc[i]);
                    assert(e.point.spec_distance(&acc[i].point) > e.distance);
                    if e.point == acc[i].point {
                        assert(e.point.spec_distance(&acc[i].point) == 0);
                    }
                }
            }
            lemma_select_no_duplicate_points(c1, m, acc2);
        } else {
            assert(select_spec(cands, m, acc) == select_spec(c1, m, acc));
            lemma_select_no_duplicate_points(c1, m, acc);
        }
    }
}

/// Sorted `(distance, key)` records for pruning: each listed node,
/// measured against the centre point.
#[verifier::loop_isolation(false)]
fn prune_candidates<T: Point>(g: &SimpleGraph<T>, center: &T, items: &Vec<Idx>) -> (r: Vec<
    Distance<T>,
>)
    requires
        g.wf(),
        forall|i: int| 0 <= i < items@.len() ==> ((#[trigger] items@[i]) as int) < g.spec_size(),
    ensures
        forall|i: int| 0 <= i < r@.len() ==> items@.contains((#[trigger] r@[i]).key as u32),
        forall|i: int| 0 <= i < r@.len() ==> ((#[trigger] r@[i]).key as int) < g.spec_size(),
{
    let mut h: MinMaxHeap<Rec> = heap_new();
    let n = items.len();
    let mut i: usize = 0;
    while i < n
        invariant
            0 <= i <= n,
            forall|x: Rec| #[trigger]
                heap_seq(h).contains(x) ==> items@.contains(x.1 as u32) && (x.1 as int)
                    < g.spec_size(),
        decreases n - i,
    {
        let idx = items[i];
        proof {
            assert(items@[i as int] == idx);
            assert(items@.contains(idx));
        }
        let v = g.get(idx).unwrap();
        let d = v.distance(center);
        let ghost h0 = heap_seq(h);
        heap_push(&mut h, (d, idx as usize));
        proof {
            assert forall|x: Rec| #[trigger] heap_seq(h).contains(x) implies items@.contains(
                x.1 as u32,
            ) && (x.1 as int) < g.spec_size() by {
                lemma_insert_sorted_contains(h0, (d, idx as usize), x);
            }
        }
        i += 1;
    }
    let recs = heap_drain_asc(&mut h);
    proof {
        assert forall|i: int|
            0 <= i < recs@.len() implies items@.contains(#[trigger] recs@[i].1 as u32) && ((
        recs@[i].1 as int) < g.spec_size()) by {
            assert(recs@.contains(recs@[i]));
        }
    }
    let dists = recs_to_dists_generic(g, &recs);
    proof {
        assert forall|i: int| 0 <= i < dists@.len() implies items@.contains(
            (#[trigger] dists@[i]).key as u32,
        ) && (((dists@[i]).key as int) < g.spec_size()) by {
            assert(dists@[i].key == recs@[i].1);
            assert(recs@.contains(recs@[i]));
        }
    }
    dists
}

/// Like `recs_to_dists`, usable when only key bounds are known.
#[verifier::loop_isolation(false)]
fn recs_to_dists_generic<T: Point>(g: &SimpleGraph<T>, recs: &Vec<Rec>) -> (r: Vec<Distance<T>>)
    requires
        g.wf(),
        forall|x: Rec| #[trigger] recs@.contains(x) ==> (x.1 as int) < g.spec_size(),
    ensures
        r@.len() == recs@.len(),
        forall|i: int|
            0 <= i < recs@.len() ==> (#[trigger] r@[i]).distance == recs@[i].0 && r@[i].key
                == recs@[i].1 && r@[i].point == g.spec_nodes()[recs@[i].1 as int],
{
    recs_to_dists(g, recs)
}

/// Connect a freshly searched point to its selected neighbours, then
/// prune any neighbour whose degree grew beyond `m_max` down to at most
/// `m_max - 1` diverse edges, pinning the new edge afterwards so the
/// pruned neighbour ends within the cap (INSERT-LAYER steps 3 and 4).
///
/// Afterwards every listed neighbour other than the point itself has
/// degree at most `m_max`; when the point is not among the listed
/// neighbours it is connected to each of them and its degree grew by at
/// most their number; every other node's degree did not grow.
#[verifier::loop_isolation(false)]
#[verifier::rlimit(60)]
#[verifier::spinoff_prover]
pub fn insert_neighbors<T: Point>(
    g: &mut SimpleGraph<T>,
    point_idx: Idx,
    neighbors: &Vec<Idx>,
    m_max: usize,
)
    requires
        old(g).wf(),
        old(g).valid(point_idx),
        m_max >= 2,
        neighbors@.no_duplicates(),
        forall|i: int| 0 <= i < neighbors@.len() ==> old(g).valid(#[trigger] neighbors@[i]),
    ensures
        final(g).wf(),
        final(g).spec_nodes() == old(g).spec_nodes(),
        final(g).spec_size() == old(g).spec_size(),
        forall|i: int|
            0 <= i < neighbors@.len() && neighbors@[i] != point_idx ==> final(g).deg(
                (#[trigger] neighbors@[i]) as int,
            ) <= m_max,
        !neighbors@.contains(point_idx) ==> final(g).deg(point_idx as int) <= old(g).deg(
            point_idx as int,
        ) + neighbors@.len(),
        neighbors@.contains(point_idx) ==> final(g).deg(point_idx as int) <= old(g).deg(
            point_idx as int,
        ) + 2 * neighbors@.len(),
        !neighbors@.contains(point_idx) ==> (forall|i: int|
            0 <= i < neighbors@.len() ==> final(g).has_edge(
                point_idx,
                #[trigger] neighbors@[i],
            )),
        forall|x: Idx|
            old(g).valid(x) && x != point_idx && !neighbors@.contains(x) ==> final(g).deg(x as int)
                <= old(g).deg(x as int),
{
    let ghost g0 = *g;
    let ghost nn = neighbors@;
    let q = point_idx;
    g.add_neighbors(q, neighbors);
    let ghost g1 = *g;
    let n = neighbors.len();
    let mut i: usize = 0;
    while i < n
        invariant
            0 <= i <= n,
            g.wf(),
            g.spec_nodes() == g0.spec_nodes(),
            g.spec_size() == g0.spec_size(),
            forall|k: int|
                0 <= k < i && nn[k] != q ==> g.deg((#[trigger] nn[k]) as int) <= m_max,
            forall|x: Idx|
                g0.valid(x) && x != q && !nn.contains(x) ==> g.deg(x as int) <= g1.deg(x as int),
            forall|k: int|
                i <= k < n && nn[k] != q ==> g.deg((#[trigger] nn[k]) as int) <= g1.deg(
                    nn[k] as int,
                ),
            !nn.contains(q) ==> g.deg(q as int) <= g1.deg(q as int),
            nn.contains(q) ==> g.deg(q as int) <= g1.deg(q as int) + i,
            !nn.contains(q) ==> (forall|k: int|
                0 <= k < n ==> g.has_edge(q, #[trigger] nn[k])),
        decreases n - i,
    {
        let e = neighbors[i];
        proof {
            assert(nn[i as int] == e);
            assert(nn.contains(e));
        }
        let ghost gpre = *g;
        let e_conn = g.neighborhood(e);
        if e_conn.len() > m_max {
            let e_elem = g.get(e).unwrap().clone_point();
            proof {
                assert forall|k: int|
                    0 <= k < e_conn@.len() implies ((#[trigger] e_conn@[k]) as int)
                        < gpre.spec_size() by {
                    assert(gpre.adj(e as int)[k] == e_conn@[k]);
                }
            }
            let cands = prune_candidates(g, &e_elem, &e_conn);
            let sel = select_neighbors(cands, m_max - 1);
            let ghost ss = sel@;
            let mut keys: Vec<Idx> = Vec::new();
            let sn = sel.len();
            let mut k: usize = 0;
            while k < sn
                invariant
                    0 <= k <= sn,
                    keys@.len() == k,
                    forall|a: int| 0 <= a < k ==> e_conn@.contains(#[trigger] keys@[a]),
                    forall|a: int|
                        0 <= a < k ==> ((#[trigger] keys@[a]) as int) < gpre.spec_size(),
                decreases sn - k,
            {
                let kk = sel[k].key();
                proof {
                    assert(ss[k as int] == sel@[k as int]);
                    assert(ss.contains(ss[k as int]));
                    let j = choose|j: int| 0 <= j < cands@.len() && cands@[j] == ss[k as int];
                }
                keys.push(kk as u32);
                k += 1;
            }
            g.clear_edges(e);
            let ghost gc = *g;
            g.add_neighbors(e, &keys);
            let ghost ga = *g;
            g.add_edge(q, e);
            proof {
                assert(keys@.len() <= m_max - 1);
                // e itself ends within the cap: the pin has room.
                assert(gc.deg(e as int) == 0);
                assert(ga.deg(e as int) <= m_max - 1);
                assert(g.deg(e as int) <= m_max);
                // Any node other than e and q did not grow this iteration.
                assert forall|x: Idx|
                    gpre.valid(x) && x != e && x != q implies g.deg(x as int) <= gpre.deg(
                        x as int,
                    ) by {
                    if keys@.contains(x) {
                        assert(e_conn@.contains(x));
                        assert(gpre.has_edge(e, x));
                        assert(gpre.has_edge(x, e));
                        assert(gc.deg(x as int) == gpre.deg(x as int) - 1);
                        assert(ga.deg(x as int) <= gc.deg(x as int) + 1);
                    } else {
                        assert(gc.deg(x as int) <= gpre.deg(x as int));
                        assert(ga.deg(x as int) <= gc.deg(x as int));
                    }
                    assert(g.deg(x as int) == ga.deg(x as int));
                }
                // The point's degree: never grows when it is not a
                // listed neighbour, and grows at most one per iteration
                // otherwise.
                if q != e {
                    if !nn.contains(q) {
                        assert(gpre.has_edge(q, e));
                        assert(gpre.has_edge(e, q));
                        assert(gc.deg(q as int) == gpre.deg(q as int) - 1);
                        if keys@.contains(q) {
                            assert(ga.deg(q as int) <= gc.deg(q as int) + 1);
                            assert(ga.has_edge(e, q) || !ga.has_edge(e, q));
                        } else {
                            assert(ga.deg(q as int) <= gc.deg(q as int));
                        }
                        assert(g.deg(q as int) <= ga.deg(q as int) + 1);
                        assert(g.deg(q as int) <= gpre.deg(q as int));
                    } else {
                        assert(gc.deg(q as int) <= gpre.deg(q as int));
                        assert(ga.deg(q as int) <= gc.deg(q as int) + 1);
                        assert(g.deg(q as int) <= gpre.deg(q as int) + 1) by {
                            if keys@.contains(q) {
                                assert(e_conn@.contains(q));
                                assert(gpre.has_edge(e, q));
                                assert(gpre.has_edge(q, e));
                                assert(gc.deg(q as int) == gpre.deg(q as int) - 1);
                            } else {
                                assert(ga.deg(q as int) <= gpre.deg(q as int));
                                assert(g.deg(q as int) <= ga.deg(q as int) + 1);
                            }
                        }
                    }
                }
                // Edges from the point to every listed neighbour stay.
                if !nn.contains(q) {
                    assert forall|kk2: int| 0 <= kk2 < n implies g.has_edge(
                        q,
                        #[trigger] nn[kk2],
                    ) by {
                        if nn[kk2] == e {
                            assert(g.has_edge(q, e));
                        } else {
                            assert(gpre.has_edge(q, nn[kk2]));
                            assert(q != e);
                            assert(gc.has_edge(q, nn[kk2])) by {
                                assert(nn[kk2] != e);
                            }
                            assert(ga.has_edge(q, nn[kk2]));
                            assert(g.has_edge(q, nn[kk2]));
                        }
                    }
                }
                // Processed neighbours and unprocessed ones: covered by
                // the non-growth fact, since they differ from e and q.
                assert forall|kk2: int|
                    0 <= kk2 < i && nn[kk2] != q implies g.deg((#[trigger] nn[kk2]) as int)
                        <= m_max by {
                    if nn[kk2] != e {
                        assert(g.deg(nn[kk2] as int) <= gpre.deg(nn[kk2] as int));
                    }
                }
            }
        } else {
            // Degree within bounds: leave e as it is.
            proof {
                assert(g.deg(e as int) <= m_max);
            }
        }
        i += 1;
    }
    proof {
        // Phase one growth bounds, folded into the entry state.
        assert(g1.deg(q as int) <= g0.deg(q as int) + nn.len());
        assert forall|x: Idx|
            g0.valid(x) && x != q && !nn.contains(x) implies g.deg(x as int) <= g0.deg(
                x as int,
            ) by {
            assert(g1.deg(x as int) <= g0.deg(x as int));
        }
        assert forall|k: int|
            0 <= k < n && nn[k] != q implies final(g).deg((#[trigger] nn[k]) as int)
                <= m_max by {
        }
    }
}

/// INSERT-LAYER: search from `ep` with beam `ef`, select up to `m`
/// diverse neighbours, connect the point to them, prune overfull
/// neighbours, and return the nearest selected neighbour — the entry
/// point for the next layer down.
///
/// The selection is pinned exactly: the neighbours are
/// [`ssn_spec`] of the pre-insert graph, the point's element and the
/// parameters, and the result is the first of them.  Unless the entry
/// point is the point itself, the point ends connected to every
/// selected neighbour, so its degree becomes positive.  Inserting a
/// fresh point into a graph whose degrees are bounded by `m_max`
/// keeps them so.
pub fn insert_idx<T: Point>(
    g: &mut SimpleGraph<T>,
    point_idx: Idx,
    m: usize,
    m_max: usize,
    ef: usize,
    ep: Idx,
    visited: &mut BitSet,
) -> (r: Idx)
    requires
        old(g).wf(),
        old(g).valid(point_idx),
        old(g).valid(ep),
        m >= 1,
        ef >= 1,
        m <= m_max,
        m_max >= 2,
        old(g).deg(point_idx as int) == 0,
        old(visited)@ == Set::<int>::empty(),
        old(visited).spec_capacity() >= old(g).spec_size(),
    ensures
        final(g).wf(),
        final(g).spec_nodes() == old(g).spec_nodes(),
        final(g).spec_size() == old(g).spec_size(),
        final(g).valid(r),
        ({
            let nbrs = ssn_spec(
                *old(g),
                old(g).spec_nodes()[point_idx as int],
                m as int,
                ef as int,
                ep,
            );
            &&& r == nbrs[0]
            &&& 1 <= nbrs.len() <= m
            &&& (ep != point_idx ==> !nbrs.contains(point_idx))
            &&& (ep != point_idx ==> forall|i: int|
                0 <= i < nbrs.len() ==> final(g).has_edge(point_idx, #[trigger] nbrs[i]))
        }),
        ep != point_idx ==> r != point_idx,
        ep != point_idx ==> final(g).deg(point_idx as int) >= 1,
        old(g).degrees_bounded(m_max as int) ==> final(g).degrees_bounded(m_max as int),
        final(visited).spec_capacity() == old(visited).spec_capacity(),
{
    let ghost gg = *old(g);
    let q_elem = g.get(point_idx).unwrap().clone_point();
    let neighbors = search_select_neighbors(g, &q_elem, m, ef, ep, visited);
    let ghost nn = neighbors@;
    proof {
        assert(nn == ssn_spec(gg, gg.spec_nodes()[point_idx as int], m as int, ef as int, ep));
        if ep != point_idx {
            assert(!nn.contains(point_idx)) by {
                if nn.contains(point_idx) {
                    let i = choose|i: int| 0 <= i < nn.len() && nn[i] == point_idx;
                    assert(nn[i] == ep || gg.deg(nn[i] as int) > 0);
                }
            }
        } else {
            assert(nn == seq![ep]);
        }
    }
    insert_neighbors(g, point_idx, &neighbors, m_max);
    let r = neighbors[0];
    proof {
        assert(nn[0] == r);
        if ep != point_idx {
            assert(nn.contains(nn[0]));
            assert(g.has_edge(point_idx, r));
            assert(g.deg(point_idx as int) >= 1) by {
                let j = choose|j: int|
                    0 <= j < g.adj(point_idx as int).len() && g.adj(point_idx as int)[j] == r;
            }
        }
        if gg.degrees_bounded(m_max as int) {
            assert forall|v: int| 0 <= v < g.spec_size() implies g.deg(v) <= m_max as int by {
                let vi = v as Idx;
                assert(gg.deg(v) <= m_max as int);
                if v == point_idx as int {
                    if nn.contains(point_idx) {
                        assert(nn.len() == 1);
                        assert(g.deg(v) <= gg.deg(v) + 2 * nn.len());
                    } else {
                        assert(g.deg(v) <= gg.deg(v) + nn.len());
                        assert(nn.len() <= m);
                    }
                } else if nn.contains(vi) {
                    let i = choose|i: int| 0 <= i < nn.len() && nn[i] == vi;
                    assert(nn[i] != point_idx);
                    assert(g.deg(nn[i] as int) <= m_max as int);
                } else {
                    assert(gg.valid(vi) && vi != point_idx && !nn.contains(vi));
                    assert(g.deg(v) <= gg.deg(v));
                }
            }
        }
    }
    r
}

/// Add a point to the graph and run INSERT-LAYER on it: the point is
/// appended under the next identifier and — the entry point being an
/// existing node — ends connected to its selected neighbourhood.
pub fn insert_point<T: Point>(
    g: &mut SimpleGraph<T>,
    point: T,
    m: usize,
    m_max: usize,
    ef: usize,
    ep: Idx,
    visited: &mut BitSet,
) -> (r: Idx)
    requires
        old(g).wf(),
        old(g).spec_size() < u32::MAX,
        old(g).valid(ep),
        m >= 1,
        ef >= 1,
        m <= m_max,
        m_max >= 2,
        old(visited)@ == Set::<int>::empty(),
        old(visited).spec_capacity() >= old(g).spec_size() + 1,
    ensures
        final(g).wf(),
        final(g).spec_nodes() == old(g).spec_nodes().push(point),
        final(g).spec_size() == old(g).spec_size() + 1,
        final(g).valid(r),
        (r as int) != old(g).spec_size(),
        final(g).deg(old(g).spec_size()) >= 1,
        final(g).has_edge((old(g).spec_size()) as Idx, r),
        old(g).degrees_bounded(m_max as int) ==> final(g).degrees_bounded(m_max as int),
        final(visited).spec_capacity() == old(visited).spec_capacity(),
{
    let ghost gg = *old(g);
    let point_idx = g.add(point);
    proof {
        if gg.degrees_bounded(m_max as int) {
            assert forall|v: int| 0 <= v < g.spec_size() implies g.deg(v) <= m_max as int by {
                if v < gg.spec_size() {
                    assert(g.adj(v) == gg.adj(v));
                    assert(gg.deg(v) <= m_max as int);
                } else {
                    assert(v == point_idx as int);
                    assert(g.adj(v).len() == 0);
                }
            }
        }
        assert(ep != point_idx);
    }
    let r = insert_idx(g, point_idx, m, m_max, ef, ep, visited);
    proof {
        assert(g.has_edge(point_idx, r));
    }
    r
}

} // verus!
