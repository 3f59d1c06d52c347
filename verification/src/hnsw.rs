//! The hierarchical navigable small-world index: a base layer plus a
//! stack of sparser upper layers, each node of an upper layer carrying
//! a `down` pointer to its twin one layer below.

use vstd::prelude::*;

use crate::nsw::beam_search;
use crate::nsw::insert_idx;
use crate::nsw::insert_neighbors;
use crate::nsw::search_layer;
use crate::nsw::search_select_neighbors;
use crate::nsw::Rec;
use crate::nsw_index::flat_search_recs;
use crate::nsw_index::search_flat;
use crate::nsw_index::NSWOptions;
use crate::point::Distance;
use crate::point::Point;
use crate::pool::VisitedPool;
use crate::simplegraph::Idx;
use crate::simplegraph::SimpleGraph;

verus! {

/// Structural soundness of a layer stack over a base: every layer is a
/// well-formed graph no larger than the layer below it, and every
/// upper-layer node holds the same point as its `down` twin one layer
/// below, with the `down` identifier in bounds there.
pub open spec fn layers_linked<P: Point>(
    layers: Seq<SimpleGraph<(P, Idx)>>,
    base: SimpleGraph<P>,
) -> bool {
    &&& base.wf()
    &&& forall|i: int| 0 <= i < layers.len() ==> (#[trigger] layers[i]).wf()
    &&& forall|i: int|
        0 <= i < layers.len() ==> (#[trigger] layers[i]).spec_size() <= (if i == 0 {
            base.spec_size()
        } else {
            layers[i - 1].spec_size()
        })
    &&& forall|i: int, v: int|
        0 <= i < layers.len() && 0 <= v < layers[i].spec_size() ==> {
            let down = (#[trigger] layers[i].spec_nodes()[v]).1 as int;
            &&& down < (if i == 0 {
                base.spec_size()
            } else {
                layers[i - 1].spec_size()
            })
            &&& layers[i].spec_nodes()[v].0 == (if i == 0 {
                base.spec_nodes()[down]
            } else {
                layers[i - 1].spec_nodes()[down].0
            })
        }
}

/// The full layered-graph invariant: linked layers, none of them
/// empty, and an entry point in the top layer exactly when the index
/// holds anything (layer containment).
pub open spec fn layered_wf<P: Point>(
    layers: Seq<SimpleGraph<(P, Idx)>>,
    base: SimpleGraph<P>,
    ep: Option<Idx>,
) -> bool {
    &&& layers_linked(layers, base)
    &&& forall|i: int| 0 <= i < layers.len() ==> (#[trigger] layers[i]).spec_size() >= 1
    &&& match ep {
        Some(e) => base.spec_size() > 0 && (e as int) < (if layers.len() > 0 {
            layers[layers.len() - 1].spec_size()
        } else {
            base.spec_size()
        }),
        None => base.spec_size() == 0 && layers.len() == 0,
    }
}

/// Every layer's degrees are bounded by `b`.
pub open spec fn layers_bounded<P: Point>(layers: Seq<SimpleGraph<(P, Idx)>>, b: int) -> bool {
    forall|i: int| 0 <= i < layers.len() ==> (#[trigger] layers[i]).degrees_bounded(b)
}

/// Descend the layer stack from layer `i` down to layer `stop`,
/// greedily: search each layer with a beam of one and follow the
/// nearest node's `down` pointer.  The result identifies a node of
/// layer `stop - 1`, or of the base when `stop` is zero.
pub open spec fn descend_to<P: Point>(
    layers: Seq<SimpleGraph<(P, Idx)>>,
    q: P,
    i: int,
    stop: int,
    ep: Idx,
) -> Idx
    decreases i - stop + 1,
{
    if i < stop || i >= layers.len() {
        ep
    } else {
        let r = beam_search(layers[i], (q, 0u32), 1, ep);
        let key = r[0].1 as Idx;
        let down = layers[i].spec_nodes()[key as int].1;
        descend_to(layers, q, i - 1, stop, down)
    }
}

/// What a hierarchical query returns: descend to the base entry point,
/// then run the flat top-k search there.
pub open spec fn hnsw_search_recs<P: Point>(
    layers: Seq<SimpleGraph<(P, Idx)>>,
    base: SimpleGraph<P>,
    ep: Option<Idx>,
    q: P,
    k: int,
    ef: int,
) -> Seq<Rec> {
    match ep {
        None => Seq::empty(),
        Some(e) => {
            let b = descend_to(layers, q, layers.len() - 1, 0, e);
            flat_search_recs(base, Some(b), q, k, ef)
        },
    }
}

/// Two layer stacks hold the same nodes and adjacency, layer for
/// layer.
pub open spec fn same_layers_views<P: Point>(
    ls1: Seq<SimpleGraph<(P, Idx)>>,
    ls2: Seq<SimpleGraph<(P, Idx)>>,
) -> bool {
    &&& ls1.len() == ls2.len()
    &&& forall|i: int|
        0 <= i < ls1.len() ==> crate::nsw::same_graph_views(#[trigger] ls1[i], ls2[i])
}

/// Equal views give equal descents.
proof fn lemma_descend_cong<P: Point>(
    ls1: Seq<SimpleGraph<(P, Idx)>>,
    ls2: Seq<SimpleGraph<(P, Idx)>>,
    q: P,
    i: int,
    stop: int,
    ep: Idx,
)
    requires
        same_layers_views(ls1, ls2),
        forall|l: int| 0 <= l < ls1.len() ==> (#[trigger] ls1[l]).wf(),
        forall|l: int, v: int|
            1 <= l < ls1.len() && 0 <= v < ls1[l].spec_size() ==> ((
            #[trigger] ls1[l].spec_nodes()[v]).1 as int) < ls1[l - 1].spec_size(),
        0 <= stop,
        0 <= i < ls1.len() ==> (ep as int) < ls1[i].spec_size(),
    ensures
        descend_to(ls1, q, i, stop, ep) == descend_to(ls2, q, i, stop, ep),
    decreases i - stop + 1,
{
    if i < stop || i >= ls1.len() {
    } else {
        crate::nsw::lemma_beam_search_cong(ls1[i], ls2[i], (q, 0u32), 1, ep);
        crate::nsw::lemma_beam_search_props(ls1[i], (q, 0u32), 1, ep);
        let r = beam_search(ls1[i], (q, 0u32), 1, ep);
        assert(r.contains(r[0]));
        assert((r[0].1 as int) < ls1[i].spec_size());
        let key = r[0].1 as Idx;
        let down = ls1[i].spec_nodes()[key as int].1;
        assert(ls2[i].spec_nodes() == ls1[i].spec_nodes());
        if i >= 1 {
            assert((down as int) < ls1[i - 1].spec_size());
        }
        lemma_descend_cong(ls1, ls2, q, i - 1, stop, down);
    }
}

/// A descent to the bottom lands on a base identifier.
proof fn lemma_descend_valid<P: Point>(
    ls: Seq<SimpleGraph<(P, Idx)>>,
    b: SimpleGraph<P>,
    q: P,
    i: int,
    ep: Idx,
)
    requires
        forall|l: int| 0 <= l < ls.len() ==> (#[trigger] ls[l]).wf(),
        forall|l: int, v: int|
            0 <= l < ls.len() && 0 <= v < ls[l].spec_size() ==> ((
            #[trigger] ls[l].spec_nodes()[v]).1 as int) < (if l == 0 {
                b.spec_size()
            } else {
                ls[l - 1].spec_size()
            }),
        i < ls.len(),
        0 <= i ==> (ep as int) < ls[i].spec_size(),
        i < 0 ==> (ep as int) < b.spec_size(),
    ensures
        (descend_to(ls, q, i, 0, ep) as int) < b.spec_size(),
    decreases i + 1,
{
    if i < 0 {
    } else {
        crate::nsw::lemma_beam_search_props(ls[i], (q, 0u32), 1, ep);
        let r = beam_search(ls[i], (q, 0u32), 1, ep);
        assert(r.contains(r[0]));
        assert((r[0].1 as int) < ls[i].spec_size());
        let key = r[0].1 as Idx;
        let down = ls[i].spec_nodes()[key as int].1;
        lemma_descend_valid(ls, b, q, i - 1, down);
    }
}

/// Equal views give equal hierarchical query results.
pub proof fn lemma_hnsw_search_cong<P: Point>(
    ls1: Seq<SimpleGraph<(P, Idx)>>,
    b1: SimpleGraph<P>,
    ls2: Seq<SimpleGraph<(P, Idx)>>,
    b2: SimpleGraph<P>,
    ep: Option<Idx>,
    q: P,
    k: int,
    ef: int,
)
    requires
        same_layers_views(ls1, ls2),
        crate::nsw::same_graph_views(b1, b2),
        layered_wf(ls1, b1, ep),
    ensures
        hnsw_search_recs(ls1, b1, ep, q, k, ef) == hnsw_search_recs(ls2, b2, ep, q, k, ef),
{
    match ep {
        None => {},
        Some(e) => {
            lemma_descend_cong(ls1, ls2, q, ls1.len() - 1, 0, e);
            lemma_descend_valid(ls1, b1, q, ls1.len() - 1, e);
            let base_ep = descend_to(ls1, q, ls1.len() - 1, 0, e);
            crate::nsw_index::lemma_flat_search_cong(b1, b2, Some(base_ep), q, k, ef);
        },
    }
}

/// Greedy descent over a layer prefix, executable side.
#[verifier::loop_isolation(false)]
#[verifier::rlimit(60)]
fn descend_layers<P: Point>(
    layers: &Vec<SimpleGraph<(P, Idx)>>,
    q: &P,
    stop: usize,
    ep: Idx,
    Ghost(base_size): Ghost<int>,
) -> (r: Idx)
    requires
        ({
            let ls = layers@;
            &&& forall|i: int| 0 <= i < ls.len() ==> (#[trigger] ls[i]).wf()
            &&& forall|i: int|
                0 <= i < ls.len() ==> (#[trigger] ls[i]).spec_size() <= (if i == 0 {
                    base_size
                } else {
                    ls[i - 1].spec_size()
                })
            &&& forall|i: int, v: int|
                0 <= i < ls.len() && 0 <= v < ls[i].spec_size() ==> ((
                #[trigger] ls[i].spec_nodes()[v]).1 as int) < (if i == 0 {
                    base_size
                } else {
                    ls[i - 1].spec_size()
                })
            &&& stop <= ls.len()
            &&& (stop < ls.len() ==> (ep as int) < ls[ls.len() - 1].spec_size())
            &&& base_size <= 0xffff_ffff
        }),
    ensures
        r == descend_to(layers@, *q, layers@.len() - 1, stop as int, ep),
        stop == layers@.len() ==> r == ep,
        stop < layers@.len() ==> (r as int) < (if stop == 0 {
            base_size
        } else {
            layers@[stop as int - 1].spec_size()
        }),
        stop < layers@.len() ==> exists|v: int|
            0 <= v < layers@[stop as int].spec_size() && r == (
            #[trigger] layers@[stop as int].spec_nodes()[v]).1,
{
    let ghost ls = layers@;
    let ghost target = descend_to(ls, *q, ls.len() - 1, stop as int, ep);
    let mut ep_cur = ep;
    let mut li = layers.len();
    while li > stop
        invariant
            stop <= li <= ls.len(),
            li == ls.len() ==> ep_cur == ep,
            stop < ls.len() && 0 < li < ls.len() ==> (ep_cur as int) < ls[li - 1].spec_size(),
            stop < ls.len() && li == 0 ==> (ep_cur as int) < base_size,
            li < ls.len() ==> exists|v: int|
                0 <= v < ls[li as int].spec_size() && ep_cur == (
                #[trigger] ls[li as int].spec_nodes()[v]).1,
            descend_to(ls, *q, li - 1, stop as int, ep_cur) == target,
        decreases li,
    {
        li -= 1;
        proof {
            assert((ep_cur as int) < ls[li as int].spec_size());
        }
        let layer = &layers[li];
        let q2 = (q.clone_point(), 0u32);
        let n = layer.size();
        let mut visited = crate::bitset::BitSet::new(n);
        let recs = search_layer(layer, &q2, 1, ep_cur, &mut visited);
        proof {
            assert(recs@ == beam_search(ls[li as int], (*q, 0u32), 1, ep_cur));
            assert(recs@.contains(recs@[0]));
        }
        let key = recs[0].1 as u32;
        let node = layer.get(key).unwrap();
        ep_cur = node.1;
        proof {
            assert((ep_cur as int) < (if li == 0 {
                base_size
            } else {
                ls[li - 1].spec_size()
            }));
            assert(0 <= (key as int) && (key as int) < ls[li as int].spec_size() && ep_cur
                == ls[li as int].spec_nodes()[key as int].1);
        }
    }
    ep_cur
}

/// Appending empty layers on top keeps the stack linked.
proof fn lemma_grow_linked<P: Point>(
    ls: Seq<SimpleGraph<(P, Idx)>>,
    grown: Seq<SimpleGraph<(P, Idx)>>,
    b: SimpleGraph<P>,
)
    requires
        layers_linked(ls, b),
        grown.len() >= ls.len(),
        forall|i: int| 0 <= i < ls.len() ==> #[trigger] grown[i] == ls[i],
        forall|i: int|
            ls.len() <= i < grown.len() ==> (#[trigger] grown[i]).wf() && grown[i].spec_size()
                == 0,
    ensures
        layers_linked(grown, b),
{
    assert forall|i: int, v: int|
        0 <= i < grown.len() && 0 <= v < grown[i].spec_size() implies {
        let down = (#[trigger] grown[i].spec_nodes()[v]).1 as int;
        &&& down < (if i == 0 {
            b.spec_size()
        } else {
            grown[i - 1].spec_size()
        })
        &&& grown[i].spec_nodes()[v].0 == (if i == 0 {
            b.spec_nodes()[down]
        } else {
            grown[i - 1].spec_nodes()[down].0
        })
    } by {
        assert(i < ls.len());
        assert(grown[i] == ls[i]);
        if i > 0 {
            assert(grown[i - 1] == ls[i - 1]);
        }
    }
}

/// Appending one point to the base and, with its chain of `down`
/// pointers, to the bottom `level` layers keeps the stack linked.
proof fn lemma_append_linked<P: Point>(
    grown: Seq<SimpleGraph<(P, Idx)>>,
    old_base: SimpleGraph<P>,
    new_layers: Seq<SimpleGraph<(P, Idx)>>,
    new_base: SimpleGraph<P>,
    point: P,
    base_idx: Idx,
    idxs: Seq<Idx>,
    level: int,
)
    requires
        layers_linked(grown, old_base),
        new_base.wf(),
        new_base.spec_nodes() == old_base.spec_nodes().push(point),
        base_idx as int == old_base.spec_size(),
        new_layers.len() == grown.len(),
        0 <= level <= grown.len(),
        idxs.len() == level,
        forall|i: int| 0 <= i < new_layers.len() ==> (#[trigger] new_layers[i]).wf(),
        forall|i: int| 0 <= i < level ==> (#[trigger] idxs[i]) as int == grown[i].spec_size(),
        forall|i: int|
            0 <= i < level ==> #[trigger] new_layers[i].spec_nodes()
                == grown[i].spec_nodes().push(
                (
                    point,
                    if i == 0 {
                        base_idx
                    } else {
                        idxs[i - 1]
                    },
                ),
            ),
        forall|i: int| level <= i < new_layers.len() ==> #[trigger] new_layers[i] == grown[i],
    ensures
        layers_linked(new_layers, new_base),
{
    assert forall|i: int|
        0 <= i < new_layers.len() implies (#[trigger] new_layers[i]).spec_size() <= (if i == 0 {
        new_base.spec_size()
    } else {
        new_layers[i - 1].spec_size()
    }) by {
        if i < level {
            assert(new_layers[i].spec_nodes() == grown[i].spec_nodes().push(
                (
                    point,
                    if i == 0 {
                        base_idx
                    } else {
                        idxs[i - 1]
                    },
                ),
            ));
            assert(new_layers[i].spec_size() == grown[i].spec_size() + 1);
            if i == 0 {
                assert(grown[0].spec_size() <= old_base.spec_size());
            } else {
                assert(new_layers[i - 1].spec_nodes() == grown[i - 1].spec_nodes().push(
                    (
                        point,
                        if i - 1 == 0 {
                            base_idx
                        } else {
                            idxs[i - 2]
                        },
                    ),
                ));
                assert(new_layers[i - 1].spec_size() == grown[i - 1].spec_size() + 1);
                assert(grown[i].spec_size() <= grown[i - 1].spec_size());
            }
        } else {
            assert(new_layers[i] == grown[i]);
            if i == 0 {
                assert(grown[0].spec_size() <= old_base.spec_size());
            } else {
                assert(grown[i].spec_size() <= grown[i - 1].spec_size());
                if i - 1 < level {
                    assert(new_layers[i - 1].spec_nodes() == grown[i - 1].spec_nodes().push(
                        (
                            point,
                            if i - 1 == 0 {
                                base_idx
                            } else {
                                idxs[i - 2]
                            },
                        ),
                    ));
                    assert(new_layers[i - 1].spec_size() == grown[i - 1].spec_size() + 1);
                } else {
                    assert(new_layers[i - 1] == grown[i - 1]);
                }
            }
        }
    }
    assert forall|i: int, v: int|
        0 <= i < new_layers.len() && 0 <= v < new_layers[i].spec_size() implies {
        let down = (#[trigger] new_layers[i].spec_nodes()[v]).1 as int;
        &&& down < (if i == 0 {
            new_base.spec_size()
        } else {
            new_layers[i - 1].spec_size()
        })
        &&& new_layers[i].spec_nodes()[v].0 == (if i == 0 {
            new_base.spec_nodes()[down]
        } else {
            new_layers[i - 1].spec_nodes()[down].0
        })
    } by {
        if i < level {
            assert(new_layers[i].spec_nodes() == grown[i].spec_nodes().push(
                (
                    point,
                    if i == 0 {
                        base_idx
                    } else {
                        idxs[i - 1]
                    },
                ),
            ));
            if v == grown[i].spec_size() {
                // the new node
                if i == 0 {
                    assert(new_base.spec_nodes()[base_idx as int] == point);
                } else {
                    assert(new_layers[i - 1].spec_nodes() == grown[i - 1].spec_nodes().push(
                        (
                            point,
                            if i - 1 == 0 {
                                base_idx
                            } else {
                                idxs[i - 2]
                            },
                        ),
                    ));
                    assert((idxs[i - 1] as int) == grown[i - 1].spec_size());
                    assert(new_layers[i - 1].spec_nodes()[idxs[i - 1] as int].0 == point);
                }
            } else {
                // an old node keeps its old link
                assert(new_layers[i].spec_nodes()[v] == grown[i].spec_nodes()[v]);
                let down = (grown[i].spec_nodes()[v]).1 as int;
                if i == 0 {
                    assert(down < old_base.spec_size());
                    assert(new_base.spec_nodes()[down] == old_base.spec_nodes()[down]);
                } else {
                    assert(down < grown[i - 1].spec_size());
                    if i - 1 < level {
                        assert(new_layers[i - 1].spec_nodes() == grown[i
                            - 1].spec_nodes().push(
                            (
                                point,
                                if i - 1 == 0 {
                                    base_idx
                                } else {
                                    idxs[i - 2]
                                },
                            ),
                        ));
                        assert(new_layers[i - 1].spec_nodes()[down] == grown[i
                            - 1].spec_nodes()[down]);
                    } else {
                        assert(new_layers[i - 1] == grown[i - 1]);
                    }
                }
            }
        } else {
            assert(new_layers[i] == grown[i]);
            let down = (grown[i].spec_nodes()[v]).1 as int;
            if i == 0 {
                assert(down < old_base.spec_size());
                assert(new_base.spec_nodes()[down] == old_base.spec_nodes()[down]);
            } else {
                if i - 1 < level {
                    assert(new_layers[i - 1].spec_nodes() == grown[i - 1].spec_nodes().push(
                        (
                            point,
                            if i - 1 == 0 {
                                base_idx
                            } else {
                                idxs[i - 2]
                            },
                        ),
                    ));
                    assert(new_layers[i - 1].spec_nodes()[down] == grown[i
                        - 1].spec_nodes()[down]);
                } else {
                    assert(new_layers[i - 1] == grown[i - 1]);
                }
            }
        }
    }
}

/// In a linked stack every layer is no larger than the base.
proof fn lemma_layer_size_le_base<P: Point>(
    ls: Seq<SimpleGraph<(P, Idx)>>,
    b: SimpleGraph<P>,
    i: int,
)
    requires
        layers_linked(ls, b),
        0 <= i < ls.len(),
    ensures
        ls[i].spec_size() <= b.spec_size(),
    decreases i,
{
    if i > 0 {
        lemma_layer_size_le_base(ls, b, i - 1);
    }
}

/// Layer and base mutations that keep every node sequence keep the
/// stack linked.
proof fn lemma_nodes_preserved_linked<P: Point>(
    ls0: Seq<SimpleGraph<(P, Idx)>>,
    b0: SimpleGraph<P>,
    ls1: Seq<SimpleGraph<(P, Idx)>>,
    b1: SimpleGraph<P>,
)
    requires
        layers_linked(ls0, b0),
        b1.wf(),
        b1.spec_nodes() == b0.spec_nodes(),
        ls1.len() == ls0.len(),
        forall|i: int|
            0 <= i < ls1.len() ==> (#[trigger] ls1[i]).spec_nodes() == ls0[i].spec_nodes(),
        forall|i: int| 0 <= i < ls1.len() ==> (#[trigger] ls1[i]).wf(),
    ensures
        layers_linked(ls1, b1),
{
    assert forall|i: int, v: int|
        0 <= i < ls1.len() && 0 <= v < ls1[i].spec_size() implies {
        let down = (#[trigger] ls1[i].spec_nodes()[v]).1 as int;
        &&& down < (if i == 0 {
            b1.spec_size()
        } else {
            ls1[i - 1].spec_size()
        })
        &&& ls1[i].spec_nodes()[v].0 == (if i == 0 {
            b1.spec_nodes()[down]
        } else {
            ls1[i - 1].spec_nodes()[down].0
        })
    } by {
        assert(ls1[i].spec_nodes() == ls0[i].spec_nodes());
        if i > 0 {
            assert(ls1[i - 1].spec_nodes() == ls0[i - 1].spec_nodes());
        }
    }
}

/// The recorded pre-chunk layer sizes decrease going up: each layer
/// held no more nodes than the layer below it, and none more than the
/// base.
pub open spec fn layers_linked_sizes(
    lsizes0: Seq<int>,
    size0: int,
    level: int,
    nlayers: int,
) -> bool {
    &&& lsizes0.len() == nlayers
    &&& forall|l: int|
        0 <= l < nlayers ==> #[trigger] lsizes0[l] <= (if l == 0 {
            size0
        } else {
            lsizes0[l - 1]
        })
}

/// Within linked pre-chunk sizes, a lower layer holds at least as many
/// nodes as any layer above it.
proof fn lemma_lsizes_monotone(
    lsizes0: Seq<int>,
    size0: int,
    level: int,
    nlayers: int,
    lo: int,
    hi: int,
)
    requires
        layers_linked_sizes(lsizes0, size0, level, nlayers),
        0 <= lo <= hi < nlayers,
    ensures
        lsizes0[hi] <= lsizes0[lo],
    decreases hi - lo,
{
    if lo < hi {
        lemma_lsizes_monotone(lsizes0, size0, level, nlayers, lo + 1, hi);
    }
}

/// Elementwise agreement with a prefix and an appended block makes the
/// whole sequence their concatenation.
proof fn lemma_nodes_concat<T>(pre: Seq<T>, block: Seq<T>, post: Seq<T>)
    requires
        post.len() == pre.len() + block.len(),
        forall|v: int| 0 <= v < pre.len() ==> post[v] == pre[v],
        forall|a: int| 0 <= a < block.len() ==> post[pre.len() + a] == #[trigger] block[a],
    ensures
        post == pre + block,
{
    assert(post =~= pre + block);
}

/// The node sequence layer `l` holds, or empty where the stack is
/// shorter.
pub open spec fn layer_nodes_or_empty<P: Point>(
    ls: Seq<SimpleGraph<(P, Idx)>>,
    l: int,
) -> Seq<(P, Idx)> {
    if 0 <= l < ls.len() {
        ls[l].spec_nodes()
    } else {
        Seq::empty()
    }
}

/// What one insertion at `lvl` leaves behind, beyond the builder
/// invariant: the base got the point under the next identifier; the
/// stack reaches at least `lvl`; the point's copies stand at the end
/// of layers `0 .. lvl`, each linked by its `down` pointer to the copy
/// one layer below (the base copy at the bottom); and every other
/// layer keeps its nodes.
pub open spec fn added_at_level<P: Point>(
    pre_layers: Seq<SimpleGraph<(P, Idx)>>,
    pre_base: SimpleGraph<P>,
    post_layers: Seq<SimpleGraph<(P, Idx)>>,
    post_base: SimpleGraph<P>,
    point: P,
    lvl: int,
) -> bool {
    &&& post_base.spec_nodes() == pre_base.spec_nodes().push(point)
    &&& post_layers.len() == (if pre_layers.len() >= lvl {
        pre_layers.len() as int
    } else {
        lvl
    })
    &&& forall|l: int|
        0 <= l < lvl ==> (#[trigger] post_layers[l]).spec_nodes() == layer_nodes_or_empty(
            pre_layers,
            l,
        ).push(
            (
                point,
                (if l == 0 {
                    pre_base.spec_nodes().len() as int
                } else {
                    layer_nodes_or_empty(pre_layers, l - 1).len() as int
                }) as Idx,
            ),
        )
    &&& forall|l: int|
        lvl <= l < post_layers.len() ==> (#[trigger] post_layers[l]).spec_nodes()
            == layer_nodes_or_empty(pre_layers, l)
}

/// Builds an HNSW graph by layered insertion.
pub struct HNSWBuilder<P> {
    layers: Vec<SimpleGraph<(P, Idx)>>,
    base: SimpleGraph<P>,
    ep: Option<Idx>,
    ef_construction: usize,
    connections: usize,
    max_connections: usize,
    pool: VisitedPool,
}

impl<P: Point> HNSWBuilder<P> {
    pub closed spec fn spec_layers(&self) -> Seq<SimpleGraph<(P, Idx)>> {
        self.layers@
    }

    pub closed spec fn spec_base(&self) -> SimpleGraph<P> {
        self.base
    }

    pub closed spec fn spec_ep(&self) -> Option<Idx> {
        self.ep
    }

    pub closed spec fn spec_size(&self) -> int {
        self.base.spec_size()
    }

    pub closed spec fn spec_max_connections(&self) -> int {
        self.max_connections as int
    }

    /// The builder invariant: the layered-graph invariant plus bounded
    /// degrees everywhere and valid parameters.
    pub closed spec fn wf(&self) -> bool {
        &&& layered_wf(self.layers@, self.base, self.ep)
        &&& self.base.degrees_bounded(self.max_connections as int)
        &&& layers_bounded(self.layers@, self.max_connections as int)
        &&& self.ef_construction >= 1
        &&& 2 <= self.connections <= self.max_connections
    }

    pub fn new(options: NSWOptions) -> (r: Self)
        requires
            options.valid(),
        ensures
            r.wf(),
            r.spec_size() == 0,
            r.spec_max_connections() == options.max_connections,
    {
        HNSWBuilder {
            layers: Vec::new(),
            base: SimpleGraph::new(),
            ep: None,
            ef_construction: options.ef_construction,
            connections: options.connections,
            max_connections: options.max_connections,
            pool: VisitedPool::new(4, options.size),
        }
    }

    pub fn size(&self) -> (r: usize)
        ensures
            r == self.spec_size(),
    {
        self.base.size()
    }

    /// Insert one point at a drawn level (the per-insert sequence).
    /// Whatever level came out of the draw, the insertion's footprint
    /// is that of [`added_at_level`] for some level, and a point drawn
    /// to the bottom level ends connected in the base.
    pub fn add(&mut self, point: P)
        requires
            old(self).wf(),
            old(self).spec_size() < 0xffff_ffff,
        ensures
            final(self).wf(),
            final(self).spec_size() == old(self).spec_size() + 1,
            final(self).spec_base().spec_nodes() == old(self).spec_base().spec_nodes().push(point),
            exists|lvl: int|
                0 <= lvl <= 64 && #[trigger] added_at_level(
                    old(self).spec_layers(),
                    old(self).spec_base(),
                    final(self).spec_layers(),
                    final(self).spec_base(),
                    point,
                    lvl,
                ),
            final(self).spec_max_connections() == old(self).spec_max_connections(),
    {
        let level = random_level(self.connections);
        self.add_at_level(point, level);
        proof {
            let lvl = if old(self).spec_ep() is Some {
                level as int
            } else {
                0
            };
            assert(added_at_level(
                old(self).spec_layers(),
                old(self).spec_base(),
                self.spec_layers(),
                self.spec_base(),
                point,
                lvl,
            ));
        }
    }

    /// Insert every point, one after the other, each at its own drawn
    /// level.  The points are appended to the base in order.
    #[verifier::loop_isolation(false)]
    pub fn extend(&mut self, points: Vec<P>)
        requires
            old(self).wf(),
            old(self).spec_size() + points@.len() <= 0xffff_ffff,
        ensures
            final(self).wf(),
            final(self).spec_size() == old(self).spec_size() + points@.len(),
            final(self).spec_base().spec_nodes() == old(self).spec_base().spec_nodes()
                + points@,
            final(self).spec_max_connections() == old(self).spec_max_connections(),
    {
        let ghost ps = points@;
        let mut pts = points;
        while pts.len() > 0
            invariant
                self.wf(),
                self.spec_size() + pts@.len() <= 0xffff_ffff,
                self.spec_size() + pts@.len() == old(self).spec_size() + points@.len(),
                self.spec_base().spec_nodes() + pts@ == old(self).spec_base().spec_nodes() + ps,
                self.spec_max_connections() == old(self).spec_max_connections(),
            decreases pts@.len(),
        {
            let ghost pre = pts@;
            let ghost acc = self.spec_base().spec_nodes();
            let p = pts.remove(0);
            proof {
                assert(pts@ =~= pre.drop_first());
            }
            self.add(p);
            proof {
                assert(self.spec_base().spec_nodes() + pts@ =~= acc + pre);
            }
        }
        proof {
            assert(final(self).spec_base().spec_nodes() =~= final(self).spec_base().spec_nodes()
                + pts@);
        }
    }

    /// Grow the layer stack with empty layers until it has `level` of
    /// them.
    #[verifier::loop_isolation(false)]
    fn grow_stack(&mut self, level: usize) -> (grew: bool)
        requires
            level <= 64,
        ensures
            final(self).layers@.len() == (if old(self).layers@.len() >= level {
                old(self).layers@.len() as int
            } else {
                level as int
            }),
            forall|i: int|
                0 <= i < old(self).layers@.len() ==> #[trigger] final(self).layers@[i] == old(self).layers@[i],
            forall|i: int|
                old(self).layers@.len() <= i < final(self).layers@.len() ==> (#[trigger] final(self).layers@[i]).wf() && final(self).layers@[i].spec_size() == 0,
            final(self).base == old(self).base,
            final(self).ep == old(self).ep,
            final(self).ef_construction == old(self).ef_construction,
            final(self).connections == old(self).connections,
            final(self).max_connections == old(self).max_connections,
            grew == (final(self).layers@.len() > old(self).layers@.len()),
    {
        let ghost n0 = self.layers@.len() as int;
        let mut grew = false;
        while self.layers.len() < level
            invariant
                n0 <= self.layers@.len(),
                self.layers@.len() <= (if n0 >= level {
                    n0
                } else {
                    level as int
                }),
                forall|i: int| 0 <= i < n0 ==> #[trigger] self.layers@[i] == old(self).layers@[i],
                forall|i: int|
                    n0 <= i < self.layers@.len() ==> (#[trigger] self.layers@[i]).wf()
                        && self.layers@[i].spec_size() == 0,
                self.base == old(self).base,
                self.ep == old(self).ep,
                self.ef_construction == old(self).ef_construction,
                self.connections == old(self).connections,
                self.max_connections == old(self).max_connections,
                grew == (self.layers@.len() > n0),
            decreases level - self.layers@.len(),
        {
            self.layers.push(SimpleGraph::new());
            grew = true;
        }
        grew
    }

    /// Append the point to layers `0 .. level`, each copy linked to its
    /// twin one layer down; the copies get no edges yet.
    #[verifier::loop_isolation(false)]
    #[verifier::rlimit(60)]
    fn append_chain(&mut self, point: &P, base_idx: Idx, level: usize) -> (idxs: Vec<Idx>)
        requires
            level <= old(self).layers@.len(),
            forall|i: int|
                0 <= i < level ==> (#[trigger] old(self).layers@[i]).wf() && old(self).layers@[i].spec_size() < 0xffff_ffff && old(self).layers@[i].degrees_bounded(
                    old(self).max_connections as int,
                ),
        ensures
            final(self).layers@.len() == old(self).layers@.len(),
            final(self).base == old(self).base,
            final(self).ep == old(self).ep,
            final(self).ef_construction == old(self).ef_construction,
            final(self).connections == old(self).connections,
            final(self).max_connections == old(self).max_connections,
            idxs@.len() == level,
            forall|i: int|
                level <= i < final(self).layers@.len() ==> #[trigger] final(self).layers@[i]
                    == old(self).layers@[i],
            forall|i: int|
                0 <= i < level ==> (#[trigger] final(self).layers@[i]).wf() && final(self).layers@[i].degrees_bounded(old(self).max_connections as int),
            forall|i: int|
                0 <= i < level ==> (#[trigger] final(self).layers@[i]).spec_size() == old(self).layers@[i].spec_size() + 1,
            forall|i: int|
                0 <= i < level ==> (#[trigger] idxs@[i]) as int == old(self).layers@[i].spec_size(),
            forall|i: int|
                0 <= i < level ==> final(self).layers@[i].deg((#[trigger] idxs@[i]) as int) == 0,
            forall|i: int|
                0 <= i < level ==> #[trigger] final(self).layers@[i].spec_nodes() == old(self).layers@[i].spec_nodes().push(
                    (
                        *point,
                        if i == 0 {
                            base_idx
                        } else {
                            idxs@[i - 1]
                        },
                    ),
                ),
            forall|i: int, v: int|
                0 <= i < level && 0 <= v < old(self).layers@[i].spec_size() ==> #[trigger] final(
                self).layers@[i].adj(v) == old(self).layers@[i].adj(v),
    {
        let ghost mc = self.max_connections;
        let mut idxs: Vec<Idx> = Vec::new();
        let mut prev: Idx = base_idx;
        let mut l: usize = 0;
        while l < level
            invariant
                0 <= l <= level,
                level <= self.layers@.len(),
                self.layers@.len() == old(self).layers@.len(),
                idxs@.len() == l,
                self.base == old(self).base,
                self.ep == old(self).ep,
                self.ef_construction == old(self).ef_construction,
                self.connections == old(self).connections,
                self.max_connections == old(self).max_connections,
                forall|i: int|
                    l <= i < self.layers@.len() ==> #[trigger] self.layers@[i] == old(self).layers@[i],
                forall|i: int|
                    0 <= i < l ==> (#[trigger] self.layers@[i]).wf()
                        && self.layers@[i].degrees_bounded(mc as int),
                forall|i: int|
                    0 <= i < l ==> (#[trigger] self.layers@[i]).spec_size() == old(self).layers@[i].spec_size() + 1,
                forall|i: int|
                    0 <= i < l ==> (#[trigger] idxs@[i]) as int == old(self).layers@[i].spec_size(),
                forall|i: int|
                    0 <= i < l ==> self.layers@[i].deg((#[trigger] idxs@[i]) as int) == 0,
                forall|i: int|
                    0 <= i < l ==> #[trigger] self.layers@[i].spec_nodes() == old(self).layers@[i].spec_nodes().push(
                        (
                            *point,
                            if i == 0 {
                                base_idx
                            } else {
                                idxs@[i - 1]
                            },
                        ),
                    ),
                forall|i: int, v: int|
                    0 <= i < l && 0 <= v < old(self).layers@[i].spec_size()
                        ==> #[trigger] self.layers@[i].adj(v) == old(self).layers@[i].adj(v),
                l > 0 ==> prev == idxs@[l - 1],
                l == 0 ==> prev == base_idx,
            decreases level - l,
        {
            let ghost lpre = self.layers@[l as int];
            proof {
                assert(lpre == old(self).layers@[l as int]);
                assert(old(self).layers@[l as int].degrees_bounded(mc as int));
            }
            let idx = self.layers[l].add((point.clone_point(), prev));
            proof {
                assert forall|v: int|
                    0 <= v < self.layers@[l as int].spec_size() implies self.layers@[l as int].deg(
                        v,
                    ) <= mc as int by {
                    if v < lpre.spec_size() {
                        assert(self.layers@[l as int].adj(v) == lpre.adj(v));
                        assert(lpre.deg(v) <= mc as int);
                    } else {
                        assert(self.layers@[l as int].adj(v).len() == 0);
                    }
                }
            }
            idxs.push(idx);
            prev = idx;
            l += 1;
        }
        idxs
    }

    /// Run INSERT-LAYER on the point's copy in each of layers
    /// `level - 1` down to `0`, translating the entry point down; the
    /// result enters the base layer.
    #[verifier::loop_isolation(false)]
    #[verifier::rlimit(60)]
    fn insert_upper(&mut self, idxs: &Vec<Idx>, level: usize, ep0: Idx) -> (r: Idx)
        requires
            level <= old(self).layers@.len(),
            idxs@.len() == level,
            layers_linked(old(self).layers@, old(self).base),
            forall|i: int|
                0 <= i < old(self).layers@.len() ==> (#[trigger] old(self).layers@[i]).degrees_bounded(old(self).max_connections as int),
            forall|i: int|
                0 <= i < level ==> ((#[trigger] idxs@[i]) as int) < old(self).layers@[i].spec_size(),
            forall|i: int|
                0 <= i < level ==> old(self).layers@[i].deg((#[trigger] idxs@[i]) as int) == 0,
            level > 0 ==> (ep0 as int) < old(self).layers@[level - 1].spec_size(),
            level == 0 ==> (ep0 as int) < old(self).base.spec_size(),
            old(self).ef_construction >= 1,
            2 <= old(self).connections <= old(self).max_connections,
        ensures
            final(self).layers@.len() == old(self).layers@.len(),
            final(self).base == old(self).base,
            final(self).ep == old(self).ep,
            final(self).ef_construction == old(self).ef_construction,
            final(self).connections == old(self).connections,
            final(self).max_connections == old(self).max_connections,
            forall|i: int|
                0 <= i < final(self).layers@.len() ==> (#[trigger] final(self).layers@[i]).spec_nodes() == old(self).layers@[i].spec_nodes(),
            forall|i: int|
                0 <= i < final(self).layers@.len() ==> (#[trigger] final(self).layers@[i]).wf(),
            forall|i: int|
                0 <= i < final(self).layers@.len() ==> (#[trigger] final(self).layers@[i]).degrees_bounded(old(self).max_connections as int),
            (r as int) < old(self).base.spec_size(),
            level == 0 ==> r == ep0,
    {
        let ghost mc = self.max_connections;
        let ghost lsnap = self.layers@;
        let ghost bsnap = self.base;
        let mut ep_cur = ep0;
        let mut l2 = level;
        while l2 > 0
            invariant
                0 <= l2 <= level,
                level <= self.layers@.len(),
                self.layers@.len() == lsnap.len(),
                self.base == bsnap,
                self.ep == old(self).ep,
                self.ef_construction == old(self).ef_construction,
                self.connections == old(self).connections,
                self.max_connections == old(self).max_connections,
                forall|i: int|
                    0 <= i < lsnap.len() ==> (#[trigger] self.layers@[i]).spec_nodes()
                        == lsnap[i].spec_nodes(),
                forall|i: int| 0 <= i < lsnap.len() ==> (#[trigger] self.layers@[i]).wf(),
                forall|i: int|
                    0 <= i < lsnap.len() ==> (#[trigger] self.layers@[i]).degrees_bounded(mc as int),
                forall|i: int|
                    0 <= i < l2 ==> self.layers@[i].deg((#[trigger] idxs@[i]) as int) == 0,
                l2 > 0 ==> (ep_cur as int) < self.layers@[l2 - 1].spec_size(),
                l2 == 0 ==> (ep_cur as int) < bsnap.spec_size(),
                level == 0 ==> ep_cur == ep0,
            decreases l2,
        {
            l2 -= 1;
            let n = self.layers[l2].size();
            let mut visited = crate::bitset::BitSet::new(n);
            proof {
                assert((idxs@[l2 as int] as int) < self.layers@[l2 as int].spec_size());
            }
            let next = insert_idx(
                &mut self.layers[l2],
                idxs[l2],
                self.connections,
                self.max_connections,
                self.ef_construction,
                ep_cur,
                &mut visited,
            );
            ep_cur = next;
            proof {
                if l2 > 0 {
                    assert((ep_cur as int) < self.layers@[l2 as int].spec_size());
                    assert(lsnap[l2 as int].spec_size() <= lsnap[l2 - 1].spec_size());
                } else {
                    assert((ep_cur as int) < self.layers@[0].spec_size());
                    assert(lsnap[0].spec_size() <= bsnap.spec_size());
                }
            }
        }
        ep_cur
    }

    /// Insert one point at the given level: append it everywhere it
    /// belongs, descend the layers above `level` to find an entry
    /// point, then run INSERT-LAYER from layer `level - 1` down to the
    /// base (the per-insert sequence).
    #[verifier::loop_isolation(false)]
    #[verifier::rlimit(100)]
    #[verifier::spinoff_prover]
    pub fn add_at_level(&mut self, point: P, level: usize)
        requires
            old(self).wf(),
            old(self).spec_size() < 0xffff_ffff,
            level <= 64,
        ensures
            final(self).wf(),
            final(self).spec_size() == old(self).spec_size() + 1,
            final(self).spec_base().spec_nodes() == old(self).spec_base().spec_nodes().push(point),
            added_at_level(
                old(self).spec_layers(),
                old(self).spec_base(),
                final(self).spec_layers(),
                final(self).spec_base(),
                point,
                if old(self).spec_ep() is Some {
                    level as int
                } else {
                    0
                },
            ),
            old(self).spec_size() >= 1 && level == 0 ==> final(self).spec_base().deg(
                old(self).spec_size(),
            ) >= 1,
            final(self).spec_max_connections() == old(self).spec_max_connections(),
    {
        let ghost mc = self.max_connections;
        let level = if self.ep.is_some() {
            level
        } else {
            self.layers.len()
        };
        proof {
            if self.ep.is_none() {
                assert(self.layers@.len() == 0);
            }
        }
        let ghost g0 = *self;
        // Append the point to the base.
        proof {
            assert(g0.base.degrees_bounded(mc as int));
        }
        let base_idx = self.base.add(point.clone_point());
        proof {
            assert forall|v: int|
                0 <= v < self.base.spec_size() implies self.base.deg(v) <= mc as int by {
                if v < g0.base.spec_size() {
                    assert(self.base.adj(v) == g0.base.adj(v));
                    assert(g0.base.deg(v) <= mc as int);
                } else {
                    assert(self.base.adj(v).len() == 0);
                }
            }
        }
        let first = self.ep.is_none();
        if first {
            self.ep = Some(base_idx);
        }
        // Grow the stack and append the point's chain of layer copies.
        let ghost g1 = *self;
        let grew = self.grow_stack(level);
        let ghost g2 = *self;
        proof {
            lemma_grow_linked(g0.layers@, g2.layers@, g0.base);
            assert forall|i: int|
                0 <= i < level implies (#[trigger] g2.layers@[i]).wf()
                    && g2.layers@[i].spec_size() < 0xffff_ffff && g2.layers@[i].degrees_bounded(
                    mc as int,
                ) by {
                if i < g0.layers@.len() {
                    assert(g2.layers@[i] == g0.layers@[i]);
                    assert(g0.layers@[i].spec_size() <= (if i == 0 {
                        g0.base.spec_size()
                    } else {
                        g0.layers@[i - 1].spec_size()
                    }));
                    lemma_layer_size_le_base(g0.layers@, g0.base, i);
                    assert(g0.base.spec_size() < 0xffff_ffff);
                } else {
                    assert(g2.layers@[i].spec_size() == 0);
                }
            }
        }
        let idxs = self.append_chain(&point, base_idx, level);
        let ghost g3 = *self;
        proof {
            lemma_append_linked(
                g2.layers@,
                g0.base,
                g3.layers@,
                g3.base,
                point,
                base_idx,
                idxs@,
                level as int,
            );
            assert forall|i: int|
                0 <= i < g3.layers@.len() implies (#[trigger] g3.layers@[i]).wf()
                    && g3.layers@[i].degrees_bounded(mc as int) && g3.layers@[i].spec_size()
                    >= 1 by {
                if i >= level {
                    assert(g3.layers@[i] == g2.layers@[i]);
                    assert(i < g0.layers@.len());
                    assert(g2.layers@[i] == g0.layers@[i]);
                }
            }
        }
        let ep_top = if grew {
            let t = idxs[level - 1];
            self.ep = Some(t);
            t
        } else {
            match self.ep {
                Some(e) => e,
                None => base_idx,
            }
        };
        let ghost g4 = *self;
        proof {
            // the entry point is valid in the top layer (or the base)
            if g4.layers@.len() > 0 {
                assert((ep_top as int) < g4.layers@[g4.layers@.len() - 1].spec_size()) by {
                    if grew {
                        assert(g4.layers@.len() == level);
                        assert((idxs@[level - 1] as int) < g4.layers@[level - 1].spec_size());
                    } else {
                        assert(g4.layers@.len() == g0.layers@.len());
                        let top = g4.layers@.len() - 1;
                        assert(g0.ep is Some ==> (ep_top as int) < (if g0.layers@.len() > 0 {
                            g0.layers@[g0.layers@.len() - 1].spec_size()
                        } else {
                            g0.base.spec_size()
                        }));
                        if top < level {
                            assert(g4.layers@[top].spec_size() == g2.layers@[top].spec_size()
                                + 1);
                        } else {
                            assert(g4.layers@[top] == g2.layers@[top]);
                        }
                    }
                }
            } else {
                assert(level == 0 && g0.layers@.len() == 0);
                assert(ep_top == base_idx || (g0.ep is Some && ep_top == g0.ep->0));
                assert((ep_top as int) < g4.base.spec_size());
            }
        }
        // Descend from the top to the insertion level.
        let ep_mid: Idx = descend_layers(
            &self.layers,
            &point,
            level,
            ep_top,
            Ghost(self.base.spec_size()),
        );
        proof {
            if (level as int) < g4.layers@.len() {
                if level > 0 {
                    assert((ep_mid as int) < g4.layers@[level - 1].spec_size());
                } else {
                    assert((ep_mid as int) < g4.base.spec_size());
                }
            } else {
                assert(ep_mid == ep_top);
            }
        }
        // Insert in the upper layers, then in the base.
        let ep_base = self.insert_upper(&idxs, level, ep_mid);
        let ghost g5 = *self;
        let n = self.base.size();
        let mut visited = crate::bitset::BitSet::new(n);
        proof {
            assert(self.base == g1.base);
            assert(self.base.deg(base_idx as int) == 0);
        }
        let _ = insert_idx(
            &mut self.base,
            base_idx,
            self.connections,
            self.max_connections,
            self.ef_construction,
            ep_base,
            &mut visited,
        );
        proof {
            lemma_nodes_preserved_linked(g5.layers@, g5.base, self.layers@, self.base);
            assert(layered_wf(self.layers@, self.base, self.ep)) by {
                assert forall|i: int|
                    0 <= i < self.layers@.len() implies (#[trigger] self.layers@[i]).spec_size()
                        >= 1 by {
                    assert(self.layers@[i].spec_nodes() == g5.layers@[i].spec_nodes());
                    assert(g5.layers@[i].spec_nodes() == g3.layers@[i].spec_nodes());
                }
                assert(self.ep == g4.ep);
                if self.layers@.len() > 0 {
                    assert(self.layers@[self.layers@.len() - 1].spec_nodes()
                        == g4.layers@[g4.layers@.len() - 1].spec_nodes());
                }
            }
            // the insertion's footprint: each layer copy appended at
            // the end of its layer, chained by down pointers
            assert(added_at_level(
                g0.layers@,
                g0.base,
                self.layers@,
                self.base,
                point,
                level as int,
            )) by {
                assert(self.base.spec_nodes() == g0.base.spec_nodes().push(point));
                assert(self.layers@.len() == g3.layers@.len());
                assert forall|l: int|
                    0 <= l < level implies (#[trigger] self.layers@[l]).spec_nodes()
                        == layer_nodes_or_empty(g0.layers@, l).push(
                        (
                            point,
                            (if l == 0 {
                                g0.base.spec_nodes().len() as int
                            } else {
                                layer_nodes_or_empty(g0.layers@, l - 1).len() as int
                            }) as Idx,
                        ),
                    ) by {
                    assert(self.layers@[l].spec_nodes() == g3.layers@[l].spec_nodes());
                    assert(g3.layers@[l].spec_nodes() == g2.layers@[l].spec_nodes().push(
                        (
                            point,
                            if l == 0 {
                                base_idx
                            } else {
                                idxs@[l - 1]
                            },
                        ),
                    ));
                    if l < g0.layers@.len() {
                        assert(g2.layers@[l] == g0.layers@[l]);
                    } else {
                        assert(g2.layers@[l].spec_nodes() =~= Seq::<(P, Idx)>::empty());
                    }
                    if l > 0 {
                        assert((idxs@[l - 1] as int) == g2.layers@[l - 1].spec_size());
                        if l - 1 < g0.layers@.len() {
                            assert(g2.layers@[l - 1] == g0.layers@[l - 1]);
                        } else {
                            assert(g2.layers@[l - 1].spec_size() == 0);
                        }
                    }
                }
                assert forall|l: int|
                    level <= l < self.layers@.len() implies (
                #[trigger] self.layers@[l]).spec_nodes() == layer_nodes_or_empty(
                    g0.layers@,
                    l,
                ) by {
                    assert(self.layers@[l].spec_nodes() == g3.layers@[l].spec_nodes());
                    assert(g3.layers@[l] == g2.layers@[l]);
                    assert(l < g0.layers@.len());
                    assert(g2.layers@[l] == g0.layers@[l]);
                }
            }
            // a point at the bottom level ends connected in the base
            if g0.base.spec_size() >= 1 && level == 0 {
                assert(ep_base != base_idx) by {
                    assert(ep_base == ep_mid);
                    if g4.layers@.len() > 0 {
                        assert(g4.layers@[0] == g0.layers@[0]) by {
                            assert(g3.layers@[0] == g2.layers@[0]);
                            assert(g2.layers@[0] == g0.layers@[0]);
                        }
                        let v = choose|v: int|
                            0 <= v < g4.layers@[0].spec_size() && ep_mid == (
                            #[trigger] g4.layers@[0].spec_nodes()[v]).1;
                        assert(layers_linked(g0.layers@, g0.base));
                        assert((g0.layers@[0].spec_nodes()[v].1 as int) < g0.base.spec_size());
                    } else {
                        assert(ep_mid == ep_top);
                        assert(g0.ep is Some);
                        assert((ep_top as int) < g0.base.spec_size());
                    }
                }
                assert(self.base.deg(base_idx as int) >= 1);
            }
        }
    }

    /// Insert points with the batched read/write phasing of the
    /// parallel pipeline, sequentially.  Each chunk draws one level;
    /// its points are appended everywhere they belong, then every
    /// member's descent and per-layer neighbourhood plans are computed
    /// against the frozen graphs, and finally the plans are integrated
    /// serially, layer by layer from the top down and last in the
    /// base.  A chunk whose level would grow the layer stack is
    /// inserted point by point instead.
    #[verifier::loop_isolation(false)]
    #[verifier::rlimit(100)]
    #[verifier::spinoff_prover]
    pub fn extend_batch(&mut self, points: Vec<P>)
        requires
            old(self).wf(),
            old(self).spec_size() + points@.len() <= 0xffff_ffff,
        ensures
            final(self).wf(),
            final(self).spec_size() == old(self).spec_size() + points@.len(),
            final(self).spec_base().spec_nodes() == old(self).spec_base().spec_nodes()
                + points@,
            final(self).spec_max_connections() == old(self).spec_max_connections(),
    {
        let ghost ps = points@;
        let mut pts = points;
        // warm the graph up serially so the read phases have something
        // navigable to plan against
        let mut warm: usize = 0;
        while warm < 128 && pts.len() > 0
            invariant
                self.wf(),
                self.spec_size() + pts@.len() <= 0xffff_ffff,
                self.spec_size() + pts@.len() == old(self).spec_size() + points@.len(),
                self.spec_base().spec_nodes() + pts@ == old(self).spec_base().spec_nodes() + ps,
                self.spec_max_connections() == old(self).spec_max_connections(),
                warm > 0 ==> self.spec_size() > 0,
            decreases pts@.len(),
        {
            let ghost pre = pts@;
            let ghost acc = self.spec_base().spec_nodes();
            let p = pts.remove(0);
            proof {
                assert(pts@ =~= pre.drop_first());
            }
            self.add(p);
            proof {
                assert(self.spec_base().spec_nodes() + pts@ =~= acc + pre);
            }
            warm += 1;
        }
        while pts.len() > 0
            invariant
                self.wf(),
                self.spec_size() + pts@.len() <= 0xffff_ffff,
                self.spec_size() + pts@.len() == old(self).spec_size() + points@.len(),
                self.spec_base().spec_nodes() + pts@ == old(self).spec_base().spec_nodes() + ps,
                self.spec_max_connections() == old(self).spec_max_connections(),
                pts@.len() > 0 ==> self.spec_size() > 0,
            decreases pts@.len(),
        {
            let ghost nodes_at = self.spec_base().spec_nodes();
            let ghost pts_at = pts@;
            // take a chunk
            let mut chunk: Vec<P> = Vec::new();
            while chunk.len() < 32 && pts.len() > 0
                invariant
                    self.wf(),
                    self.spec_size() > 0,
                    self.spec_size() + pts@.len() + chunk@.len() == old(self).spec_size()
                        + points@.len(),
                    self.spec_size() + pts@.len() + chunk@.len() <= 0xffff_ffff,
                    self.spec_base().spec_nodes() == nodes_at,
                    chunk@ + pts@ == pts_at,
                    self.spec_max_connections() == old(self).spec_max_connections(),
                decreases pts@.len(),
            {
                let ghost pre = pts@;
                let ghost ck = chunk@;
                let p = pts.remove(0);
                proof {
                    assert(pts@ =~= pre.drop_first());
                }
                chunk.push(p);
                proof {
                    assert(chunk@ + pts@ =~= ck + pre);
                }
            }
            let level = random_level(self.connections);
            if level > self.layers.len() {
                self.add_growth_chunk(chunk, level);
            } else {
                self.add_chunk_at_level(chunk, level);
            }
        }
    }

    /// Insert a chunk whose level grows the layer stack, point by
    /// point at that level.
    #[verifier::loop_isolation(false)]
    fn add_growth_chunk(&mut self, chunk: Vec<P>, level: usize)
        requires
            old(self).wf(),
            old(self).spec_size() + chunk@.len() <= 0xffff_ffff,
            level <= 64,
        ensures
            final(self).wf(),
            final(self).spec_size() == old(self).spec_size() + chunk@.len(),
            final(self).spec_base().spec_nodes() == old(self).spec_base().spec_nodes()
                + chunk@,
            final(self).spec_max_connections() == old(self).spec_max_connections(),
    {
        let ghost cs = chunk@;
        let mut c = chunk;
        while c.len() > 0
            invariant
                self.wf(),
                self.spec_size() + c@.len() == old(self).spec_size() + cs.len(),
                self.spec_size() + c@.len() <= 0xffff_ffff,
                self.spec_base().spec_nodes() + c@ == old(self).spec_base().spec_nodes() + cs,
                self.spec_max_connections() == old(self).spec_max_connections(),
            decreases c@.len(),
        {
            let ghost pre = c@;
            let ghost acc = self.spec_base().spec_nodes();
            let p = c.remove(0);
            proof {
                assert(c@ =~= pre.drop_first());
            }
            self.add_at_level(p, level);
            proof {
                assert(self.spec_base().spec_nodes() + c@ =~= acc + pre);
            }
        }
        proof {
            assert(final(self).spec_base().spec_nodes() =~= final(self).spec_base().spec_nodes()
                + c@);
        }
    }

    /// Append one whole chunk at `level` (no layer growth), plan every
    /// member against the frozen graphs, then integrate the plans in
    /// chunk order, layer by layer and last in the base.
    #[verifier::loop_isolation(false)]
    #[verifier::rlimit(100)]
    #[verifier::spinoff_prover]
    fn add_chunk_at_level(&mut self, chunk: Vec<P>, level: usize)
        requires
            old(self).wf(),
            old(self).spec_size() > 0,
            old(self).spec_size() + chunk@.len() <= 0xffff_ffff,
            level <= old(self).spec_layers().len(),
        ensures
            final(self).wf(),
            final(self).spec_size() == old(self).spec_size() + chunk@.len(),
            final(self).spec_base().spec_nodes() == old(self).spec_base().spec_nodes()
                + chunk@,
            final(self).spec_max_connections() == old(self).spec_max_connections(),
    {
        let ghost mc = self.max_connections;
        let cn = chunk.len();
        let ghost g0 = *self;
        let ghost size0 = self.base.spec_size();
        let ghost lsizes0 = Seq::new(g0.layers@.len(), |i: int| g0.layers@[i].spec_size());
        let (base_idxs, chains) = self.append_chunk(&chunk, level);
        // Phase b: descend every member from the top to the insertion
        // level; no writes happen here, so all descents observe one
        // consistent snapshot.
        let ghost ga = *self;
        let ep_top = match self.ep {
            Some(e) => e,
            None => 0,
        };
        let ghost old_region = if level > 0 {
            lsizes0[level as int - 1]
        } else {
            size0
        };
        let mut eps: Vec<Idx> = Vec::new();
        let mut j: usize = 0;
        proof {
            if (level as int) < ga.layers@.len() {
                assert(ga.layers@[level as int] == g0.layers@[level as int]);
            }
            if ga.layers@.len() > 0 {
                assert((ep_top as int) < ga.layers@[ga.layers@.len() - 1].spec_size());
            }
        }
        while j < cn
            invariant
                0 <= j <= cn,
                *self == ga,
                eps@.len() == j,
                level <= ga.layers@.len(),
                (level as int) > 0 ==> old_region == lsizes0[level as int - 1]
                    && old_region <= ga.layers@[level as int - 1].spec_size(),
                level == 0 ==> old_region == size0 && old_region <= ga.base.spec_size(),
                forall|a: int| 0 <= a < j ==> ((#[trigger] eps@[a]) as int) < old_region,
            decreases cn - j,
        {
            let e = descend_layers(
                &self.layers,
                &chunk[j],
                level,
                ep_top,
                Ghost(self.base.spec_size()),
            );
            proof {
                if level == ga.layers@.len() {
                    assert(e == ep_top);
                    if ga.layers@.len() > 0 {
                        assert(g0.ep is Some);
                        assert((ep_top as int) < lsizes0[ga.layers@.len() - 1]) by {
                            assert((g0.ep->0 as int) < g0.layers@[g0.layers@.len()
                                - 1].spec_size());
                        }
                    } else {
                        assert(level == 0);
                        assert((g0.ep->0 as int) < g0.base.spec_size());
                    }
                } else {
                    // the result is the down pointer of an untouched
                    // node of layer `level`, so it lands in the old
                    // region of the layer below (or of the base)
                    let v = choose|v: int|
                        0 <= v < ga.layers@[level as int].spec_size() && e == (
                        #[trigger] ga.layers@[level as int].spec_nodes()[v]).1;
                    assert(ga.layers@[level as int] == g0.layers@[level as int]);
                    assert(layers_linked(g0.layers@, g0.base));
                    assert((g0.layers@[level as int].spec_nodes()[v].1 as int) < (if level == 0 {
                        g0.base.spec_size()
                    } else {
                        g0.layers@[level as int - 1].spec_size()
                    }));
                }
            }
            eps.push(e);
            j += 1;
        }
        // Phase c: integrate layer by layer from the top down; within
        // each layer, plan every member against the frozen layer, then
        // apply the plans in chunk order.
        let mut l2 = level;
        while l2 > 0
            invariant
                0 <= l2 <= level,
                level <= self.layers@.len(),
                self.layers@.len() == ga.layers@.len(),
                self.base == ga.base,
                self.ep == ga.ep,
                self.ef_construction == ga.ef_construction,
                self.connections == ga.connections,
                self.max_connections == ga.max_connections,
                eps@.len() == cn,
                chains@.len() == cn,
                forall|a: int| 0 <= a < cn ==> (#[trigger] chains@[a])@.len() == level,
                forall|a: int, l: int|
                    0 <= a < cn && 0 <= l < level ==> ((#[trigger] chains@[a]@[l]) as int)
                        == lsizes0[l] + a,
                forall|a: int| 0 <= a < cn ==> ((#[trigger] eps@[a]) as int) < old_region,
                (level as int) > 0 ==> old_region == lsizes0[level as int - 1],
                level == 0 ==> old_region == size0,
                forall|l: int|
                    0 <= l < self.layers@.len() ==> (#[trigger] self.layers@[l]).wf()
                        && self.layers@[l].degrees_bounded(mc as int),
                forall|l: int|
                    0 <= l < self.layers@.len() ==> (#[trigger] self.layers@[l]).spec_nodes()
                        == ga.layers@[l].spec_nodes(),
                forall|l: int, v: int|
                    0 <= l < l2 && lsizes0[l] <= v < self.layers@[l].spec_size()
                        ==> self.layers@[l].deg(v) == 0,
                layers_linked_sizes(lsizes0, size0, level as int, ga.layers@.len() as int),
            decreases l2,
        {
            l2 -= 1;
            proof {
                assert(old_region <= lsizes0[l2 as int]) by {
                    lemma_lsizes_monotone(lsizes0, size0, level as int,
                        ga.layers@.len() as int, l2 as int, level as int - 1);
                }
                assert(forall|a: int|
                    0 <= a < chains@.len() ==> ((#[trigger] chains@[a])@.len()) > l2);
            }
            self.chunk_layer_pass(
                l2,
                &chunk,
                &chains,
                &eps,
                Ghost(lsizes0),
                Ghost(old_region),
            );
        }
        proof {
            if level > 0 {
                assert(old_region <= size0) by {
                    lemma_lsizes_monotone(lsizes0, size0, level as int,
                        ga.layers@.len() as int, 0, level as int - 1);
                    assert(lsizes0[0] <= size0);
                }
            }
        }
        self.chunk_base_pass(&chunk, &base_idxs, &eps, Ghost(size0), Ghost(old_region));
        proof {
            lemma_nodes_concat(g0.base.spec_nodes(), chunk@, self.base.spec_nodes());
            lemma_nodes_preserved_linked(ga.layers@, ga.base, self.layers@, self.base);
            assert(layered_wf(self.layers@, self.base, self.ep)) by {
                assert forall|l: int|
                    0 <= l < self.layers@.len() implies (#[trigger] self.layers@[l]).spec_size()
                        >= 1 by {
                    assert(self.layers@[l].spec_nodes() == ga.layers@[l].spec_nodes());
                }
                if self.layers@.len() > 0 {
                    assert(self.layers@[self.layers@.len() - 1].spec_nodes()
                        == ga.layers@[ga.layers@.len() - 1].spec_nodes());
                }
            }
        }
    }


    /// Append one point to the base and to layers `0 .. level` with its
    /// down chain; no edges yet.  Returns the base identifier and the
    /// per-layer identifiers.
    #[verifier::rlimit(100)]
    #[verifier::spinoff_prover]
    fn append_one(&mut self, p: &P, level: usize) -> (r: (Idx, Vec<Idx>))
        requires
            level <= old(self).layers@.len(),
            old(self).base.wf(),
            old(self).base.degrees_bounded(old(self).max_connections as int),
            old(self).base.spec_size() < 0xffff_ffff,
            forall|l: int|
                0 <= l < old(self).layers@.len() ==> (#[trigger] old(self).layers@[l]).wf()
                    && old(self).layers@[l].degrees_bounded(old(self).max_connections as int),
            layers_linked(old(self).layers@, old(self).base),
        ensures
            final(self).layers@.len() == old(self).layers@.len(),
            final(self).ep == old(self).ep,
            final(self).ef_construction == old(self).ef_construction,
            final(self).connections == old(self).connections,
            final(self).max_connections == old(self).max_connections,
            final(self).base.wf(),
            final(self).base.degrees_bounded(old(self).max_connections as int),
            final(self).base.spec_nodes() == old(self).base.spec_nodes().push(*p),
            r.0 as int == old(self).base.spec_size(),
            forall|v: int|
                0 <= v < old(self).base.spec_size() ==> #[trigger] final(self).base.adj(v)
                    == old(self).base.adj(v),
            final(self).base.adj(r.0 as int).len() == 0,
            r.1@.len() == level,
            forall|l: int|
                0 <= l < level ==> (#[trigger] r.1@[l]) as int == old(
                self).layers@[l].spec_size(),
            forall|l: int|
                0 <= l < level ==> (#[trigger] final(self).layers@[l]).wf() && final(
                self).layers@[l].degrees_bounded(old(self).max_connections as int),
            forall|l: int|
                0 <= l < level ==> (#[trigger] final(self).layers@[l]).spec_nodes() == old(
                self).layers@[l].spec_nodes().push(
                    (
                        *p,
                        if l == 0 {
                            r.0
                        } else {
                            r.1@[l - 1]
                        },
                    ),
                ),
            forall|l: int, v: int|
                0 <= l < level && 0 <= v < old(self).layers@[l].spec_size() ==> #[trigger] final(
                self).layers@[l].adj(v) == old(self).layers@[l].adj(v),
            forall|l: int|
                0 <= l < level ==> final(self).layers@[l].deg(
                    old(self).layers@[l].spec_size(),
                ) == 0,
            forall|l: int|
                level <= l < final(self).layers@.len() ==> #[trigger] final(self).layers@[l]
                    == old(self).layers@[l],
            layers_linked(final(self).layers@, final(self).base),
    {
        let ghost mc = self.max_connections;
        let ghost gpre = *self;
        let base_idx = self.base.add(p.clone_point());
        proof {
            assert forall|v: int|
                0 <= v < self.base.spec_size() implies self.base.deg(v) <= mc as int by {
                if v < gpre.base.spec_size() {
                    assert(self.base.adj(v) == gpre.base.adj(v));
                    assert(gpre.base.deg(v) <= mc as int);
                } else {
                    assert(self.base.adj(v).len() == 0);
                }
            }
            assert forall|l: int|
                0 <= l < level implies (#[trigger] gpre.layers@[l]).wf()
                    && gpre.layers@[l].spec_size() < 0xffff_ffff
                    && gpre.layers@[l].degrees_bounded(mc as int) by {
                lemma_layer_size_le_base(gpre.layers@, gpre.base, l);
            }
        }
        let ghost gmid = *self;
        let idxs = self.append_chain(p, base_idx, level);
        proof {
            lemma_append_linked(
                gmid.layers@,
                gpre.base,
                self.layers@,
                self.base,
                *p,
                base_idx,
                idxs@,
                level as int,
            );
            assert forall|l: int|
                0 <= l < level implies self.layers@[l].deg(gpre.layers@[l].spec_size()) == 0 by {
                assert((idxs@[l] as int) == gpre.layers@[l].spec_size());
                assert(self.layers@[l].deg((idxs@[l]) as int) == 0);
            }
        }
        (base_idx, idxs)
    }

    /// Phase a of a chunk insertion: append every member to the base
    /// and, with its chain of `down` pointers, to layers `0 .. level`;
    /// nothing gets edges yet.
    #[verifier::loop_isolation(false)]
    #[verifier::rlimit(100)]
    #[verifier::spinoff_prover]
    fn append_chunk(&mut self, chunk: &Vec<P>, level: usize) -> (r: (Vec<Idx>, Vec<Vec<Idx>>))
        requires
            old(self).wf(),
            old(self).spec_size() > 0,
            old(self).spec_size() + chunk@.len() <= 0xffff_ffff,
            level <= old(self).spec_layers().len(),
        ensures
            ({
                let size0 = old(self).base.spec_size();
                let lsizes0 = Seq::new(
                    old(self).layers@.len(),
                    |i: int| old(self).layers@[i].spec_size(),
                );
                let cn = chunk@.len() as int;
                &&& r.0@.len() == cn
                &&& r.1@.len() == cn
                &&& final(self).layers@.len() == old(self).layers@.len()
                &&& final(self).ep == old(self).ep
                &&& final(self).ef_construction == old(self).ef_construction
                &&& final(self).connections == old(self).connections
                &&& final(self).max_connections == old(self).max_connections
                &&& final(self).base.wf()
                &&& final(self).base.degrees_bounded(old(self).max_connections as int)
                &&& final(self).base.spec_size() == size0 + cn
                &&& (forall|v: int|
                    0 <= v < size0 ==> final(self).base.spec_nodes()[v] == old(
                    self).base.spec_nodes()[v])
                &&& (forall|a: int|
                    0 <= a < cn ==> final(self).base.spec_nodes()[size0 + a]
                        == #[trigger] chunk@[a])
                &&& (forall|a: int| 0 <= a < cn ==> (#[trigger] r.0@[a]) as int == size0 + a)
                &&& (forall|v: int|
                    size0 <= v < final(self).base.spec_size() ==> final(self).base.deg(v) == 0)
                &&& (forall|l: int|
                    0 <= l < final(self).layers@.len() ==> (#[trigger] final(
                    self).layers@[l]).wf() && final(self).layers@[l].degrees_bounded(
                        old(self).max_connections as int,
                    ))
                &&& (forall|l: int|
                    0 <= l < level ==> (#[trigger] final(self).layers@[l]).spec_size()
                        == lsizes0[l] + cn)
                &&& (forall|l: int|
                    level <= l < final(self).layers@.len() ==> #[trigger] final(self).layers@[l]
                        == old(self).layers@[l])
                &&& (forall|a: int| 0 <= a < cn ==> (#[trigger] r.1@[a])@.len() == level)
                &&& (forall|a: int, l: int|
                    0 <= a < cn && 0 <= l < level ==> ((#[trigger] r.1@[a]@[l]) as int)
                        == lsizes0[l] + a)
                &&& (forall|l: int, v: int|
                    0 <= l < level && lsizes0[l] <= v < final(self).layers@[l].spec_size()
                        ==> final(self).layers@[l].deg(v) == 0)
                &&& layers_linked(final(self).layers@, final(self).base)
                &&& (forall|l: int|
                    0 <= l < final(self).layers@.len() ==> (#[trigger] final(
                    self).layers@[l]).spec_size() >= 1)
                &&& match final(self).ep {
                    Some(e) => final(self).base.spec_size() > 0 && (e as int) < (if final(self).layers@.len() > 0 {
                        final(self).layers@[final(self).layers@.len() - 1].spec_size()
                    } else {
                        final(self).base.spec_size()
                    }),
                    None => false,
                }
            }),
    {
        let ghost mc = self.max_connections;
        let cn = chunk.len();
        // Phase a: append every chunk member to the base and to layers
        // 0 .. level, with their down chains.
        let mut base_idxs: Vec<Idx> = Vec::new();
        let mut chains: Vec<Vec<Idx>> = Vec::new();
        let ghost g0 = *self;
        let ghost size0 = self.base.spec_size();
        let ghost lsizes0 = Seq::new(g0.layers@.len(), |i: int| g0.layers@[i].spec_size());
        let mut i: usize = 0;
        while i < cn
            invariant
                0 <= i <= cn,
                base_idxs@.len() == i,
                chains@.len() == i,
                self.layers@.len() == g0.layers@.len(),
                level <= self.layers@.len(),
                self.ep == g0.ep,
                self.ef_construction == g0.ef_construction,
                self.connections == g0.connections,
                self.max_connections == g0.max_connections,
                self.base.wf(),
                self.base.degrees_bounded(mc as int),
                self.base.spec_size() == size0 + i,
                forall|v: int|
                    0 <= v < size0 ==> self.base.spec_nodes()[v] == g0.base.spec_nodes()[v],
                forall|a: int|
                    0 <= a < i ==> self.base.spec_nodes()[size0 + a] == #[trigger] chunk@[a],
                size0 + cn <= 0xffff_ffff,
                forall|a: int| 0 <= a < i ==> (#[trigger] base_idxs@[a]) as int == size0 + a,
                forall|v: int| size0 <= v < self.base.spec_size() ==> self.base.deg(v) == 0,
                forall|l: int|
                    0 <= l < self.layers@.len() ==> (#[trigger] self.layers@[l]).wf()
                        && self.layers@[l].degrees_bounded(mc as int),
                forall|l: int|
                    0 <= l < level ==> (#[trigger] self.layers@[l]).spec_size() == lsizes0[l] + i,
                forall|l: int|
                    level <= l < self.layers@.len() ==> #[trigger] self.layers@[l]
                        == g0.layers@[l],
                forall|a: int| 0 <= a < i ==> (#[trigger] chains@[a])@.len() == level,
                forall|a: int, l: int|
                    0 <= a < i && 0 <= l < level ==> ((#[trigger] chains@[a]@[l]) as int)
                        == lsizes0[l] + a,
                forall|l: int, v: int|
                    0 <= l < level && lsizes0[l] <= v < self.layers@[l].spec_size()
                        ==> self.layers@[l].deg(v) == 0,
                layers_linked(self.layers@, self.base),
                forall|l: int|
                    0 <= l < self.layers@.len() ==> (#[trigger] self.layers@[l]).spec_size() >= 1,
                match self.ep {
                    Some(e) => self.base.spec_size() > 0 && (e as int) < (if self.layers@.len()
                        > 0 {
                        self.layers@[self.layers@.len() - 1].spec_size()
                    } else {
                        self.base.spec_size()
                    }),
                    None => false,
                },
            decreases cn - i,
        {
            let ghost gpre = *self;
            let p = &chunk[i];
            let pr = self.append_one(p, level);
            let base_idx = pr.0;
            let idxs = pr.1;
            proof {
                assert forall|v: int|
                    size0 <= v < self.base.spec_size() implies self.base.deg(v) == 0 by {
                    if v < gpre.base.spec_size() {
                        assert(self.base.adj(v) == gpre.base.adj(v));
                        assert(gpre.base.deg(v) == 0);
                    } else {
                        assert(self.base.adj(v).len() == 0);
                    }
                }
                assert forall|l: int, v: int|
                    0 <= l < level && lsizes0[l] <= v < self.layers@[l].spec_size()
                        implies self.layers@[l].deg(v) == 0 by {
                    if v < gpre.layers@[l].spec_size() {
                        assert(self.layers@[l].adj(v) == gpre.layers@[l].adj(v));
                        assert(gpre.layers@[l].deg(v) == 0);
                    } else {
                        assert(v == gpre.layers@[l].spec_size());
                        assert(self.layers@[l].deg(gpre.layers@[l].spec_size()) == 0);
                    }
                }
            }
            base_idxs.push(base_idx);
            chains.push(idxs);
            i += 1;
        }
        (base_idxs, chains)
    }

    /// One layer of the chunk integration: plan every member against
    /// the frozen layer, then apply the plans in chunk order.
    #[verifier::loop_isolation(false)]
    #[verifier::rlimit(100)]
    #[verifier::spinoff_prover]
    fn chunk_layer_pass(
        &mut self,
        l2: usize,
        chunk: &Vec<P>,
        chains: &Vec<Vec<Idx>>,
        eps: &Vec<Idx>,
        Ghost(lsizes0): Ghost<Seq<int>>,
        Ghost(old_region): Ghost<int>,
    )
        requires
            (l2 as int) < old(self).layers@.len(),
            chunk@.len() == chains@.len(),
            chunk@.len() == eps@.len(),
            forall|a: int|
                0 <= a < chains@.len() ==> ((#[trigger] chains@[a])@.len()) > l2,
            forall|a: int|
                0 <= a < chains@.len() ==> ((#[trigger] chains@[a]@[l2 as int]) as int)
                    == lsizes0[l2 as int] + a,
            forall|a: int| 0 <= a < eps@.len() ==> ((#[trigger] eps@[a]) as int) < old_region,
            old_region <= lsizes0[l2 as int],
            forall|l: int|
                0 <= l < old(self).layers@.len() ==> (#[trigger] old(self).layers@[l]).wf()
                    && old(self).layers@[l].degrees_bounded(old(self).max_connections as int),
            old(self).layers@[l2 as int].spec_size() == lsizes0[l2 as int] + chains@.len(),
            forall|v: int|
                lsizes0[l2 as int] <= v < old(self).layers@[l2 as int].spec_size() ==> old(self).layers@[l2 as int].deg(v) == 0,
            old(self).ef_construction >= 1,
            2 <= old(self).connections <= old(self).max_connections,
        ensures
            final(self).layers@.len() == old(self).layers@.len(),
            final(self).base == old(self).base,
            final(self).ep == old(self).ep,
            final(self).ef_construction == old(self).ef_construction,
            final(self).connections == old(self).connections,
            final(self).max_connections == old(self).max_connections,
            forall|l: int|
                0 <= l < final(self).layers@.len() ==> (#[trigger] final(self).layers@[l]).wf()
                    && final(self).layers@[l].degrees_bounded(old(self).max_connections as int),
            forall|l: int|
                0 <= l < final(self).layers@.len() ==> (#[trigger] final(
                self).layers@[l]).spec_nodes() == old(self).layers@[l].spec_nodes(),
            forall|l: int|
                0 <= l < final(self).layers@.len() && l != l2 as int ==> #[trigger] final(
                self).layers@[l] == old(self).layers@[l],
    {
        let ghost mc = self.max_connections;
        let cn = chunk.len();
        let ghost gl = *self;
        // plans for layer l2
        let mut plans: Vec<Vec<Idx>> = Vec::new();
        let mut a: usize = 0;
        while a < cn
            invariant
                0 <= a <= cn,
                *self == gl,
                plans@.len() == a,
                (l2 as int) < self.layers@.len(),
                self.layers@[l2 as int].wf(),
                self.layers@[l2 as int].spec_size() == lsizes0[l2 as int] + cn,
                lsizes0[l2 as int] >= old_region,
                eps@.len() == cn,
                forall|b: int| 0 <= b < cn ==> ((#[trigger] eps@[b]) as int) < old_region,
                forall|x: int, y: int|
                    0 <= x < a && 0 <= y < plans@[x]@.len() ==> ((
                    #[trigger] plans@[x]@[y]) as int) < lsizes0[l2 as int],
                forall|x: int| 0 <= x < a ==> (#[trigger] plans@[x]@).no_duplicates(),
                forall|x: int|
                    0 <= x < a ==> 1 <= (#[trigger] plans@[x]@).len() <= self.connections,
                forall|v: int|
                    lsizes0[l2 as int] <= v < self.layers@[l2 as int].spec_size()
                        ==> self.layers@[l2 as int].deg(v) == 0,
                self.ef_construction >= 1,
                2 <= self.connections <= self.max_connections,
            decreases cn - a,
        {
            let q2 = (chunk[a].clone_point(), 0u32);
            let n2 = self.layers[l2].size();
            let mut visited = crate::bitset::BitSet::new(n2);
            let nbrs = search_select_neighbors(
                &self.layers[l2],
                &q2,
                self.connections,
                self.ef_construction,
                eps[a],
                &mut visited,
            );
            proof {
                assert forall|y: int| 0 <= y < nbrs@.len() implies ((
                #[trigger] nbrs@[y]) as int) < lsizes0[l2 as int] by {
                    assert(nbrs@[y] == eps@[a as int] || self.layers@[l2 as int].deg(
                        nbrs@[y] as int,
                    ) > 0);
                    if (nbrs@[y] as int) >= lsizes0[l2 as int] {
                        assert(self.layers@[l2 as int].deg(nbrs@[y] as int) == 0);
                        assert((eps@[a as int] as int) < old_region);
                    }
                }
            }
            plans.push(nbrs);
            a += 1;
        }
        // integrate the plans in chunk order
        let mut b: usize = 0;
        while b < cn
            invariant
                0 <= b <= cn,
                (l2 as int) < self.layers@.len(),
                self.layers@.len() == gl.layers@.len(),
                self.base == gl.base,
                self.ep == gl.ep,
                self.ef_construction == gl.ef_construction,
                self.connections == gl.connections,
                self.max_connections == gl.max_connections,
                plans@.len() == cn,
                chains@.len() == cn,
                forall|x: int| 0 <= x < cn ==> ((#[trigger] chains@[x])@.len()) > l2,
                forall|x: int|
                    0 <= x < cn ==> ((#[trigger] chains@[x]@[l2 as int]) as int)
                        == lsizes0[l2 as int] + x,
                forall|x: int, y: int|
                    0 <= x < cn && 0 <= y < plans@[x]@.len() ==> ((
                    #[trigger] plans@[x]@[y]) as int) < lsizes0[l2 as int],
                forall|x: int| 0 <= x < cn ==> (#[trigger] plans@[x]@).no_duplicates(),
                forall|x: int|
                    0 <= x < cn ==> 1 <= (#[trigger] plans@[x]@).len() <= self.connections,
                forall|l: int|
                    0 <= l < self.layers@.len() ==> (#[trigger] self.layers@[l]).wf()
                        && self.layers@[l].degrees_bounded(mc as int),
                forall|l: int|
                    0 <= l < self.layers@.len() ==> (#[trigger] self.layers@[l]).spec_nodes()
                        == gl.layers@[l].spec_nodes(),
                self.layers@[l2 as int].spec_size() == lsizes0[l2 as int] + cn,
                forall|x: int|
                    b <= x < cn ==> self.layers@[l2 as int].deg(
                        (#[trigger] chains@[x]@[l2 as int]) as int,
                    ) == 0,
                forall|l: int|
                    0 <= l < self.layers@.len() && l != l2 as int ==> #[trigger] self.layers@[l]
                        == gl.layers@[l],
            decreases cn - b,
        {
            let q = chains[b][l2];
            let nbrs = &plans[b];
            let ghost gpre2 = *self;
            proof {
                assert(chains@[b as int]@[l2 as int] == q);
                assert((q as int) == lsizes0[l2 as int] + b);
                assert(!nbrs@.contains(q)) by {
                    if nbrs@.contains(q) {
                        let y = choose|y: int| 0 <= y < nbrs@.len() && nbrs@[y] == q;
                        assert((plans@[b as int]@[y] as int) < lsizes0[l2 as int]);
                    }
                }
                assert(self.layers@[l2 as int].deg(q as int) == 0);
            }
            insert_neighbors(&mut self.layers[l2], q, nbrs, self.max_connections);
            proof {
                let lnew = self.layers@[l2 as int];
                let lold = gpre2.layers@[l2 as int];
                assert forall|v: int|
                    0 <= v < lnew.spec_size() implies lnew.deg(v) <= mc as int by {
                    let vi = v as Idx;
                    if v == q as int {
                        assert(lnew.deg(v) <= lold.deg(v) + nbrs@.len());
                    } else if nbrs@.contains(vi) {
                        let y = choose|y: int| 0 <= y < nbrs@.len() && nbrs@[y] == vi;
                        assert(nbrs@[y] != q);
                        assert(lnew.deg(nbrs@[y] as int) <= mc as int);
                    } else {
                        assert(lold.valid(vi) && vi != q && !nbrs@.contains(vi));
                        assert(lnew.deg(v) <= lold.deg(v));
                        assert(lold.deg(v) <= mc as int);
                    }
                }
                assert forall|x: int|
                    b + 1 <= x < cn implies self.layers@[l2 as int].deg(
                        (#[trigger] chains@[x]@[l2 as int]) as int,
                    ) == 0 by {
                    let ci = chains@[x]@[l2 as int];
                    assert((ci as int) == lsizes0[l2 as int] + x);
                    assert(!nbrs@.contains(ci)) by {
                        if nbrs@.contains(ci) {
                            let y = choose|y: int| 0 <= y < nbrs@.len() && nbrs@[y] == ci;
                            assert((plans@[b as int]@[y] as int) < lsizes0[l2 as int]);
                        }
                    }
                    assert(ci != q);
                    assert(self.layers@[l2 as int].deg(ci as int) <= gpre2.layers@[l2
                        as int].deg(ci as int));
                }
            }
            b += 1;
        }
    }

    /// The base pass of the chunk integration: plan every member
    /// against the frozen base, then apply the plans in chunk order.
    #[verifier::loop_isolation(false)]
    #[verifier::rlimit(100)]
    #[verifier::spinoff_prover]
    fn chunk_base_pass(
        &mut self,
        chunk: &Vec<P>,
        base_idxs: &Vec<Idx>,
        eps: &Vec<Idx>,
        Ghost(size0): Ghost<int>,
        Ghost(old_region): Ghost<int>,
    )
        requires
            chunk@.len() == base_idxs@.len(),
            chunk@.len() == eps@.len(),
            forall|a: int|
                0 <= a < base_idxs@.len() ==> ((#[trigger] base_idxs@[a]) as int) == size0 + a,
            forall|a: int| 0 <= a < eps@.len() ==> ((#[trigger] eps@[a]) as int) < old_region,
            old_region <= size0,
            old(self).base.wf(),
            old(self).base.degrees_bounded(old(self).max_connections as int),
            old(self).base.spec_size() == size0 + base_idxs@.len(),
            forall|v: int|
                size0 <= v < old(self).base.spec_size() ==> old(self).base.deg(v) == 0,
            old(self).ef_construction >= 1,
            2 <= old(self).connections <= old(self).max_connections,
        ensures
            final(self).layers@ == old(self).layers@,
            final(self).ep == old(self).ep,
            final(self).ef_construction == old(self).ef_construction,
            final(self).connections == old(self).connections,
            final(self).max_connections == old(self).max_connections,
            final(self).base.wf(),
            final(self).base.degrees_bounded(old(self).max_connections as int),
            final(self).base.spec_nodes() == old(self).base.spec_nodes(),
    {
        let ghost mc = self.max_connections;
        let ghost gb0 = *self;
        let cn = chunk.len();
        let mut plans: Vec<Vec<Idx>> = Vec::new();
        let mut a: usize = 0;
        while a < cn
            invariant
                0 <= a <= cn,
                *self == gb0,
                plans@.len() == a,
                self.base.wf(),
                self.base.spec_size() == size0 + cn,
                old_region <= size0,
                eps@.len() == cn,
                forall|x: int| 0 <= x < cn ==> ((#[trigger] eps@[x]) as int) < old_region,
                forall|x: int, y: int|
                    0 <= x < a && 0 <= y < plans@[x]@.len() ==> ((#[trigger] plans@[x]@[y]) as int)
                        < size0,
                forall|x: int| 0 <= x < a ==> (#[trigger] plans@[x]@).no_duplicates(),
                forall|x: int|
                    0 <= x < a ==> 1 <= (#[trigger] plans@[x]@).len() <= self.connections,
                forall|v: int| size0 <= v < self.base.spec_size() ==> self.base.deg(v) == 0,
                self.ef_construction >= 1,
                2 <= self.connections <= self.max_connections,
            decreases cn - a,
        {
            let n2 = self.base.size();
            let mut visited = crate::bitset::BitSet::new(n2);
            let nbrs = search_select_neighbors(
                &self.base,
                &chunk[a],
                self.connections,
                self.ef_construction,
                eps[a],
                &mut visited,
            );
            proof {
                assert forall|y: int| 0 <= y < nbrs@.len() implies ((#[trigger] nbrs@[y]) as int)
                    < size0 by {
                    assert(nbrs@[y] == eps@[a as int] || self.base.deg(nbrs@[y] as int) > 0);
                    if (nbrs@[y] as int) >= size0 {
                        assert(self.base.deg(nbrs@[y] as int) == 0);
                        assert((eps@[a as int] as int) < old_region);
                    }
                }
            }
            plans.push(nbrs);
            a += 1;
        }
        let mut b: usize = 0;
        while b < cn
            invariant
                0 <= b <= cn,
                self.layers@.len() == gb0.layers@.len(),
                self.ep == gb0.ep,
                self.ef_construction == gb0.ef_construction,
                self.connections == gb0.connections,
                self.max_connections == gb0.max_connections,
                forall|l: int|
                    0 <= l < self.layers@.len() ==> #[trigger] self.layers@[l]
                        == gb0.layers@[l],
                plans@.len() == cn,
                base_idxs@.len() == cn,
                forall|x: int| 0 <= x < cn ==> (#[trigger] base_idxs@[x]) as int == size0 + x,
                forall|x: int, y: int|
                    0 <= x < cn && 0 <= y < plans@[x]@.len() ==> ((#[trigger] plans@[x]@[y]) as int)
                        < size0,
                forall|x: int| 0 <= x < cn ==> (#[trigger] plans@[x]@).no_duplicates(),
                forall|x: int|
                    0 <= x < cn ==> 1 <= (#[trigger] plans@[x]@).len() <= self.connections,
                self.base.wf(),
                self.base.degrees_bounded(mc as int),
                self.base.spec_nodes() == gb0.base.spec_nodes(),
                self.base.spec_size() == size0 + cn,
                forall|x: int|
                    b <= x < cn ==> self.base.deg((#[trigger] base_idxs@[x]) as int) == 0,
            decreases cn - b,
        {
            let q = base_idxs[b];
            let nbrs = &plans[b];
            let ghost gpre2 = *self;
            proof {
                assert(base_idxs@[b as int] == q);
                assert((q as int) == size0 + b);
                assert(!nbrs@.contains(q)) by {
                    if nbrs@.contains(q) {
                        let y = choose|y: int| 0 <= y < nbrs@.len() && nbrs@[y] == q;
                        assert((plans@[b as int]@[y] as int) < size0);
                    }
                }
                assert(self.base.deg(q as int) == 0);
            }
            insert_neighbors(&mut self.base, q, nbrs, self.max_connections);
            proof {
                assert forall|v: int|
                    0 <= v < self.base.spec_size() implies self.base.deg(v) <= mc as int by {
                    let vi = v as Idx;
                    if v == q as int {
                        assert(self.base.deg(v) <= gpre2.base.deg(v) + nbrs@.len());
                    } else if nbrs@.contains(vi) {
                        let y = choose|y: int| 0 <= y < nbrs@.len() && nbrs@[y] == vi;
                        assert(nbrs@[y] != q);
                        assert(self.base.deg(nbrs@[y] as int) <= mc as int);
                    } else {
                        assert(gpre2.base.valid(vi) && vi != q && !nbrs@.contains(vi));
                        assert(self.base.deg(v) <= gpre2.base.deg(v));
                        assert(gpre2.base.deg(v) <= mc as int);
                    }
                }
                assert forall|x: int|
                    b + 1 <= x < cn implies self.base.deg((#[trigger] base_idxs@[x]) as int)
                        == 0 by {
                    let ci = base_idxs@[x];
                    assert((ci as int) == size0 + x);
                    assert(!nbrs@.contains(ci)) by {
                        if nbrs@.contains(ci) {
                            let y = choose|y: int| 0 <= y < nbrs@.len() && nbrs@[y] == ci;
                            assert((plans@[b as int]@[y] as int) < size0);
                        }
                    }
                    assert(ci != q);
                    assert(self.base.deg(ci as int) <= gpre2.base.deg(ci as int));
                }
            }
            b += 1;
        }
    }

    /// Freeze the builder into an immutable index.
    pub fn build(self) -> (r: HNSWIndex<P>)
        requires
            self.wf(),
        ensures
            r.wf(),
            r.layers@ == self.spec_layers(),
            r.base == self.spec_base(),
            r.ep == self.spec_ep(),
    {
        HNSWIndex { layers: self.layers, base: self.base, ep: self.ep }
    }
}

/// Layer containment: in any well-formed builder state, a point at an
/// upper layer is also at the layer below, through its `down` pointer,
/// and every layer's degrees stay within the hard cap.
pub proof fn lemma_layer_containment<P: Point>(b: &HNSWBuilder<P>)
    requires
        b.wf(),
    ensures
        layered_wf(b.spec_layers(), b.spec_base(), b.spec_ep()),
        b.spec_base().degrees_bounded(b.spec_max_connections()),
        layers_bounded(b.spec_layers(), b.spec_max_connections()),
{
}

/// A frozen hierarchical index, ready to serialise or query.
pub struct HNSWIndex<P> {
    pub layers: Vec<SimpleGraph<(P, Idx)>>,
    pub base: SimpleGraph<P>,
    pub ep: Option<Idx>,
}

impl<P: Point> HNSWIndex<P> {
    /// The layered-graph invariant, including layer containment: a
    /// point at layer `L > 0` is also at layer `L - 1`, through its
    /// `down` pointer.
    pub open spec fn wf(&self) -> bool {
        layered_wf(self.layers@, self.base, self.ep)
    }

    pub fn size(&self) -> (r: usize)
        ensures
            r == self.base.spec_size(),
    {
        self.base.size()
    }

    /// Decide the layered-graph invariant by inspection — graphs,
    /// sizes, `down` pointers, stored points and the entry point — so
    /// untrusted data can be validated before use.
    #[verifier::loop_isolation(false)]
    #[verifier::rlimit(100)]
    #[verifier::spinoff_prover]
    pub fn check_wf(&self) -> (r: bool)
        ensures
            r == self.wf(),
    {
        if !self.base.check_wf() {
            return false;
        }
        let nl = self.layers.len();
        let mut i: usize = 0;
        while i < nl
            invariant
                0 <= i <= nl,
                nl == self.layers@.len(),
                self.base.wf(),
                forall|l: int| 0 <= l < i ==> (#[trigger] self.layers@[l]).wf(),
                forall|l: int| 0 <= l < i ==> (#[trigger] self.layers@[l]).spec_size() >= 1,
                forall|l: int|
                    0 <= l < i ==> (#[trigger] self.layers@[l]).spec_size() <= (if l == 0 {
                        self.base.spec_size()
                    } else {
                        self.layers@[l - 1].spec_size()
                    }),
                forall|l: int, v: int|
                    0 <= l < i && 0 <= v < self.layers@[l].spec_size() ==> {
                        let down = (#[trigger] self.layers@[l].spec_nodes()[v]).1 as int;
                        &&& down < (if l == 0 {
                            self.base.spec_size()
                        } else {
                            self.layers@[l - 1].spec_size()
                        })
                        &&& self.layers@[l].spec_nodes()[v].0 == (if l == 0 {
                            self.base.spec_nodes()[down]
                        } else {
                            self.layers@[l - 1].spec_nodes()[down].0
                        })
                    },
            decreases nl - i,
        {
            if !self.layers[i].check_wf() {
                return false;
            }
            let sz = self.layers[i].size();
            if sz == 0 {
                return false;
            }
            let lower_sz = if i == 0 {
                self.base.size()
            } else {
                self.layers[i - 1].size()
            };
            if sz > lower_sz {
                return false;
            }
            let mut v: usize = 0;
            while v < sz
                invariant
                    0 <= v <= sz,
                    i < nl,
                    sz == self.layers@[i as int].spec_size(),
                    lower_sz as int == (if i == 0 {
                        self.base.spec_size()
                    } else {
                        self.layers@[i as int - 1].spec_size()
                    }),
                    forall|t: int|
                        0 <= t < v ==> {
                            let down = (#[trigger] self.layers@[i as int].spec_nodes()[t]).1
                                as int;
                            &&& down < lower_sz as int
                            &&& self.layers@[i as int].spec_nodes()[t].0 == (if i == 0 {
                                self.base.spec_nodes()[down]
                            } else {
                                self.layers@[i as int - 1].spec_nodes()[down].0
                            })
                        },
                decreases sz - v,
            {
                let down = self.layers[i].nodes()[v].1;
                if (down as usize) >= lower_sz {
                    return false;
                }
                let pt_ok = if i == 0 {
                    self.layers[i].nodes()[v].0.eq_point(&self.base.nodes()[down as usize])
                } else {
                    self.layers[i].nodes()[v].0.eq_point(
                        &self.layers[i - 1].nodes()[down as usize].0,
                    )
                };
                if !pt_ok {
                    return false;
                }
                v += 1;
            }
            i += 1;
        }
        match self.ep {
            Some(e) => self.base.size() > 0 && (e as usize) < (if nl > 0 {
                self.layers[nl - 1].size()
            } else {
                self.base.size()
            }),
            None => self.base.size() == 0 && nl == 0,
        }
    }
}

/// A queryable hierarchical index.
pub struct HNSW<P> {
    layers: Vec<SimpleGraph<(P, Idx)>>,
    base: SimpleGraph<P>,
    ep: Option<Idx>,
}

impl<P: Point> HNSW<P> {
    pub closed spec fn spec_layers(&self) -> Seq<SimpleGraph<(P, Idx)>> {
        self.layers@
    }

    pub closed spec fn spec_base(&self) -> SimpleGraph<P> {
        self.base
    }

    pub closed spec fn spec_ep(&self) -> Option<Idx> {
        self.ep
    }

    pub closed spec fn wf(&self) -> bool {
        layered_wf(self.layers@, self.base, self.ep)
    }

    /// Thaw a frozen index for querying.
    pub fn from_index(value: HNSWIndex<P>) -> (r: Self)
        requires
            value.wf(),
        ensures
            r.wf(),
            r.spec_layers() == value.layers@,
            r.spec_base() == value.base,
            r.spec_ep() == value.ep,
    {
        HNSW { layers: value.layers, base: value.base, ep: value.ep }
    }

    pub fn size(&self) -> (r: usize)
        ensures
            r == self.spec_base().spec_size(),
    {
        self.base.size()
    }

    /// Top-k query: descend the upper layers with a beam of one to a
    /// base entry point, then beam-search the base with a beam of at
    /// least `k` and return the `k` nearest records in ascending
    /// `(distance, key)` order.  An empty index, or `k` of zero, gives
    /// an empty result.  The result is a function of the index and the
    /// query alone: repeating a query returns identical records.
    pub fn search(&self, query: &P, k: usize, ef: usize) -> (r: Vec<Distance<P>>)
        requires
            self.wf(),
        ensures
            ({
                let recs = hnsw_search_recs(
                    self.spec_layers(),
                    self.spec_base(),
                    self.spec_ep(),
                    *query,
                    k as int,
                    ef as int,
                );
                &&& r@.len() == recs.len()
                &&& forall|i: int|
                    0 <= i < recs.len() ==> (#[trigger] r@[i]).distance == recs[i].0
                        && r@[i].key == recs[i].1 && r@[i].point
                        == self.spec_base().spec_nodes()[recs[i].1 as int]
            }),
            r@.len() <= k,
            self.spec_ep() is Some && k >= 1 ==> r@.len() >= 1,
            forall|i: int, j: int|
                0 <= i <= j < r@.len() ==> (#[trigger] r@[i]).distance <= (
                #[trigger] r@[j]).distance,
            forall|i: int, j: int|
                0 <= i < j < r@.len() ==> (#[trigger] r@[i]).key != (#[trigger] r@[j]).key,
    {
        let e = match self.ep {
            Some(e) => e,
            None => {
                return Vec::new();
            },
        };
        let b = descend_layers(
            &self.layers,
            query,
            0,
            e,
            Ghost(self.base.spec_size()),
        );
        proof {
            if self.layers@.len() == 0 {
                assert(b == e);
                assert((b as int) < self.base.spec_size());
            }
        }
        search_flat(&self.base, Some(b), query, k, ef)
    }
}

/// Relies on `rand::random`: one uniformly random 64-bit word.
/// Nothing is promised of the value.
#[verifier::external_body]
fn draw_u64() -> u64 {
    rand::random::<u64>()
}

/// Draw an insertion level: count how many successive draws land in
/// the lowest `1/m` slice of the 64-bit range, giving a geometric
/// distribution with decay `m`, capped at 64.
#[verifier::loop_isolation(false)]
pub fn random_level(m: usize) -> (l: usize)
    requires
        m >= 2,
    ensures
        l <= 64,
{
    let threshold = u64::MAX / (m as u64);
    let mut l: usize = 0;
    let mut stop = false;
    while !stop && l < 64
        invariant
            l <= 64,
        decreases (if stop {
            0int
        } else {
            1int
        }), 64 - l,
    {
        let u = draw_u64();
        if u < threshold {
            l += 1;
        } else {
            stop = true;
        }
    }
    l
}

} // verus!
