//! A word-stream codec for sketch indexes.
//!
//! An index serialises to a sequence of 64-bit words: the entry point,
//! then the base nodes in identifier order with their adjacency sets,
//! then each upper layer with its nodes and `down` pointers and their
//! adjacency sets.  Decoding checks the framing and rejects malformed
//! input; decoding an encoding restores exactly the encoded index's
//! entry point, nodes and adjacency lists
//! ([`lemma_codec_round_trip`]).  Writing the words to storage is the
//! caller's business.

use vstd::prelude::*;

use crate::hnsw::hnsw_search_recs;
use crate::hnsw::lemma_hnsw_search_cong;
use crate::hnsw::same_layers_views;
use crate::hnsw::HNSWIndex;
use crate::nsw::same_graph_views;
use crate::point::Sketch;
use crate::simplegraph::Idx;
use crate::simplegraph::SimpleGraph;

verus! {

/// One adjacency list: its length, then its entries.
pub open spec fn enc_list(l: Seq<Idx>) -> Seq<u64> {
    seq![l.len() as u64] + l.map_values(|x: Idx| x as u64)
}

/// All adjacency lists, in identifier order.
pub open spec fn enc_adjs(a: Seq<Seq<Idx>>) -> Seq<u64>
    decreases a.len(),
{
    if a.len() == 0 {
        Seq::empty()
    } else {
        enc_adjs(a.drop_last()) + enc_list(a.last())
    }
}

/// A sketch: its sixteen words.
pub open spec fn enc_sketch(s: Sketch) -> Seq<u64> {
    s.data@
}

/// Base nodes, in identifier order.
pub open spec fn enc_base_nodes(ns: Seq<Sketch>) -> Seq<u64>
    decreases ns.len(),
{
    if ns.len() == 0 {
        Seq::empty()
    } else {
        enc_base_nodes(ns.drop_last()) + enc_sketch(ns.last())
    }
}

/// Layer nodes: each sketch followed by its `down` pointer.
pub open spec fn enc_layer_nodes(ns: Seq<(Sketch, Idx)>) -> Seq<u64>
    decreases ns.len(),
{
    if ns.len() == 0 {
        Seq::empty()
    } else {
        enc_layer_nodes(ns.drop_last()) + enc_sketch(ns.last().0) + seq![ns.last().1 as u64]
    }
}

/// A base graph: its size, its nodes, its adjacency lists.
pub open spec fn enc_base(g: SimpleGraph<Sketch>) -> Seq<u64> {
    seq![g.spec_nodes().len() as u64] + enc_base_nodes(g.spec_nodes()) + enc_adjs(
        g.adj_lists@.map_values(|v: Vec<Idx>| v@),
    )
}

/// An upper layer: its size, its nodes with `down` pointers, its
/// adjacency lists.
pub open spec fn enc_layer(g: SimpleGraph<(Sketch, Idx)>) -> Seq<u64> {
    seq![g.spec_nodes().len() as u64] + enc_layer_nodes(g.spec_nodes()) + enc_adjs(
        g.adj_lists@.map_values(|v: Vec<Idx>| v@),
    )
}

/// The upper layers, bottom-most first.
pub open spec fn enc_layers(ls: Seq<SimpleGraph<(Sketch, Idx)>>) -> Seq<u64>
    decreases ls.len(),
{
    if ls.len() == 0 {
        Seq::empty()
    } else {
        enc_layers(ls.drop_last()) + enc_layer(ls.last())
    }
}

/// The whole index: entry point, base, layer count, layers.
pub open spec fn enc_index(x: HNSWIndex<Sketch>) -> Seq<u64> {
    let ep = match x.ep {
        Some(e) => seq![1u64, e as u64],
        None => seq![0u64, 0u64],
    };
    ep + enc_base(x.base) + seq![x.layers@.len() as u64] + enc_layers(
        x.layers@.map_values(|g: SimpleGraph<(Sketch, Idx)>| g),
    )
}

/// An index is encodable when every count fits the wire format.
pub open spec fn encodable(x: HNSWIndex<Sketch>) -> bool {
    &&& x.base.spec_nodes().len() == x.base.adj_lists@.len()
    &&& x.base.spec_nodes().len() <= 0xffff_ffff
    &&& x.layers@.len() <= 0xffff_ffff
    &&& forall|i: int|
        0 <= i < x.layers@.len() ==> (#[trigger] x.layers@[i]).spec_nodes().len()
            == x.layers@[i].adj_lists@.len() && x.layers@[i].spec_nodes().len() <= 0xffff_ffff
    &&& forall|v: int|
        0 <= v < x.base.adj_lists@.len() ==> (#[trigger] x.base.adj_lists@[v])@.len()
            <= 0xffff_ffff
    &&& forall|i: int, v: int|
        0 <= i < x.layers@.len() && 0 <= v < x.layers@[i].adj_lists@.len() ==> (
        #[trigger] x.layers@[i].adj_lists@[v])@.len() <= 0xffff_ffff
}

/// Serialise an index to words.
#[verifier::loop_isolation(false)]
pub fn encode_index(x: &HNSWIndex<Sketch>) -> (r: Vec<u64>)
    requires
        encodable(*x),
    ensures
        r@ == enc_index(*x),
{
    let mut out: Vec<u64> = Vec::new();
    match x.ep {
        Some(e) => {
            out.push(1);
            out.push(e as u64);
        },
        None => {
            out.push(0);
            out.push(0);
        },
    }
    proof {
        assert(out@ =~= (match x.ep {
            Some(e) => seq![1u64, e as u64],
            None => seq![0u64, 0u64],
        }));
    }
    encode_base(&x.base, &mut out);
    out.push(x.layers.len() as u64);
    let ghost pre = out@;
    let ghost lsv = x.layers@.map_values(|g: SimpleGraph<(Sketch, Idx)>| g);
    let mut i: usize = 0;
    while i < x.layers.len()
        invariant
            0 <= i <= x.layers@.len(),
            out@ == pre + enc_layers(lsv.take(i as int)),
        decreases x.layers@.len() - i,
    {
        encode_layer(&x.layers[i], &mut out);
        proof {
            assert(lsv.take(i + 1).drop_last() =~= lsv.take(i as int));
            assert(lsv.take(i + 1).last() == x.layers@[i as int]);
        }
        i += 1;
    }
    proof {
        assert(lsv.take(x.layers@.len() as int) =~= lsv);
        assert(out@ =~= enc_index(*x));
    }
    out
}

/// Append a base graph's encoding.
#[verifier::loop_isolation(false)]
fn encode_base(g: &SimpleGraph<Sketch>, out: &mut Vec<u64>)
    requires
        g.spec_nodes().len() == g.adj_lists@.len(),
        g.spec_nodes().len() <= 0xffff_ffff,
        forall|v: int|
            0 <= v < g.adj_lists@.len() ==> (#[trigger] g.adj_lists@[v])@.len() <= 0xffff_ffff,
    ensures
        final(out)@ == old(out)@ + enc_base(*g),
{
    let n = g.nodes().len();
    out.push(n as u64);
    let ghost pre = out@;
    let mut i: usize = 0;
    while i < n
        invariant
            0 <= i <= n,
            n == g.spec_nodes().len(),
            out@ == pre + enc_base_nodes(g.spec_nodes().take(i as int)),
        decreases n - i,
    {
        let s = &g.nodes()[i];
        let mut w: usize = 0;
        while w < 16
            invariant
                0 <= w <= 16,
                out@ == pre + enc_base_nodes(g.spec_nodes().take(i as int)) + s.data@.take(
                    w as int,
                ),
            decreases 16 - w,
        {
            out.push(s.data[w]);
            proof {
                assert(s.data@.take(w + 1) =~= s.data@.take(w as int).push(s.data@[w as int]));
            }
            w += 1;
        }
        proof {
            assert(s.data@.take(16) =~= s.data@);
            assert(g.spec_nodes().take(i + 1).drop_last() =~= g.spec_nodes().take(i as int));
            assert(g.spec_nodes().take(i + 1).last() == g.spec_nodes()[i as int]);
            assert(pre + enc_base_nodes(g.spec_nodes().take(i + 1)) =~= pre + enc_base_nodes(
                g.spec_nodes().take(i as int),
            ) + s.data@);
        }
        i += 1;
    }
    proof {
        assert(g.spec_nodes().take(n as int) =~= g.spec_nodes());
    }
    encode_adjs(g.adj_lists(), out);
    proof {
        assert(final(out)@ =~= old(out)@ + enc_base(*g));
    }
}

/// Append an upper layer's encoding.
#[verifier::loop_isolation(false)]
fn encode_layer(g: &SimpleGraph<(Sketch, Idx)>, out: &mut Vec<u64>)
    requires
        g.spec_nodes().len() == g.adj_lists@.len(),
        g.spec_nodes().len() <= 0xffff_ffff,
        forall|v: int|
            0 <= v < g.adj_lists@.len() ==> (#[trigger] g.adj_lists@[v])@.len() <= 0xffff_ffff,
    ensures
        final(out)@ == old(out)@ + enc_layer(*g),
{
    let n = g.nodes().len();
    out.push(n as u64);
    let ghost pre = out@;
    let mut i: usize = 0;
    while i < n
        invariant
            0 <= i <= n,
            n == g.spec_nodes().len(),
            out@ == pre + enc_layer_nodes(g.spec_nodes().take(i as int)),
        decreases n - i,
    {
        let s = &g.nodes()[i].0;
        let down = g.nodes()[i].1;
        let mut w: usize = 0;
        while w < 16
            invariant
                0 <= w <= 16,
                out@ == pre + enc_layer_nodes(g.spec_nodes().take(i as int)) + s.data@.take(
                    w as int,
                ),
            decreases 16 - w,
        {
            out.push(s.data[w]);
            proof {
                assert(s.data@.take(w + 1) =~= s.data@.take(w as int).push(s.data@[w as int]));
            }
            w += 1;
        }
        out.push(down as u64);
        proof {
            assert(s.data@.take(16) =~= s.data@);
            assert(g.spec_nodes().take(i + 1).drop_last() =~= g.spec_nodes().take(i as int));
            assert(g.spec_nodes().take(i + 1).last() == g.spec_nodes()[i as int]);
            assert(pre + enc_layer_nodes(g.spec_nodes().take(i + 1)) =~= pre + enc_layer_nodes(
                g.spec_nodes().take(i as int),
            ) + s.data@ + seq![down as u64]);
        }
        i += 1;
    }
    proof {
        assert(g.spec_nodes().take(n as int) =~= g.spec_nodes());
    }
    encode_adjs(g.adj_lists(), out);
    proof {
        assert(final(out)@ =~= old(out)@ + enc_layer(*g));
    }
}

/// Append every adjacency list's encoding.
#[verifier::loop_isolation(false)]
fn encode_adjs(adj: &Vec<Vec<Idx>>, out: &mut Vec<u64>)
    requires
        forall|v: int| 0 <= v < adj@.len() ==> (#[trigger] adj@[v])@.len() <= 0xffff_ffff,
    ensures
        final(out)@ == old(out)@ + enc_adjs(adj@.map_values(|v: Vec<Idx>| v@)),
{
    let ghost av = adj@.map_values(|v: Vec<Idx>| v@);
    let ghost pre = out@;
    let n = adj.len();
    let mut i: usize = 0;
    while i < n
        invariant
            0 <= i <= n,
            n == av.len(),
            out@ == pre + enc_adjs(av.take(i as int)),
        decreases n - i,
    {
        let l = &adj[i];
        out.push(l.len() as u64);
        let m = l.len();
        let mut j: usize = 0;
        while j < m
            invariant
                0 <= j <= m,
                m == l@.len(),
                out@ == pre + enc_adjs(av.take(i as int)) + seq![l@.len() as u64] + l@.map_values(
                    |x: Idx| x as u64,
                ).take(j as int),
            decreases m - j,
        {
            out.push(l[j] as u64);
            proof {
                let lm = l@.map_values(|x: Idx| x as u64);
                assert(lm.take(j + 1) =~= lm.take(j as int).push(lm[j as int]));
            }
            j += 1;
        }
        proof {
            let lm = l@.map_values(|x: Idx| x as u64);
            assert(lm.take(m as int) =~= lm);
            assert(av.take(i + 1).drop_last() =~= av.take(i as int));
            assert(av.take(i + 1).last() == av[i as int]);
            assert(av[i as int] == l@);
            assert(pre + enc_adjs(av.take(i + 1)) =~= pre + enc_adjs(av.take(i as int)) + seq![
                l@.len() as u64,
            ] + lm);
        }
        i += 1;
    }
    proof {
        assert(av.take(n as int) =~= av);
    }
}

/// Read `n` identifiers from `p` on.
pub open spec fn dec_items(w: Seq<u64>, p: int, n: nat) -> Option<(Seq<Idx>, int)>
    decreases n,
{
    if n == 0 {
        Some((Seq::empty(), p))
    } else if 0 <= p < w.len() && w[p] <= 0xffff_ffff {
        match dec_items(w, p + 1, (n - 1) as nat) {
            Some((rest, q)) => Some((seq![w[p] as Idx] + rest, q)),
            None => None,
        }
    } else {
        None
    }
}

/// Read one length-prefixed identifier list.
pub open spec fn dec_list(w: Seq<u64>, p: int) -> Option<(Seq<Idx>, int)> {
    if 0 <= p < w.len() && w[p] <= 0xffff_ffff {
        dec_items(w, p + 1, w[p] as nat)
    } else {
        None
    }
}

/// Read `n` adjacency lists.
pub open spec fn dec_adjs(w: Seq<u64>, p: int, n: nat) -> Option<(Seq<Seq<Idx>>, int)>
    decreases n,
{
    if n == 0 {
        Some((Seq::empty(), p))
    } else {
        match dec_list(w, p) {
            Some((l, q)) => match dec_adjs(w, q, (n - 1) as nat) {
                Some((ls, r)) => Some((seq![l] + ls, r)),
                None => None,
            },
            None => None,
        }
    }
}

/// Read one sketch: sixteen words.
pub open spec fn dec_sketch(w: Seq<u64>, p: int) -> Option<(Sketch, int)> {
    if 0 <= p && p + 16 <= w.len() {
        Some(
            (
                Sketch {
                    data: [
                        w[p],
                        w[p + 1],
                        w[p + 2],
                        w[p + 3],
                        w[p + 4],
                        w[p + 5],
                        w[p + 6],
                        w[p + 7],
                        w[p + 8],
                        w[p + 9],
                        w[p + 10],
                        w[p + 11],
                        w[p + 12],
                        w[p + 13],
                        w[p + 14],
                        w[p + 15],
                    ],
                },
                p + 16,
            ),
        )
    } else {
        None
    }
}

/// Read `n` base nodes.
pub open spec fn dec_base_nodes(w: Seq<u64>, p: int, n: nat) -> Option<(Seq<Sketch>, int)>
    decreases n,
{
    if n == 0 {
        Some((Seq::empty(), p))
    } else {
        match dec_sketch(w, p) {
            Some((s, q)) => match dec_base_nodes(w, q, (n - 1) as nat) {
                Some((ns, r)) => Some((seq![s] + ns, r)),
                None => None,
            },
            None => None,
        }
    }
}

/// Read `n` layer nodes: a sketch and a `down` pointer each.
pub open spec fn dec_layer_nodes(w: Seq<u64>, p: int, n: nat) -> Option<(Seq<(Sketch, Idx)>, int)>
    decreases n,
{
    if n == 0 {
        Some((Seq::empty(), p))
    } else {
        match dec_sketch(w, p) {
            Some((s, q)) => {
                if 0 <= q < w.len() && w[q] <= 0xffff_ffff {
                    match dec_layer_nodes(w, q + 1, (n - 1) as nat) {
                        Some((ns, r)) => Some((seq![(s, w[q] as Idx)] + ns, r)),
                        None => None,
                    }
                } else {
                    None
                }
            },
            None => None,
        }
    }
}

/// A decoded base graph: its nodes and adjacency lists.
pub open spec fn dec_base(w: Seq<u64>, p: int) -> Option<((Seq<Sketch>, Seq<Seq<Idx>>), int)> {
    if 0 <= p < w.len() && w[p] <= 0xffff_ffff {
        match dec_base_nodes(w, p + 1, w[p] as nat) {
            Some((ns, q)) => match dec_adjs(w, q, w[p] as nat) {
                Some((adjs, r)) => Some(((ns, adjs), r)),
                None => None,
            },
            None => None,
        }
    } else {
        None
    }
}

/// A decoded upper layer: its nodes and adjacency lists.
pub open spec fn dec_layer(w: Seq<u64>, p: int) -> Option<
    ((Seq<(Sketch, Idx)>, Seq<Seq<Idx>>), int),
> {
    if 0 <= p < w.len() && w[p] <= 0xffff_ffff {
        match dec_layer_nodes(w, p + 1, w[p] as nat) {
            Some((ns, q)) => match dec_adjs(w, q, w[p] as nat) {
                Some((adjs, r)) => Some(((ns, adjs), r)),
                None => None,
            },
            None => None,
        }
    } else {
        None
    }
}

/// Read `n` layers.
pub open spec fn dec_layers(w: Seq<u64>, p: int, n: nat) -> Option<
    (Seq<(Seq<(Sketch, Idx)>, Seq<Seq<Idx>>)>, int),
>
    decreases n,
{
    if n == 0 {
        Some((Seq::empty(), p))
    } else {
        match dec_layer(w, p) {
            Some((l, q)) => match dec_layers(w, q, (n - 1) as nat) {
                Some((ls, r)) => Some((seq![l] + ls, r)),
                None => None,
            },
            None => None,
        }
    }
}

/// What a word stream decodes to: the entry point, the base graph's
/// nodes and adjacency, and each layer's nodes and adjacency.  The
/// whole stream must be consumed.
pub open spec fn dec_index(w: Seq<u64>) -> Option<
    (Option<Idx>, (Seq<Sketch>, Seq<Seq<Idx>>), Seq<(Seq<(Sketch, Idx)>, Seq<Seq<Idx>>)>),
> {
    if w.len() >= 2 && (w[0] == 0 || w[0] == 1) && w[1] <= 0xffff_ffff {
        let ep = if w[0] == 1 {
            Some(w[1] as Idx)
        } else {
            None
        };
        match dec_base(w, 2) {
            Some((base, q)) => {
                if 0 <= q < w.len() && w[q] <= 0xffff_ffff {
                    match dec_layers(w, q + 1, w[q] as nat) {
                        Some((layers, r)) => {
                            if r == w.len() {
                                Some((ep, base, layers))
                            } else {
                                None
                            }
                        },
                        None => None,
                    }
                } else {
                    None
                }
            },
            None => None,
        }
    } else {
        None
    }
}

/// `e` appears in `w` starting at `p`.
pub open spec fn seg(w: Seq<u64>, p: int, e: Seq<u64>) -> bool {
    &&& 0 <= p
    &&& p + e.len() <= w.len()
    &&& forall|k: int| 0 <= k < e.len() ==> w[p + k] == #[trigger] e[k]
}

proof fn lemma_seg_split(w: Seq<u64>, p: int, x: Seq<u64>, y: Seq<u64>)
    requires
        seg(w, p, x + y),
    ensures
        seg(w, p, x),
        seg(w, p + x.len(), y),
{
    assert forall|k: int| 0 <= k < x.len() implies w[p + k] == #[trigger] x[k] by {
        assert((x + y)[k] == x[k]);
    }
    assert forall|k: int| 0 <= k < y.len() implies w[p + x.len() + k] == #[trigger] y[k] by {
        assert((x + y)[x.len() + k] == y[k]);
    }
}

proof fn lemma_enc_adjs_first(a: Seq<Seq<Idx>>)
    requires
        a.len() > 0,
    ensures
        enc_adjs(a) == enc_list(a[0]) + enc_adjs(a.drop_first()),
    decreases a.len(),
{
    if a.len() == 1 {
        assert(a.drop_last().len() == 0);
        assert(a.drop_first().len() == 0);
        assert(a.last() == a[0]);
        assert(enc_adjs(a) == enc_adjs(a.drop_last()) + enc_list(a.last()));
        assert(enc_adjs(a.drop_last()) =~= Seq::<u64>::empty());
        assert(enc_adjs(a.drop_first()) =~= Seq::<u64>::empty());
        assert(enc_adjs(a) =~= enc_list(a[0]) + enc_adjs(a.drop_first()));
    } else {
        lemma_enc_adjs_first(a.drop_last());
        assert(a.drop_last()[0] == a[0]);
        assert(a.drop_last().drop_first() =~= a.drop_first().drop_last());
        assert(a.drop_first().last() == a.last());
        assert(enc_adjs(a) == enc_adjs(a.drop_last()) + enc_list(a.last()));
        assert(enc_adjs(a.drop_first()) == enc_adjs(a.drop_first().drop_last()) + enc_list(
            a.drop_first().last(),
        ));
        assert(enc_adjs(a) =~= enc_list(a[0]) + enc_adjs(a.drop_first()));
    }
}

proof fn lemma_enc_base_nodes_first(ns: Seq<Sketch>)
    requires
        ns.len() > 0,
    ensures
        enc_base_nodes(ns) == enc_sketch(ns[0]) + enc_base_nodes(ns.drop_first()),
    decreases ns.len(),
{
    if ns.len() == 1 {
        assert(ns.last() == ns[0]);
        assert(enc_base_nodes(ns) == enc_base_nodes(ns.drop_last()) + enc_sketch(ns.last()));
        assert(ns.drop_last().len() == 0 && ns.drop_first().len() == 0);
        assert(enc_base_nodes(ns) =~= enc_sketch(ns[0]) + enc_base_nodes(ns.drop_first()));
    } else {
        lemma_enc_base_nodes_first(ns.drop_last());
        assert(ns.drop_last()[0] == ns[0]);
        assert(ns.drop_last().drop_first() =~= ns.drop_first().drop_last());
        assert(ns.drop_first().last() == ns.last());
        assert(enc_base_nodes(ns.drop_first()) == enc_base_nodes(ns.drop_first().drop_last())
            + enc_sketch(ns.drop_first().last()));
        assert(enc_base_nodes(ns) =~= enc_sketch(ns[0]) + enc_base_nodes(ns.drop_first()));
    }
}

proof fn lemma_enc_layer_nodes_first(ns: Seq<(Sketch, Idx)>)
    requires
        ns.len() > 0,
    ensures
        enc_layer_nodes(ns) == enc_sketch(ns[0].0) + seq![ns[0].1 as u64] + enc_layer_nodes(
            ns.drop_first(),
        ),
    decreases ns.len(),
{
    if ns.len() == 1 {
        assert(ns.last() == ns[0]);
        assert(enc_layer_nodes(ns) == enc_layer_nodes(ns.drop_last()) + enc_sketch(ns.last().0)
            + seq![ns.last().1 as u64]);
        assert(ns.drop_last().len() == 0 && ns.drop_first().len() == 0);
        assert(enc_layer_nodes(ns) =~= enc_sketch(ns[0].0) + seq![ns[0].1 as u64]
            + enc_layer_nodes(ns.drop_first()));
    } else {
        lemma_enc_layer_nodes_first(ns.drop_last());
        assert(ns.drop_last()[0] == ns[0]);
        assert(ns.drop_last().drop_first() =~= ns.drop_first().drop_last());
        assert(ns.drop_first().last() == ns.last());
        assert(enc_layer_nodes(ns.drop_first()) == enc_layer_nodes(ns.drop_first().drop_last())
            + enc_sketch(ns.drop_first().last().0) + seq![ns.drop_first().last().1 as u64]);
        assert(enc_layer_nodes(ns) =~= enc_sketch(ns[0].0) + seq![ns[0].1 as u64]
            + enc_layer_nodes(ns.drop_first()));
    }
}

proof fn lemma_enc_layers_first(ls: Seq<SimpleGraph<(Sketch, Idx)>>)
    requires
        ls.len() > 0,
    ensures
        enc_layers(ls) == enc_layer(ls[0]) + enc_layers(ls.drop_first()),
    decreases ls.len(),
{
    if ls.len() == 1 {
        assert(ls.last() == ls[0]);
        assert(enc_layers(ls) == enc_layers(ls.drop_last()) + enc_layer(ls.last()));
        assert(ls.drop_last().len() == 0 && ls.drop_first().len() == 0);
        assert(enc_layers(ls) =~= enc_layer(ls[0]) + enc_layers(ls.drop_first()));
    } else {
        lemma_enc_layers_first(ls.drop_last());
        assert(ls.drop_last()[0] == ls[0]);
        assert(ls.drop_last().drop_first() =~= ls.drop_first().drop_last());
        assert(ls.drop_first().last() == ls.last());
        assert(enc_layers(ls.drop_first()) == enc_layers(ls.drop_first().drop_last()) + enc_layer(
            ls.drop_first().last(),
        ));
        assert(enc_layers(ls) =~= enc_layer(ls[0]) + enc_layers(ls.drop_first()));
    }
}

proof fn lemma_dec_items_rt(l: Seq<Idx>, w: Seq<u64>, p: int)
    requires
        seg(w, p, l.map_values(|x: Idx| x as u64)),
    ensures
        dec_items(w, p, l.len()) == Some((l, p + l.len())),
    decreases l.len(),
{
    let lm = l.map_values(|x: Idx| x as u64);
    if l.len() > 0 {
        assert(w[p] == lm[0]);
        assert(lm[0] == l[0] as u64);
        assert(w[p] <= 0xffff_ffff);
        assert(w[p] as Idx == l[0]);
        let l1 = l.drop_first();
        assert(seg(w, p + 1, l1.map_values(|x: Idx| x as u64))) by {
            let lm1 = l1.map_values(|x: Idx| x as u64);
            assert forall|k: int| 0 <= k < lm1.len() implies w[p + 1 + k] == #[trigger] lm1[k] by {
                assert(lm[k + 1] == lm1[k]);
            }
        }
        lemma_dec_items_rt(l1, w, p + 1);
        assert(seq![l[0]] + l1 =~= l);
    }
}

proof fn lemma_dec_list_rt(l: Seq<Idx>, w: Seq<u64>, p: int)
    requires
        l.len() <= 0xffff_ffff,
        seg(w, p, enc_list(l)),
    ensures
        dec_list(w, p) == Some((l, p + enc_list(l).len())),
{
    let lm = l.map_values(|x: Idx| x as u64);
    lemma_seg_split(w, p, seq![l.len() as u64], lm);
    assert(w[p] == seq![l.len() as u64][0]);
    lemma_dec_items_rt(l, w, p + 1);
}

proof fn lemma_dec_adjs_rt(a: Seq<Seq<Idx>>, w: Seq<u64>, p: int)
    requires
        forall|i: int| 0 <= i < a.len() ==> (#[trigger] a[i]).len() <= 0xffff_ffff,
        seg(w, p, enc_adjs(a)),
    ensures
        dec_adjs(w, p, a.len()) == Some((a, p + enc_adjs(a).len())),
    decreases a.len(),
{
    if a.len() > 0 {
        lemma_enc_adjs_first(a);
        lemma_seg_split(w, p, enc_list(a[0]), enc_adjs(a.drop_first()));
        lemma_dec_list_rt(a[0], w, p);
        let a1 = a.drop_first();
        assert(forall|i: int| 0 <= i < a1.len() ==> (#[trigger] a1[i]).len() <= 0xffff_ffff) by {
            assert(forall|i: int| 0 <= i < a1.len() ==> a1[i] == a[i + 1]);
        }
        lemma_dec_adjs_rt(a1, w, p + enc_list(a[0]).len());
        assert(seq![a[0]] + a1 =~= a);
    }
}

proof fn lemma_dec_sketch_rt(s: Sketch, w: Seq<u64>, p: int)
    requires
        seg(w, p, enc_sketch(s)),
    ensures
        dec_sketch(w, p) == Some((s, p + 16)),
{
    broadcast use vstd::array::group_array_axioms;

    let r = dec_sketch(w, p);
    assert(s.data@.len() == 16);
    assert(r is Some);
    let s2 = (r->0).0;
    assert forall|k: int| 0 <= k < 16 implies s2.data@[k] == s.data@[k] by {
        assert(w[p + k] == s.data@[k]);
    }
    assert(s2.data@ =~= s.data@);
    assert(s2.data == s.data);
    assert(s2 == s);
}

proof fn lemma_dec_base_nodes_rt(ns: Seq<Sketch>, w: Seq<u64>, p: int)
    requires
        seg(w, p, enc_base_nodes(ns)),
    ensures
        dec_base_nodes(w, p, ns.len()) == Some((ns, p + enc_base_nodes(ns).len())),
    decreases ns.len(),
{
    if ns.len() > 0 {
        lemma_enc_base_nodes_first(ns);
        lemma_seg_split(w, p, enc_sketch(ns[0]), enc_base_nodes(ns.drop_first()));
        lemma_dec_sketch_rt(ns[0], w, p);
        lemma_dec_base_nodes_rt(ns.drop_first(), w, p + 16);
        assert(seq![ns[0]] + ns.drop_first() =~= ns);
    }
}

proof fn lemma_dec_layer_nodes_rt(ns: Seq<(Sketch, Idx)>, w: Seq<u64>, p: int)
    requires
        seg(w, p, enc_layer_nodes(ns)),
    ensures
        dec_layer_nodes(w, p, ns.len()) == Some((ns, p + enc_layer_nodes(ns).len())),
    decreases ns.len(),
{
    if ns.len() > 0 {
        lemma_enc_layer_nodes_first(ns);
        lemma_seg_split(
            w,
            p,
            enc_sketch(ns[0].0) + seq![ns[0].1 as u64],
            enc_layer_nodes(ns.drop_first()),
        );
        lemma_seg_split(w, p, enc_sketch(ns[0].0), seq![ns[0].1 as u64]);
        lemma_dec_sketch_rt(ns[0].0, w, p);
        assert(enc_sketch(ns[0].0).len() == 16);
        assert(seq![ns[0].1 as u64][0] == ns[0].1 as u64);
        assert(w[p + 16] == ns[0].1 as u64);
        lemma_dec_layer_nodes_rt(ns.drop_first(), w, p + 17);
        assert((ns[0].0, w[p + 16] as Idx) == ns[0]);
        assert(seq![ns[0]] + ns.drop_first() =~= ns);
    }
}

/// The view of one graph for decoding purposes.
pub open spec fn adjs_view<T>(g: SimpleGraph<T>) -> Seq<Seq<Idx>> {
    g.adj_lists@.map_values(|v: Vec<Idx>| v@)
}

proof fn lemma_dec_base_rt(g: SimpleGraph<Sketch>, w: Seq<u64>, p: int)
    requires
        g.spec_nodes().len() == g.adj_lists@.len(),
        g.spec_nodes().len() <= 0xffff_ffff,
        forall|v: int|
            0 <= v < g.adj_lists@.len() ==> (#[trigger] g.adj_lists@[v])@.len() <= 0xffff_ffff,
        seg(w, p, enc_base(g)),
    ensures
        dec_base(w, p) == Some(((g.spec_nodes(), adjs_view(g)), p + enc_base(g).len())),
{
    let n = g.spec_nodes().len();
    assert(enc_base(g) =~= seq![n as u64] + (enc_base_nodes(g.spec_nodes()) + enc_adjs(
        adjs_view(g),
    )));
    lemma_seg_split(
        w,
        p,
        seq![n as u64],
        enc_base_nodes(g.spec_nodes()) + enc_adjs(adjs_view(g)),
    );
    lemma_seg_split(w, p + 1, enc_base_nodes(g.spec_nodes()), enc_adjs(adjs_view(g)));
    assert(seq![n as u64][0] == n as u64);
    assert(w[p] == n as u64);
    lemma_dec_base_nodes_rt(g.spec_nodes(), w, p + 1);
    assert(forall|i: int|
        0 <= i < adjs_view(g).len() ==> (#[trigger] adjs_view(g)[i]).len() <= 0xffff_ffff);
    lemma_dec_adjs_rt(adjs_view(g), w, p + 1 + enc_base_nodes(g.spec_nodes()).len());
    assert(adjs_view(g).len() == n);
}

proof fn lemma_dec_layer_rt(g: SimpleGraph<(Sketch, Idx)>, w: Seq<u64>, p: int)
    requires
        g.spec_nodes().len() == g.adj_lists@.len(),
        g.spec_nodes().len() <= 0xffff_ffff,
        forall|v: int|
            0 <= v < g.adj_lists@.len() ==> (#[trigger] g.adj_lists@[v])@.len() <= 0xffff_ffff,
        seg(w, p, enc_layer(g)),
    ensures
        dec_layer(w, p) == Some(((g.spec_nodes(), adjs_view(g)), p + enc_layer(g).len())),
{
    let n = g.spec_nodes().len();
    assert(enc_layer(g) =~= seq![n as u64] + (enc_layer_nodes(g.spec_nodes()) + enc_adjs(
        adjs_view(g),
    )));
    lemma_seg_split(
        w,
        p,
        seq![n as u64],
        enc_layer_nodes(g.spec_nodes()) + enc_adjs(adjs_view(g)),
    );
    lemma_seg_split(w, p + 1, enc_layer_nodes(g.spec_nodes()), enc_adjs(adjs_view(g)));
    assert(seq![n as u64][0] == n as u64);
    assert(w[p] == n as u64);
    lemma_dec_layer_nodes_rt(g.spec_nodes(), w, p + 1);
    assert(forall|i: int|
        0 <= i < adjs_view(g).len() ==> (#[trigger] adjs_view(g)[i]).len() <= 0xffff_ffff);
    lemma_dec_adjs_rt(adjs_view(g), w, p + 1 + enc_layer_nodes(g.spec_nodes()).len());
    assert(adjs_view(g).len() == n);
}

/// The decoded form of each layer.
pub open spec fn layers_view(ls: Seq<SimpleGraph<(Sketch, Idx)>>) -> Seq<
    (Seq<(Sketch, Idx)>, Seq<Seq<Idx>>),
> {
    ls.map_values(|g: SimpleGraph<(Sketch, Idx)>| (g.spec_nodes(), adjs_view(g)))
}

proof fn lemma_dec_layers_rt(ls: Seq<SimpleGraph<(Sketch, Idx)>>, w: Seq<u64>, p: int)
    requires
        forall|i: int|
            0 <= i < ls.len() ==> (#[trigger] ls[i]).spec_nodes().len() == ls[i].adj_lists@.len()
                && ls[i].spec_nodes().len() <= 0xffff_ffff,
        forall|i: int, v: int|
            0 <= i < ls.len() && 0 <= v < ls[i].adj_lists@.len() ==> (
            #[trigger] ls[i].adj_lists@[v])@.len() <= 0xffff_ffff,
        seg(w, p, enc_layers(ls)),
    ensures
        dec_layers(w, p, ls.len()) == Some((layers_view(ls), p + enc_layers(ls).len())),
    decreases ls.len(),
{
    if ls.len() == 0 {
        assert(layers_view(ls) =~= Seq::<(Seq<(Sketch, Idx)>, Seq<Seq<Idx>>)>::empty());
    } else {
        lemma_enc_layers_first(ls);
        lemma_seg_split(w, p, enc_layer(ls[0]), enc_layers(ls.drop_first()));
        lemma_dec_layer_rt(ls[0], w, p);
        let l1 = ls.drop_first();
        assert(forall|i: int| 0 <= i < l1.len() ==> l1[i] == ls[i + 1]);
        lemma_dec_layers_rt(l1, w, p + enc_layer(ls[0]).len());
        assert(seq![(ls[0].spec_nodes(), adjs_view(ls[0]))] + layers_view(l1) =~= layers_view(
            ls,
        ));
    }
}

/// Serialise then deserialise: decoding an index's encoding restores
/// exactly its entry point, its nodes and its adjacency lists — the
/// data every query is computed from.
#[verifier::rlimit(100)]
#[verifier::spinoff_prover]
pub proof fn lemma_codec_round_trip(x: HNSWIndex<Sketch>)
    requires
        encodable(x),
    ensures
        dec_index(enc_index(x)) == Some(
            (x.ep, (x.base.spec_nodes(), adjs_view(x.base)), layers_view(x.layers@)),
        ),
{
    let w = enc_index(x);
    let ep = match x.ep {
        Some(e) => seq![1u64, e as u64],
        None => seq![0u64, 0u64],
    };
    let lsv = x.layers@.map_values(|g: SimpleGraph<(Sketch, Idx)>| g);
    assert(lsv =~= x.layers@);
    assert(w == ep + enc_base(x.base) + seq![x.layers@.len() as u64] + enc_layers(x.layers@));
    assert(seg(w, 0, w)) by {
        assert(forall|k: int| 0 <= k < w.len() ==> w[0 + k] == #[trigger] w[k]);
    }
    assert(w =~= ep + (enc_base(x.base) + seq![x.layers@.len() as u64] + enc_layers(
        x.layers@,
    )));
    lemma_seg_split(w, 0, ep, enc_base(x.base) + seq![x.layers@.len() as u64] + enc_layers(
        x.layers@,
    ));
    assert((enc_base(x.base) + seq![x.layers@.len() as u64] + enc_layers(x.layers@)) =~= (
    enc_base(x.base) + (seq![x.layers@.len() as u64] + enc_layers(x.layers@))));
    lemma_seg_split(w, 2, enc_base(x.base), seq![x.layers@.len() as u64] + enc_layers(x.layers@));
    let q = 2 + enc_base(x.base).len() as int;
    lemma_seg_split(w, q, seq![x.layers@.len() as u64], enc_layers(x.layers@));
    assert(ep.len() == 2 && ep[0] == w[0] && ep[1] == w[1]);
    assert(seq![x.layers@.len() as u64][0] == x.layers@.len() as u64);
    lemma_dec_base_rt(x.base, w, 2);
    assert(w[q] == x.layers@.len() as u64);
    lemma_dec_layers_rt(x.layers@, w, q + 1);
    assert(q + 1 + enc_layers(x.layers@).len() == w.len());
}

/// Read one length-prefixed identifier list.
#[verifier::loop_isolation(false)]
fn read_list(w: &Vec<u64>, p: usize) -> (r: Option<(Vec<Idx>, usize)>)
    ensures
        match dec_list(w@, p as int) {
            Some((l, q)) => r is Some && (r->0).0@ == l && ((r->0).1 as int) == q,
            None => r is None,
        },
{
    if p >= w.len() || w[p] > 0xffff_ffff {
        return None;
    }
    let n = w[p] as usize;
    let mut out: Vec<Idx> = Vec::new();
    let mut cur = p + 1;
    let mut i: usize = 0;
    while i < n
        invariant
            0 <= i <= n,
            out@.len() == i,
            p < w@.len(),
            (p as int) + 1 <= cur as int <= usize::MAX,
            match dec_items(w@, cur as int, (n - i) as nat) {
                Some((rest, e)) => dec_items(w@, p + 1, n as nat) == Some((out@ + rest, e)),
                None => dec_items(w@, p + 1, n as nat) is None,
            },
        decreases n - i,
    {
        if cur >= w.len() || w[cur] > 0xffff_ffff {
            return None;
        }
        let v = w[cur] as u32;
        proof {
            let tail = dec_items(w@, cur as int, (n - i) as nat);
            let inner = dec_items(w@, cur + 1, (n - i - 1) as nat);
            if inner is Some {
                assert(tail == Some((seq![v] + (inner->0).0, (inner->0).1)));
                assert((out@ + (tail->0).0) =~= ((out@ + seq![v]) + (inner->0).0));
                assert(out@.push(v) =~= out@ + seq![v]);
            } else {
                assert(tail is None);
            }
        }
        out.push(v);
        cur = cur + 1;
        i = i + 1;
    }
    proof {
        assert(dec_items(w@, cur as int, 0) == Some((Seq::<Idx>::empty(), cur as int)));
        assert(out@ + Seq::<Idx>::empty() =~= out@);
    }
    Some((out, cur))
}

/// Read one sketch.
fn read_sketch(w: &Vec<u64>, p: usize) -> (r: Option<(Sketch, usize)>)
    ensures
        match dec_sketch(w@, p as int) {
            Some((s, q)) => r is Some && (r->0).0 == s && ((r->0).1 as int) == q,
            None => r is None,
        },
{
    if p > w.len() || w.len() - p < 16 {
        return None;
    }
    let s = Sketch {
        data: [
            w[p],
            w[p + 1],
            w[p + 2],
            w[p + 3],
            w[p + 4],
            w[p + 5],
            w[p + 6],
            w[p + 7],
            w[p + 8],
            w[p + 9],
            w[p + 10],
            w[p + 11],
            w[p + 12],
            w[p + 13],
            w[p + 14],
            w[p + 15],
        ],
    };
    Some((s, p + 16))
}

/// Read `n` adjacency lists.
#[verifier::loop_isolation(false)]
fn read_adjs(w: &Vec<u64>, p: usize, n: usize) -> (r: Option<(Vec<Vec<Idx>>, usize)>)
    ensures
        match dec_adjs(w@, p as int, n as nat) {
            Some((ls, q)) => r is Some && (r->0).0@.map_values(|v: Vec<Idx>| v@) == ls && ((
            r->0).1 as int) == q && (r->0).0@.len() == n,
            None => r is None,
        },
{
    let mut out: Vec<Vec<Idx>> = Vec::new();
    let mut cur = p;
    let mut i: usize = 0;
    while i < n
        invariant
            0 <= i <= n,
            out@.len() == i,
            cur as int <= usize::MAX,
            match dec_adjs(w@, cur as int, (n - i) as nat) {
                Some((rest, e)) => dec_adjs(w@, p as int, n as nat) == Some(
                    (out@.map_values(|v: Vec<Idx>| v@) + rest, e),
                ),
                None => dec_adjs(w@, p as int, n as nat) is None,
            },
        decreases n - i,
    {
        let step = read_list(w, cur);
        match step {
            Some((l, q)) => {
                proof {
                    let tail = dec_adjs(w@, cur as int, (n - i) as nat);
                    let inner = dec_adjs(w@, q as int, (n - i - 1) as nat);
                    let ov = out@.map_values(|v: Vec<Idx>| v@);
                    if inner is Some {
                        assert(tail == Some((seq![l@] + (inner->0).0, (inner->0).1)));
                        assert((ov + (tail->0).0) =~= ((out@.push(l)).map_values(
                            |v: Vec<Idx>| v@,
                        ) + (inner->0).0)) by {
                            assert(out@.push(l).map_values(|v: Vec<Idx>| v@) =~= ov.push(l@));
                        }
                    } else {
                        assert(tail is None);
                    }
                }
                out.push(l);
                cur = q;
                i = i + 1;
            },
            None => {
                return None;
            },
        }
    }
    proof {
        assert(dec_adjs(w@, cur as int, 0) == Some((Seq::<Seq<Idx>>::empty(), cur as int)));
        assert(out@.map_values(|v: Vec<Idx>| v@) + Seq::<Seq<Idx>>::empty()
            =~= out@.map_values(|v: Vec<Idx>| v@));
    }
    Some((out, cur))
}

/// Read a base graph.
#[verifier::loop_isolation(false)]
fn read_base(w: &Vec<u64>, p: usize) -> (r: Option<(SimpleGraph<Sketch>, usize)>)
    ensures
        match dec_base(w@, p as int) {
            Some((m, q)) => r is Some && (r->0).0.spec_nodes() == m.0 && adjs_view((r->0).0)
                == m.1 && ((r->0).1 as int) == q && (r->0).0.adj_lists@.len() == (
            r->0).0.spec_nodes().len(),
            None => r is None,
        },
{
    if p >= w.len() || w[p] > 0xffff_ffff {
        return None;
    }
    let n = w[p] as usize;
    let mut nodes: Vec<Sketch> = Vec::new();
    let mut cur = p + 1;
    let mut i: usize = 0;
    while i < n
        invariant
            0 <= i <= n,
            nodes@.len() == i,
            p < w@.len(),
            cur as int <= usize::MAX,
            match dec_base_nodes(w@, cur as int, (n - i) as nat) {
                Some((rest, e)) => dec_base_nodes(w@, p + 1, n as nat) == Some(
                    (nodes@ + rest, e),
                ),
                None => dec_base_nodes(w@, p + 1, n as nat) is None,
            },
        decreases n - i,
    {
        let step = read_sketch(w, cur);
        match step {
            Some((s, q)) => {
                proof {
                    let tail = dec_base_nodes(w@, cur as int, (n - i) as nat);
                    let inner = dec_base_nodes(w@, q as int, (n - i - 1) as nat);
                    if inner is Some {
                        assert(tail == Some((seq![s] + (inner->0).0, (inner->0).1)));
                        assert((nodes@ + (tail->0).0) =~= (nodes@.push(s) + (inner->0).0));
                    } else {
                        assert(tail is None);
                    }
                }
                nodes.push(s);
                cur = q;
                i = i + 1;
            },
            None => {
                return None;
            },
        }
    }
    proof {
        assert(dec_base_nodes(w@, cur as int, 0) == Some((Seq::<Sketch>::empty(), cur as int)));
        assert(nodes@ + Seq::<Sketch>::empty() =~= nodes@);
    }
    let adjs = read_adjs(w, cur, n);
    match adjs {
        Some((a, q)) => Some((SimpleGraph { nodes, adj_lists: a }, q)),
        None => None,
    }
}

/// Read an upper layer.
#[verifier::loop_isolation(false)]
fn read_layer(w: &Vec<u64>, p: usize) -> (r: Option<(SimpleGraph<(Sketch, Idx)>, usize)>)
    ensures
        match dec_layer(w@, p as int) {
            Some((m, q)) => r is Some && (r->0).0.spec_nodes() == m.0 && adjs_view((r->0).0)
                == m.1 && ((r->0).1 as int) == q && (r->0).0.adj_lists@.len() == (
            r->0).0.spec_nodes().len(),
            None => r is None,
        },
{
    if p >= w.len() || w[p] > 0xffff_ffff {
        return None;
    }
    let n = w[p] as usize;
    let mut nodes: Vec<(Sketch, Idx)> = Vec::new();
    let mut cur = p + 1;
    let mut i: usize = 0;
    while i < n
        invariant
            0 <= i <= n,
            nodes@.len() == i,
            p < w@.len(),
            cur as int <= usize::MAX,
            match dec_layer_nodes(w@, cur as int, (n - i) as nat) {
                Some((rest, e)) => dec_layer_nodes(w@, p + 1, n as nat) == Some(
                    (nodes@ + rest, e),
                ),
                None => dec_layer_nodes(w@, p + 1, n as nat) is None,
            },
        decreases n - i,
    {
        let step = read_sketch(w, cur);
        match step {
            Some((s, q)) => {
                if q >= w.len() || w[q] > 0xffff_ffff {
                    return None;
                }
                let down = w[q] as u32;
                proof {
                    let tail = dec_layer_nodes(w@, cur as int, (n - i) as nat);
                    let inner = dec_layer_nodes(w@, q + 1, (n - i - 1) as nat);
                    if inner is Some {
                        assert(tail == Some((seq![(s, down)] + (inner->0).0, (inner->0).1)));
                        assert((nodes@ + (tail->0).0) =~= (nodes@.push((s, down)) + (
                        inner->0).0));
                    } else {
                        assert(tail is None);
                    }
                }
                nodes.push((s, down));
                cur = q + 1;
                i = i + 1;
            },
            None => {
                return None;
            },
        }
    }
    proof {
        assert(dec_layer_nodes(w@, cur as int, 0) == Some(
            (Seq::<(Sketch, Idx)>::empty(), cur as int),
        ));
        assert(nodes@ + Seq::<(Sketch, Idx)>::empty() =~= nodes@);
    }
    let adjs = read_adjs(w, cur, n);
    match adjs {
        Some((a, q)) => Some((SimpleGraph { nodes, adj_lists: a }, q)),
        None => None,
    }
}

/// Deserialise an index from words, checking the framing.  When the
/// input is the encoding of an index, the result holds exactly that
/// index's entry point, nodes and adjacency lists
/// ([`lemma_codec_round_trip`]); any other input is rejected.
#[verifier::loop_isolation(false)]
pub fn decode_index(w: &Vec<u64>) -> (r: Option<HNSWIndex<Sketch>>)
    ensures
        match dec_index(w@) {
            Some(m) => r is Some && {
                let y = r->0;
                &&& y.ep == m.0
                &&& y.base.spec_nodes() == m.1.0
                &&& adjs_view(y.base) == m.1.1
                &&& layers_view(y.layers@) == m.2
            },
            None => r is None,
        },
{
    if w.len() < 2 || (w[0] != 0 && w[0] != 1) || w[1] > 0xffff_ffff {
        return None;
    }
    let ep: Option<Idx> = if w[0] == 1 {
        Some(w[1] as u32)
    } else {
        None
    };
    let base_r = read_base(w, 2);
    let (base, q) = match base_r {
        Some(x) => x,
        None => {
            return None;
        },
    };
    if q >= w.len() || w[q] > 0xffff_ffff {
        return None;
    }
    let n_layers = w[q] as usize;
    let mut layers: Vec<SimpleGraph<(Sketch, Idx)>> = Vec::new();
    let mut cur = q + 1;
    let mut i: usize = 0;
    while i < n_layers
        invariant
            0 <= i <= n_layers,
            layers@.len() == i,
            (q as int) < w@.len(),
            cur as int <= usize::MAX,
            match dec_layers(w@, cur as int, (n_layers - i) as nat) {
                Some((rest, e)) => dec_layers(w@, q + 1, n_layers as nat) == Some(
                    (layers_view(layers@) + rest, e),
                ),
                None => dec_layers(w@, q + 1, n_layers as nat) is None,
            },
        decreases n_layers - i,
    {
        let step = read_layer(w, cur);
        match step {
            Some((g, q2)) => {
                proof {
                    let tail = dec_layers(w@, cur as int, (n_layers - i) as nat);
                    let inner = dec_layers(w@, q2 as int, (n_layers - i - 1) as nat);
                    if inner is Some {
                        assert(tail == Some(
                            (seq![(g.spec_nodes(), adjs_view(g))] + (inner->0).0, (inner->0).1),
                        ));
                        assert((layers_view(layers@) + (tail->0).0) =~= (layers_view(
                            layers@.push(g),
                        ) + (inner->0).0)) by {
                            assert(layers_view(layers@.push(g)) =~= layers_view(layers@).push(
                                (g.spec_nodes(), adjs_view(g)),
                            ));
                        }
                    } else {
                        assert(tail is None);
                    }
                }
                layers.push(g);
                cur = q2;
                i = i + 1;
            },
            None => {
                return None;
            },
        }
    }
    proof {
        assert(dec_layers(w@, cur as int, 0) == Some(
            (Seq::<(Seq<(Sketch, Idx)>, Seq<Seq<Idx>>)>::empty(), cur as int),
        ));
        assert(layers_view(layers@) + Seq::<(Seq<(Sketch, Idx)>, Seq<Seq<Idx>>)>::empty()
            =~= layers_view(layers@));
    }
    if cur != w.len() {
        return None;
    }
    Some(HNSWIndex { layers, base, ep })
}

/// Serialise, deserialise, query: an index holding exactly the entry
/// point, nodes and adjacency decoded from `x`'s encoding answers
/// every query exactly as `x` does.
#[verifier::rlimit(100)]
#[verifier::spinoff_prover]
pub proof fn lemma_codec_round_trip_queries(
    x: HNSWIndex<Sketch>,
    y: HNSWIndex<Sketch>,
    q: Sketch,
    k: int,
    ef: int,
)
    requires
        encodable(x),
        x.wf(),
        dec_index(enc_index(x)) == Some(
            (y.ep, (y.base.spec_nodes(), adjs_view(y.base)), layers_view(y.layers@)),
        ),
    ensures
        hnsw_search_recs(y.layers@, y.base, y.ep, q, k, ef) == hnsw_search_recs(
            x.layers@,
            x.base,
            x.ep,
            q,
            k,
            ef,
        ),
{
    lemma_codec_round_trip(x);
    assert(y.ep == x.ep);
    assert(y.base.spec_nodes() == x.base.spec_nodes());
    assert(adjs_view(y.base) == adjs_view(x.base));
    assert(same_graph_views(x.base, y.base)) by {
        assert(adjs_view(x.base).len() == adjs_view(y.base).len());
        assert forall|v: int|
            0 <= v < x.base.adj_lists@.len() implies #[trigger] x.base.adj(v) == y.base.adj(
            v,
        ) by {
            assert(adjs_view(x.base)[v] == x.base.adj_lists@[v]@);
            assert(adjs_view(y.base)[v] == y.base.adj_lists@[v]@);
        }
    }
    assert(layers_view(y.layers@) == layers_view(x.layers@));
    assert(same_layers_views(x.layers@, y.layers@)) by {
        assert(layers_view(x.layers@).len() == layers_view(y.layers@).len());
        assert forall|i: int|
            0 <= i < x.layers@.len() implies same_graph_views(
            #[trigger] x.layers@[i],
            y.layers@[i],
        ) by {
            assert(layers_view(x.layers@)[i] == (
                x.layers@[i].spec_nodes(),
                adjs_view(x.layers@[i]),
            ));
            assert(layers_view(y.layers@)[i] == (
                y.layers@[i].spec_nodes(),
                adjs_view(y.layers@[i]),
            ));
            assert(y.layers@[i].spec_nodes() == x.layers@[i].spec_nodes());
            assert(adjs_view(x.layers@[i]) == adjs_view(y.layers@[i]));
            assert(x.layers@[i].adj_lists@.len() == y.layers@[i].adj_lists@.len()) by {
                assert(adjs_view(x.layers@[i]).len() == adjs_view(y.layers@[i]).len());
            }
            assert forall|v: int|
                0 <= v < x.layers@[i].adj_lists@.len() implies #[trigger] x.layers@[i].adj(v)
                    == y.layers@[i].adj(v) by {
                assert(adjs_view(x.layers@[i])[v] == x.layers@[i].adj_lists@[v]@);
                assert(adjs_view(y.layers@[i])[v] == y.layers@[i].adj_lists@[v]@);
            }
        }
    }
    lemma_hnsw_search_cong(x.layers@, x.base, y.layers@, y.base, x.ep, q, k, ef);
}

} // verus!
