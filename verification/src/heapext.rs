//! Trusted interface to the double-ended priority queue of the
//! `min_max_heap` crate.
//!
//! The beam search keeps its candidate frontier and result window in
//! `MinMaxHeap<(usize, usize)>` values, holding `(distance, key)`
//! records ordered by std's lexicographic tuple order — the same order
//! as [`crate::order::TotalOrd`] on pairs.  The heap's contents are
//! named by the uninterpreted [`heap_seq`]: the records in ascending
//! order (records are plain value pairs, so that sequence is a
//! well-defined value).  Every wrapper states over `heap_seq` what the
//! crate's source shows for the wrapped call.

use vstd::prelude::*;

use min_max_heap::MinMaxHeap;

use crate::order::insert_sorted;

verus! {

#[verifier::external_type_specification]
#[verifier::external_body]
#[verifier::reject_recursive_types(T)]
pub struct ExMinMaxHeap<T>(MinMaxHeap<T>);

/// The records a heap holds, in ascending `(distance, key)` order.
pub uninterp spec fn heap_seq(h: MinMaxHeap<(usize, usize)>) -> Seq<(usize, usize)>;

/// Relies on `MinMaxHeap::new`: a fresh heap holds nothing.
#[verifier::external_body]
pub fn heap_new() -> (r: MinMaxHeap<(usize, usize)>)
    ensures
        heap_seq(r) == Seq::<(usize, usize)>::empty(),
{
    MinMaxHeap::new()
}

/// Relies on `MinMaxHeap::push`: the element joins the heap's contents,
/// which std's tuple `Ord` keeps in lexicographic order.
#[verifier::external_body]
pub fn heap_push(h: &mut MinMaxHeap<(usize, usize)>, v: (usize, usize))
    ensures
        heap_seq(*final(h)) == insert_sorted(heap_seq(*old(h)), v),
{
    h.push(v)
}

/// Relies on `MinMaxHeap::pop_min`: removes and returns the minimum,
/// or `None` when empty.
#[verifier::external_body]
pub fn heap_pop_min(h: &mut MinMaxHeap<(usize, usize)>) -> (r: Option<(usize, usize)>)
    ensures
        match r {
            Some(x) => heap_seq(*old(h)).len() > 0 && x == heap_seq(*old(h))[0] && heap_seq(
                *final(h),
            ) == heap_seq(*old(h)).drop_first(),
            None => heap_seq(*old(h)).len() == 0 && heap_seq(*final(h)) == heap_seq(*old(h)),
        },
{
    h.pop_min()
}

/// Relies on `MinMaxHeap::pop_max`: removes and returns the maximum,
/// or `None` when empty.
#[verifier::external_body]
pub fn heap_pop_max(h: &mut MinMaxHeap<(usize, usize)>) -> (r: Option<(usize, usize)>)
    ensures
        match r {
            Some(x) => heap_seq(*old(h)).len() > 0 && x == heap_seq(*old(h)).last() && heap_seq(
                *final(h),
            ) == heap_seq(*old(h)).drop_last(),
            None => heap_seq(*old(h)).len() == 0 && heap_seq(*final(h)) == heap_seq(*old(h)),
        },
{
    h.pop_max()
}

/// Relies on `MinMaxHeap::peek_max`: a copy of the maximum, or `None`
/// when empty.
#[verifier::external_body]
pub fn heap_peek_max(h: &MinMaxHeap<(usize, usize)>) -> (r: Option<(usize, usize)>)
    ensures
        match r {
            Some(x) => heap_seq(*h).len() > 0 && x == heap_seq(*h).last(),
            None => heap_seq(*h).len() == 0,
        },
{
    h.peek_max().copied()
}

/// Relies on `MinMaxHeap::len`.
#[verifier::external_body]
pub fn heap_len(h: &MinMaxHeap<(usize, usize)>) -> (r: usize)
    ensures
        r == heap_seq(*h).len(),
{
    h.len()
}

/// Relies on `MinMaxHeap::is_empty`.
#[verifier::external_body]
pub fn heap_is_empty(h: &MinMaxHeap<(usize, usize)>) -> (r: bool)
    ensures
        r == (heap_seq(*h).len() == 0),
{
    h.is_empty()
}

/// Relies on `MinMaxHeap::drain_asc`: drains every record in ascending
/// order.
#[verifier::external_body]
pub fn heap_drain_asc(h: &mut MinMaxHeap<(usize, usize)>) -> (r: Vec<(usize, usize)>)
    ensures
        r@ == heap_seq(*old(h)),
        heap_seq(*final(h)) == Seq::<(usize, usize)>::empty(),
{
    h.drain_asc().collect()
}

} // verus!
