//! Approximate nearest-neighbour search over fixed-width binary sketches.
//!
//! The crate builds navigable small-world graphs (flat and hierarchical)
//! over points that carry an integer distance, and answers top-k queries
//! by greedy beam search with deterministic `(distance, key)` tie-breaks.

mod bitset;
mod bruteforce;
mod codec;
mod generationset;
mod heapext;
mod hnsw;
mod membership;
mod nheap;
mod nsw;
mod nsw_index;
mod order;
mod point;
mod pool;
mod simplegraph;

pub use bitset::BitSet;
pub use bruteforce::Bruteforce;
pub use codec::decode_index;
pub use codec::encode_index;
pub use generationset::GenerationSet;
pub use pool::VisitedPool;
pub use membership::MemberSet;
pub use nheap::NHeap;
pub use order::MinK;
pub use order::TotalOrd;
pub use point::Distance;
pub use point::GridPoint;
pub use point::Point;
pub use point::Sketch;
pub use simplegraph::Graph;
pub use simplegraph::Idx;
pub use simplegraph::SimpleGraph;
pub use nsw::beam_search;
pub use nsw::insert_idx;
pub use nsw::insert_neighbors;
pub use nsw::insert_point;
pub use nsw::search_layer;
pub use nsw::search_select_neighbors;
pub use nsw::select_neighbors;
pub use nsw::lemma_select_bound;
pub use nsw_index::NSW;
pub use nsw_index::NSWBuilder;
pub use nsw_index::NSWIndex;
pub use nsw_index::NSWOptions;
pub use hnsw::HNSW;
pub use hnsw::HNSWBuilder;
pub use hnsw::HNSWIndex;
