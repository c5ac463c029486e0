//! Bounded multi-source shortest paths on directed graphs with non-negative
//! weights: exploration from a set of sources up to an exclusive distance
//! bound, with the tight boundary observed at or above the bound.
//!
//! The graph container is in `graph`, the exploration in `explore`, and its
//! sharded composition in `sharded`. What they compute is said in `paths`
//! (walks, distances, the tight boundary), in `exploration` (the exploration
//! as a run of steps) and in `shards` (dealing out and merging); `correctness`
//! and `laws` hold what is proved of them. Around these stand the priority
//! structure in `heap`, the text formats in `text`, and the synthetic graphs
//! and sources in `generators` and `picker`.

pub mod graph;
pub mod heap;
pub mod paths;
pub mod exploration;
mod invariants;
pub mod correctness;
mod frontier;
pub mod explore;
pub mod shards;
pub mod laws;
pub mod sharded;
pub mod text;
pub mod generators;
pub mod picker;

pub use crate::graph::{Graph, Node, Weight};
pub use crate::explore::{bounded_multi_source_shortest_paths, BmsspResult};
pub use crate::sharded::{bmssp_sharded, clamp_shards, merge_results, shard_sources};
