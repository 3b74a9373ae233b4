//! Searches for Chinese chess: a tree search with batched evaluation, a search over a graph of
//! positions, and a search made of small steps.
pub mod classic;
pub mod error;
pub mod exact;
pub mod go_params;
pub mod graph;
pub mod params;
pub mod position;
pub mod scalar;
pub mod sorting;
pub mod stoppers;
pub mod stream;
pub mod sums;
