//! Search over a graph of shared positions.
pub mod value;
pub mod key;
pub mod edge;
pub mod node;
pub mod index;
pub mod repository;
pub mod reach;
pub mod topology;
pub mod proof_bounds;
pub mod recompute;
pub mod history;
pub mod search_graph;
pub mod event;
pub mod backprop;
pub mod policy;
pub mod ranking;
pub mod stats;
pub mod pv_walk;
pub mod history_lines;
pub mod extension;
pub mod state;
pub mod session;
pub mod sticky;
