//! Tree search with batched evaluation.
pub mod node;
pub mod tree;
pub mod params;
pub mod uct;
pub mod tasks;
pub mod loads;
pub mod picking;
pub mod spread;
pub mod descent;
pub mod placement;
pub mod walk;
pub mod ranking;
pub mod bounds;
pub mod carry;
pub mod correction;
pub mod backup;
pub mod extend;
pub mod gather;
pub mod settling;
pub mod settle;
pub mod prefetch;
pub mod stoppers;
pub mod search;
pub mod output;
pub mod session;
pub mod score;
pub mod backend;
