//! The conditions under which a tree search stops.
#[allow(clippy::module_inception)]
pub mod stoppers;
pub mod timemgr;
