//! The conditions under which a search stops.
pub mod legacy;
pub mod stopper;
pub mod timemgr;
