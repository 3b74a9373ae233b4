//! What the stop conditions of the tree search read, and what they hint at.
use vstd::prelude::*;

verus! {

/// How far a search has come.
#[derive(Clone, Copy, Debug, PartialEq, Eq, Structural)]
pub struct IterationStats {
    pub time_since_movestart: i64,
    pub time_since_first_batch: i64,
    pub total_nodes: i64,
    pub nodes_since_movestart: i64,
    pub batches_since_movestart: i64,
    pub average_depth: i32,
}

impl Default for IterationStats {
    fn default() -> (r: Self)
        ensures
            r == (IterationStats {
                time_since_movestart: 0,
                time_since_first_batch: 0,
                total_nodes: 0,
                nodes_since_movestart: 0,
                batches_since_movestart: 0,
                average_depth: 0,
            }),
    {
        IterationStats {
            time_since_movestart: 0,
            time_since_first_batch: 0,
            total_nodes: 0,
            nodes_since_movestart: 0,
            batches_since_movestart: 0,
            average_depth: 0,
        }
    }
}

/// The time and the playouts that are expected to remain, as hinted last.
#[derive(Clone, Copy, Debug, PartialEq, Eq, Structural)]
pub struct StoppersHints {
    pub remaining_time_ms: i64,
    pub remaining_playouts: i64,
}

impl StoppersHints {
    /// Forgets everything.
    pub fn reset(&mut self)
        ensures
            *final(self) == (StoppersHints { remaining_time_ms: 0, remaining_playouts: 0 }),
    {
        self.remaining_time_ms = 0;
        self.remaining_playouts = 0;
    }

    pub fn update_estimated_remaining_time_ms(&mut self, value: i64)
        ensures
            *final(self) == (StoppersHints { remaining_time_ms: value, ..*old(self) }),
    {
        self.remaining_time_ms = value;
    }

    pub fn estimated_remaining_time_ms(&self) -> (r: i64)
        ensures
            r == self.remaining_time_ms,
    {
        self.remaining_time_ms
    }

    pub fn update_estimated_remaining_playouts(&mut self, value: i64)
        ensures
            *final(self) == (StoppersHints { remaining_playouts: value, ..*old(self) }),
    {
        self.remaining_playouts = value;
    }

    pub fn estimated_remaining_playouts(&self) -> (r: i64)
        ensures
            r == self.remaining_playouts,
    {
        self.remaining_playouts
    }
}

impl Default for StoppersHints {
    fn default() -> (r: Self)
        ensures
            r == (StoppersHints { remaining_time_ms: 0, remaining_playouts: 0 }),
    {
        StoppersHints { remaining_time_ms: 0, remaining_playouts: 0 }
    }
}

} // verus!
