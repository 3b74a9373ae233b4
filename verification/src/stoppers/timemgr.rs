//! What stop conditions read, and what they expect of the rest of the search.
use vstd::prelude::*;

verus! {

/// How far a search has come.
#[derive(Clone, Copy, Debug, PartialEq, Eq, Structural)]
pub struct IterationStats {
    pub time_since_movestart: i64,
    pub time_since_first_batch: i64,
    pub total_nodes: i64,
    pub nodes_since_movestart: i64,
    pub batches_since_movestart: i64,
    pub average_depth: i32,
}

impl Default for IterationStats {
    fn default() -> (r: Self)
        ensures
            r == (IterationStats {
                time_since_movestart: 0,
                time_since_first_batch: 0,
                total_nodes: 0,
                nodes_since_movestart: 0,
                batches_since_movestart: 0,
                average_depth: 0,
            }),
    {
        IterationStats {
            time_since_movestart: 0,
            time_since_first_batch: 0,
            total_nodes: 0,
            nodes_since_movestart: 0,
            batches_since_movestart: 0,
            average_depth: 0,
        }
    }
}

/// The time that is assumed to remain where no condition says otherwise.
pub const UNLIMITED_TIME_MS: i64 = 100_000_000_000;

/// The playouts that are assumed to remain where no condition says otherwise.
pub const UNLIMITED_PLAYOUTS: i64 = 4_000_000_000;

/// The time and the playouts that are expected to remain.
#[derive(Clone, Copy, Debug, PartialEq, Eq, Structural)]
pub struct StoppersHints {
    pub remaining_time_ms: i64,
    pub remaining_playouts: i64,
}

/// The smaller of two integers.
pub open spec fn least(a: i64, b: i64) -> i64 {
    if a < b {
        a
    } else {
        b
    }
}

impl StoppersHints {
    /// Hints that nothing has been said about.
    pub open spec fn unlimited() -> StoppersHints {
        StoppersHints {
            remaining_time_ms: UNLIMITED_TIME_MS,
            remaining_playouts: UNLIMITED_PLAYOUTS,
        }
    }

    /// The hints once some condition expects so much time to remain.
    pub open spec fn with_time(self, value: i64) -> StoppersHints {
        StoppersHints { remaining_time_ms: least(self.remaining_time_ms, value), ..self }
    }

    /// The hints once some condition expects so many playouts to remain.
    pub open spec fn with_playouts(self, value: i64) -> StoppersHints {
        StoppersHints { remaining_playouts: least(self.remaining_playouts, value), ..self }
    }

    /// Forgets everything.
    pub fn reset(&mut self)
        ensures
            *final(self) == StoppersHints::unlimited(),
    {
        self.remaining_time_ms = UNLIMITED_TIME_MS;
        self.remaining_playouts = UNLIMITED_PLAYOUTS;
    }

    /// Lowers the remaining time, if it is expected to be shorter.
    pub fn update_estimated_remaining_time_ms(&mut self, value: i64)
        ensures
            *final(self) == old(self).with_time(value),
    {
        if value <= self.remaining_time_ms {
            self.remaining_time_ms = value;
        }
    }

    pub fn estimated_remaining_time_ms(&self) -> (r: i64)
        ensures
            r == self.remaining_time_ms,
    {
        self.remaining_time_ms
    }

    /// Lowers the remaining playouts, if they are expected to be fewer.
    pub fn update_estimated_remaining_playouts(&mut self, value: i64)
        ensures
            *final(self) == old(self).with_playouts(value),
    {
        if value <= self.remaining_playouts {
            self.remaining_playouts = value;
        }
    }

    /// The remaining playouts, at least one.
    pub fn estimated_remaining_playouts(&self) -> (r: i64)
        ensures
            r == (if self.remaining_playouts > 1 {
                self.remaining_playouts as int
            } else {
                1
            }),
    {
        if self.remaining_playouts > 1 {
            self.remaining_playouts
        } else {
            1
        }
    }
}

impl Default for StoppersHints {
    fn default() -> (r: Self)
        ensures
            r == StoppersHints::unlimited(),
    {
        StoppersHints {
            remaining_time_ms: UNLIMITED_TIME_MS,
            remaining_playouts: UNLIMITED_PLAYOUTS,
        }
    }
}

/// Whatever is hinted, and in whatever order, the smallest value stays.
pub proof fn law_hints_keep_the_minimum(hints: StoppersHints, a: i64, b: i64)
    ensures
        hints.with_playouts(a).with_playouts(b) == hints.with_playouts(b).with_playouts(a),
        hints.with_playouts(a).with_playouts(b).remaining_playouts <= a,
        hints.with_playouts(a).with_playouts(b).remaining_playouts <= b,
        hints.with_time(a).with_time(b) == hints.with_time(b).with_time(a),
        hints.with_time(a).with_time(b).remaining_time_ms <= a,
        hints.with_time(a).with_time(b).remaining_time_ms <= b,
{
}

} // verus!
