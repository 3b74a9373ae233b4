//! How a search is kept going: when a line is begun, when the owner waits, and when the
//! search ends.
use vstd::prelude::*;

use crate::error::EnginError;
use crate::position::{copy_moves, GameResult, Move};
use crate::scalar::Scalar;
use crate::stream::shared::Shared;
use crate::stream::tree::{ExpansionState, NodeId};

verus! {

/// When a search ends, by visits and by a clock in milliseconds, and to which moves it
/// is restricted.
#[derive(Debug)]
pub struct SearchLimits {
    pub max_playouts: Option<u64>,
    pub deadline_ms: Option<i64>,
    pub root_move_filter: Vec<Move>,
}

impl Default for SearchLimits {
    fn default() -> (r: Self)
        ensures
            r.max_playouts is None && r.deadline_ms is None && r.root_move_filter@.len() == 0,
    {
        SearchLimits { max_playouts: None, deadline_ms: None, root_move_filter: Vec::new() }
    }
}

impl SearchLimits {
    /// Whether the time is up.
    pub open spec fn is_late(self, now_ms: i64) -> bool {
        self.deadline_ms is Some && now_ms >= self.deadline_ms->Some_0
    }

    /// Whether the time is up.
    pub fn is_past_deadline(&self, now_ms: i64) -> (r: bool)
        ensures
            r == self.is_late(now_ms),
    {
        match self.deadline_ms {
            Some(deadline) => now_ms >= deadline,
            None => false,
        }
    }

    /// Whether so many visits, or the time, are enough.
    pub fn is_exhausted(&self, completed: u64, target: u64, now_ms: i64) -> (r: bool)
        ensures
            r == (completed >= target || self.is_late(now_ms)),
    {
        completed >= target || self.is_past_deadline(now_ms)
    }
}

/// What the owner of a search does next.
#[derive(Clone, Copy, Debug, PartialEq, Eq, Structural)]
pub enum RunStep {
    /// No further line is begun.
    Finish,
    /// Waits until fewer lines are under way.
    WaitBelow { limit: usize },
    /// Begins a line, and waits until fewer are under way.
    SubmitAndWait { limit: usize },
    /// Begins a line.
    Submit,
}

/// The visits of the root, those from before the search included.
pub open spec fn total_visits(initial_visits: u64, completed: u64) -> int {
    if initial_visits + completed > u64::MAX {
        u64::MAX as int
    } else {
        initial_visits + completed
    }
}

impl<S: Scalar> Shared<S> {
    /// Takes up the moves to which a run is restricted, and says whether the run begins any
    /// line: not where the game at the root is over.
    pub fn begin_run(&mut self, limits: &SearchLimits, root_result: GameResult) -> (r: bool)
        ensures
            r == (root_result == GameResult::Undecided),
            final(self).root_move_filter@ == limits.root_move_filter@,
            *final(self) == (Shared {
                root_move_filter: final(self).root_move_filter,
                ..*old(self)
            }),
            old(self).wf() ==> final(self).wf(),
    {
        self.root_move_filter = copy_moves(&limits.root_move_filter);
        root_result == GameResult::Undecided
    }

    /// Requests a stop where the time is up, so that no evaluation is waited for. A run whose
    /// visits are enough lets those under way finish.
    pub fn stop_at_deadline(&mut self, limits: &SearchLimits, now_ms: i64)
        ensures
            *final(self) == (Shared {
                stopping: old(self).stopping || limits.is_late(now_ms),
                ..*old(self)
            }),
            old(self).wf() ==> final(self).wf(),
    {
        if limits.is_past_deadline(now_ms) {
            self.request_stop();
        }
    }

    /// Whether no further line is begun: the search stops, or its limits are reached.
    pub open spec fn is_over(&self, limits: SearchLimits, initial_visits: u64, now_ms: i64) -> bool {
        ||| self.stopping
        ||| limits.is_late(now_ms)
        ||| total_visits(initial_visits, self.completed) >= (match limits.max_playouts {
            Some(target) => target,
            None => u64::MAX,
        })
    }

    /// What the owner of the search does next. Until the root is expanded one line is
    /// enough; from then on lines are begun while fewer than `dispatch_limit` are under
    /// way.
    pub fn next_step(
        &self,
        limits: &SearchLimits,
        initial_visits: u64,
        root: NodeId,
        now_ms: i64,
        dispatch_limit: usize,
    ) -> (r: RunStep)
        ensures
            r == (if self.is_over(*limits, initial_visits, now_ms) {
                RunStep::Finish
            } else if root >= self.arena@.len() {
                RunStep::SubmitAndWait { limit: 1 }
            } else {
                match self.arena@[root as int].state {
                    ExpansionState::Terminal => RunStep::Finish,
                    ExpansionState::Claimed => RunStep::WaitBelow { limit: 1 },
                    ExpansionState::Unexpanded => RunStep::SubmitAndWait { limit: 1 },
                    ExpansionState::Expanded => if self.outstanding >= dispatch_limit {
                        RunStep::WaitBelow { limit: dispatch_limit }
                    } else {
                        RunStep::Submit
                    },
                }
            }),
    {
        let target: u64 = match limits.max_playouts {
            Some(target) => target,
            None => u64::MAX,
        };
        let total: u64 = if initial_visits > u64::MAX - self.completed {
            u64::MAX
        } else {
            initial_visits + self.completed
        };
        if self.stopping || limits.is_exhausted(total, target, now_ms) {
            return RunStep::Finish;
        }
        match self.arena.get(root) {
            None => RunStep::SubmitAndWait { limit: 1 },
            Some(node) => match node.expansion_state() {
                ExpansionState::Terminal => RunStep::Finish,
                ExpansionState::Claimed => RunStep::WaitBelow { limit: 1 },
                ExpansionState::Unexpanded => RunStep::SubmitAndWait { limit: 1 },
                ExpansionState::Expanded => if self.outstanding >= dispatch_limit {
                    RunStep::WaitBelow { limit: dispatch_limit }
                } else {
                    RunStep::Submit
                },
            },
        }
    }

    /// How long the owner waits for fewer lines to be under way: not at all once there are
    /// few enough, an error came or the time is up, until woken where there is no
    /// deadline, and else until the deadline.
    pub fn wait_decision(&self, limit: usize, deadline_ms: Option<i64>, now_ms: i64) -> (r:
        WaitDecision)
        requires
            0 <= now_ms,
        ensures
            r == (if self.outstanding < limit || self.error is Some {
                WaitDecision::Done
            } else {
                match deadline_ms {
                    None => WaitDecision::UntilWoken,
                    Some(deadline) => if now_ms >= deadline {
                        WaitDecision::Done
                    } else {
                        WaitDecision::AtMost { ms: (deadline - now_ms) as i64 }
                    },
                }
            }),
    {
        if self.outstanding < limit || self.error.is_some() {
            return WaitDecision::Done;
        }
        match deadline_ms {
            None => WaitDecision::UntilWoken,
            Some(deadline) => if now_ms >= deadline {
                WaitDecision::Done
            } else {
                WaitDecision::AtMost { ms: deadline - now_ms }
            },
        }
    }

    /// The error that ended the search, if one did.
    pub fn outcome(&self) -> (r: Result<(), EnginError>)
        ensures
            r is Ok == self.error is None,
            r matches Err(error) ==> Some(error) == self.error,
    {
        match self.error {
            Some(error) => Err(error),
            None => Ok(()),
        }
    }
}

/// How long the owner of a search waits.
#[derive(Clone, Copy, Debug, PartialEq, Eq, Structural)]
pub enum WaitDecision {
    Done,
    UntilWoken,
    AtMost { ms: i64 },
}

/// How many lines may be under way at once: one for each permit and for each worker.
pub fn dispatch_limit(nn_credit_limit: usize, worker_count: usize) -> (r: usize)
    ensures
        r == (if nn_credit_limit + worker_count > usize::MAX {
            usize::MAX as int
        } else {
            nn_credit_limit + worker_count
        }),
{
    if nn_credit_limit > usize::MAX - worker_count {
        usize::MAX
    } else {
        nn_credit_limit + worker_count
    }
}

/// Once the time is up the run is stopped, and begins no further line whatever the clock says
/// later.
pub proof fn law_late_runs_are_stopped<S: Scalar>(
    shared: Shared<S>,
    after: Shared<S>,
    limits: SearchLimits,
    initial_visits: u64,
    now_ms: i64,
    later_ms: i64,
)
    requires
        limits.is_late(now_ms),
        after == (Shared { stopping: shared.stopping || limits.is_late(now_ms), ..shared }),
    ensures
        after.stopping,
        after.is_over(limits, initial_visits, later_ms),
{
}

/// A stopped search begins no further line, and neither does one whose limits are
/// reached.
pub proof fn law_no_line_begins_after_the_end<S: Scalar>(
    shared: Shared<S>,
    limits: SearchLimits,
    initial_visits: u64,
    now_ms: i64,
)
    ensures
        shared.stopping ==> shared.is_over(limits, initial_visits, now_ms),
        limits.max_playouts is Some && initial_visits >= limits.max_playouts->Some_0
            ==> shared.is_over(limits, initial_visits, now_ms),
        limits.is_late(now_ms) ==> shared.is_over(limits, initial_visits, now_ms),
{
}

} // verus!
