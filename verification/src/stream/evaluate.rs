//! Evaluating a claimed leaf: from the cache, or by the network.
use vstd::prelude::*;

use crate::scalar::Scalar;
use crate::stream::backprop::line_done;
use crate::stream::complete::claim_given_back;
use crate::stream::event::{without_line, BackpropEvent, Event};
use crate::stream::publish::{
    is_published_at, lemma_published_covered, paired, EvalEvent, Evaluation,
};
use crate::stream::shared::{other_waiters, waiters_given_back, Shared};
use crate::stream::tree::NodeModel;
use crate::stream::value::ValueDelta;

verus! {

/// What becomes of a leaf that is to be evaluated.
#[derive(Debug)]
pub enum EvalOutcome<S> {
    /// The network is to evaluate it.
    Request(EvalEvent<S>),
    /// Its evaluation was known, and was carried back.
    Completed,
    /// The line was given back.
    Cancelled,
}

/// Whether a line is an event with an evaluation.
pub open spec fn carries<S: Scalar>(
    line: BackpropEvent<S>,
    event: Event<S>,
    eval: Evaluation<S>,
) -> bool {
    line.event == event && line.value == ValueDelta::spec_one(
        eval.wl.spec_negated(),
        eval.d,
        eval.plies_left,
    )
}

impl<S: Scalar> Shared<S> {
    /// What becomes of a leaf whose evaluation is known: its edges are published, and the
    /// value is carried back.
    pub open spec fn is_answered(
        &self,
        after: Self,
        item: EvalEvent<S>,
        eval: Evaluation<S>,
    ) -> bool {
        &&& exists|line: BackpropEvent<S>, nodes: Seq<NodeModel<S>>|
            {
                &&& #[trigger] carries(line, item.event, eval)
                &&& #[trigger] is_published_at(
                    self.arena@,
                    nodes,
                    item.event.node_id,
                    paired(item.legal_moves@, eval.policies@),
                )
                &&& after.arena@ == waiters_given_back(
                    line_done(nodes, line),
                    self.collision_waiters@,
                    item.event.node_id,
                    0,
                )
            }
        &&& after.collision_waiters@ == other_waiters(
            self.collision_waiters@,
            item.event.node_id,
            0,
        )
        &&& after.completed == self.completed + 1
        &&& after.outstanding == self.outstanding - (self.collision_waiters@.len()
            - after.collision_waiters@.len()) - 1
        &&& after.completed_depth == self.completed_depth + item.event.node_path@.len()
        &&& after == (Shared {
            arena: after.arena,
            collision_waiters: after.collision_waiters,
            outstanding: after.outstanding,
            completed: after.completed,
            completed_depth: after.completed_depth,
            max_depth: if item.event.node_path@.len() > self.max_depth {
                item.event.node_path@.len() as u64
            } else {
                self.max_depth
            },
            ..*self
        })
    }

    /// Deals with a leaf that is to be evaluated. A known evaluation needs no permit and is
    /// carried back at once. A search that stops gives the claim and the line back.
    pub fn process_eval_event(
        &mut self,
        item: EvalEvent<S>,
        cached: Option<Evaluation<S>>,
    ) -> (r: EvalOutcome<S>)
        requires
            old(self).can_expand(item.event),
        ensures
            final(self).wf(),
            old(self).stopping ==> r is Cancelled && final(self).arena@ == without_line(
                claim_given_back(
                    old(self).arena@,
                    old(self).collision_waiters@,
                    item.event.node_id,
                ),
                item.event,
            ) && final(self).collision_waiters@ == other_waiters(
                old(self).collision_waiters@,
                item.event.node_id,
                0,
            ) && *final(self) == (Shared {
                arena: final(self).arena,
                collision_waiters: final(self).collision_waiters,
                outstanding: (old(self).outstanding - (old(self).collision_waiters@.len()
                    - final(self).collision_waiters@.len()) - 1) as usize,
                ..*old(self)
            }),
            !old(self).stopping ==> match cached {
                Some(eval) => r is Completed && old(self).is_answered(*final(self), item, eval),
                None => r == EvalOutcome::Request(item) && *final(self) == *old(self),
            },
    {
        if self.stopping {
            self.cancel_claim(&item.event);
            return EvalOutcome::Cancelled;
        }
        match cached {
            None => EvalOutcome::Request(item),
            Some(eval) => {
                let ghost nodes = self.arena@;
                let ghost waiters = self.collision_waiters@;
                let EvalEvent { event, legal_moves } = item;
                proof {
                    let lines = waiters.push(event);
                    assert(lines[lines.len() - 1] == event);
                    assert(event.wf() && event.runs_through(nodes));
                    assert(event.node_path@[event.node_path@.len() - 1] < nodes.len());
                    assert(nodes[event.node_id as int].wf());
                }
                let ghost leaf = event;
                let line: BackpropEvent<S> = self.publish_eval(event, &legal_moves, &eval, false);
                proof {
                    lemma_published_covered(
                        nodes,
                        self.arena@,
                        leaf.node_id,
                        paired(legal_moves@, eval.policies@),
                        waiters.push(leaf),
                    );
                    assert forall|x: int| 0 <= x < self.arena@.len() implies (
                    #[trigger] self.arena@[x]).stats.visits < u32::MAX by {
                        assert(nodes[x].stats.visits < u32::MAX);
                    }
                    assert(carries(line, leaf, eval));
                    assert(is_published_at(
                        nodes,
                        self.arena@,
                        leaf.node_id,
                        paired(legal_moves@, eval.policies@),
                    ));
                }
                self.process_backprop_one(&line);
                EvalOutcome::Completed
            },
        }
    }

    /// Counts leaves that the network evaluated.
    pub fn record_inference(&mut self, samples: u64)
        requires
            old(self).network_evaluations + samples <= u64::MAX,
        ensures
            *final(self) == (Shared {
                network_evaluations: (old(self).network_evaluations + samples) as u64,
                ..*old(self)
            }),
            old(self).wf() ==> final(self).wf(),
    {
        self.network_evaluations = self.network_evaluations + samples;
    }
}

} // verus!
