//! Dealing with the network's reply to a batch of leaves.
use vstd::prelude::*;

use crate::error::EnginError;
use crate::scalar::Scalar;
use crate::stream::answer::{
    are_answered, is_answered, lemma_answers_begin, lemma_answers_go_on, ReplyState,
};
use crate::stream::backprop::{batch_done, batch_edges, depth_max, depth_sum};
use crate::stream::batch::{collisions_cleared, lemma_depths_fit, lines_of, permits_held};
use crate::stream::complete::{
    claim_given_back, lemma_same_edges_covered, lemma_waiters_given_back, unclaimed,
};
use crate::stream::event::{without_line, BackpropEvent, Event};
use crate::stream::publish::{lemma_published_covered, paired, EvalEvent, Evaluation};
use crate::stream::shared::{
    covered, held, holding, law_cancelled_line_leaves_the_others, other_waiters, swap_removed,
    waiters_given_back, Shared,
};
use crate::stream::tree::{ExpansionState, NodeModel};
use crate::sums::lemma_sum_remove;

verus! {

/// The lines of leaves that are evaluated.
pub open spec fn evaluated_lines<S: Scalar>(events: Seq<EvalEvent<S>>) -> Seq<Event<S>> {
    events.map_values(|event: EvalEvent<S>| event.event)
}

/// Whether the leaves are all claimed, each by its own line.
pub open spec fn are_claimed<S: Scalar>(
    nodes: Seq<NodeModel<S>>,
    events: Seq<EvalEvent<S>>,
) -> bool {
    &&& forall|j: int|
        0 <= j < events.len() ==> nodes[(#[trigger] events[j]).event.node_id as int].state
            == ExpansionState::Claimed && events[j].event.node_id < nodes.len()
    &&& forall|i: int, j: int|
        0 <= i < j < events.len() ==> (#[trigger] events[i]).event.node_id != (
        #[trigger] events[j]).event.node_id
}

/// The sum of the depths of leaves.
pub open spec fn eval_depths<S: Scalar>(events: Seq<EvalEvent<S>>, k: int) -> int
    decreases k,
{
    if k <= 0 {
        0
    } else {
        eval_depths(events, k - 1) + events[k - 1].event.node_path@.len()
    }
}

proof fn lemma_first_depth<S: Scalar>(events: Seq<EvalEvent<S>>, k: int)
    requires
        1 <= k <= events.len(),
    ensures
        eval_depths(events, k) == events[0].event.node_path@.len() + eval_depths(
            events.skip(1),
            k - 1,
        ),
    decreases k,
{
    if k > 1 {
        lemma_first_depth(events, k - 1);
        assert(events.skip(1)[k - 2] == events[k - 1]);
    } else {
        assert(eval_depths(events, 0) == 0);
    }
}

proof fn lemma_depths_not_negative<S: Scalar>(events: Seq<EvalEvent<S>>, k: int)
    ensures
        eval_depths(events, k) >= 0,
    decreases k,
{
    if k > 0 {
        lemma_depths_not_negative(events, k - 1);
    }
}

proof fn lemma_depth_pushed<S: Scalar>(
    events: Seq<BackpropEvent<S>>,
    event: BackpropEvent<S>,
    k: int,
)
    requires
        0 <= k <= events.len(),
    ensures
        depth_sum(events.push(event), k) == depth_sum(events, k),
    decreases k,
{
    if k > 0 {
        lemma_depth_pushed(events, event, k - 1);
    }
}

/// Whether two trees have the same nodes, with the same sums.
spec fn same_stats<S: Scalar>(a: Seq<NodeModel<S>>, b: Seq<NodeModel<S>>) -> bool {
    &&& a.len() == b.len()
    &&& forall|x: int| 0 <= x < a.len() ==> (#[trigger] a[x]).stats == b[x].stats
}

/// Giving a claimed leaf back keeps all other lines covered, and no other node changes
/// its state.
proof fn lemma_evaluation_given_back<S: Scalar>(
    nodes: Seq<NodeModel<S>>,
    waiters: Seq<Event<S>>,
    event: Event<S>,
    extra: Seq<Event<S>>,
)
    requires
        covered(nodes, waiters + (seq![event] + extra)),
        event.node_id < nodes.len(),
        nodes[event.node_id as int].state == ExpansionState::Claimed,
    ensures
        ({
            let after = without_line(claim_given_back(nodes, waiters, event.node_id), event);
            let left = other_waiters(waiters, event.node_id, 0);
            &&& covered(after, left + extra)
            &&& after.len() == nodes.len()
            &&& same_stats(nodes, after)
            &&& after[event.node_id as int].state == ExpansionState::Unexpanded
            &&& forall|x: int|
                0 <= x < nodes.len() && x != event.node_id ==> (#[trigger] after[x]).state
                    == nodes[x].state
            &&& left.len() <= waiters.len()
        }),
{
    let id = event.node_id;
    let free = unclaimed(nodes, id);
    assert forall|x: int| 0 <= x < nodes.len() implies (#[trigger] nodes[x]).edges
        == free[x].edges by {}
    lemma_same_edges_covered(nodes, free, waiters + (seq![event] + extra));
    lemma_waiters_given_back(free, waiters, id, seq![event] + extra, 0);
    let cleared = claim_given_back(nodes, waiters, id);
    let left = other_waiters(waiters, id, 0);
    let lines = left + (seq![event] + extra);
    let at = left.len() as int;
    assert(lines[at] == event);
    law_cancelled_line_leaves_the_others(cleared, lines, at);
    assert(lines.remove(at) =~= left + extra);
    let after = without_line(cleared, event);
    lemma_waiters_keep_stats(free, waiters, id, 0);
    assert forall|x: int| 0 <= x < nodes.len() implies (#[trigger] nodes[x]).stats
        == after[x].stats by {
        assert(free[x].stats == cleared[x].stats);
    }
    assert forall|x: int| 0 <= x < nodes.len() && x != id implies (#[trigger] after[x]).state
        == nodes[x].state by {
        assert(cleared[x].state == free[x].state);
    }
    assert(cleared[id as int].state == free[id as int].state);
}

proof fn lemma_waiters_keep_stats<S: Scalar>(
    nodes: Seq<NodeModel<S>>,
    waiters: Seq<Event<S>>,
    id: usize,
    i: int,
)
    requires
        0 <= i,
    ensures
        same_stats(nodes, waiters_given_back(nodes, waiters, id, i)),
    decreases waiters.len() - i,
{
    if i < waiters.len() {
        if waiters[i].node_id == id {
            let middle = without_line(nodes, waiters[i]);
            lemma_waiters_keep_stats(middle, swap_removed(waiters, i), id, i);
            let after = waiters_given_back(nodes, waiters, id, i);
            assert forall|x: int| 0 <= x < nodes.len() implies (#[trigger] nodes[x]).stats
                == after[x].stats by {
                assert(nodes[x].stats == middle[x].stats);
            }
        } else {
            lemma_waiters_keep_stats(nodes, waiters, id, i + 1);
        }
    }
}

/// The first row that could not be read, if there is one.
pub open spec fn first_fault<S>(rows: Seq<Result<Evaluation<S>, EnginError>>, k: int) -> Option<
    EnginError,
>
    decreases k,
{
    if k <= 0 {
        None
    } else {
        match first_fault(rows, k - 1) {
            Some(error) => Some(error),
            None => match rows[k - 1] {
                Err(error) => Some(error),
                Ok(_) => None,
            },
        }
    }
}

/// How many of the first `k` leaves get their edges: those before the first row that
/// could not be read, and none once the search stops.
pub open spec fn published_count<S>(
    rows: Seq<Result<Evaluation<S>, EnginError>>,
    stopping: bool,
    k: int,
) -> int
    decreases k,
{
    if k <= 0 {
        0
    } else {
        published_count(rows, stopping, k - 1) + if !stopping && first_fault(rows, k) is None {
            1int
        } else {
            0
        }
    }
}

impl<S: Scalar> Shared<S> {
    /// Whether a batch of evaluated leaves can be dealt with now.
    pub open spec fn can_reply(&self, events: Seq<EvalEvent<S>>) -> bool {
        &&& self.wf()
        &&& covered(self.arena@, self.collision_waiters@ + evaluated_lines(events))
        &&& are_claimed(self.arena@, events)
        &&& forall|x: int|
            0 <= x < self.arena@.len() ==> (#[trigger] self.arena@[x]).stats.visits + events.len()
                <= u32::MAX
        &&& events.len() <= u32::MAX
        &&& self.collision_waiters@.len() + events.len() <= self.outstanding
        &&& self.completed + events.len() <= u64::MAX
        &&& self.completed_depth + eval_depths(events, events.len() as int) <= u64::MAX
        &&& self.returned_credits + events.len() <= usize::MAX
    }

    /// What stays the same, and what is counted, when `count` lines of a batch end, of which
    /// some are completed.
    pub open spec fn has_replied(&self, after: Self, count: int, completed: int) -> bool {
        &&& after.wf()
        &&& after.arena@.len() == self.arena@.len()
        &&& after.returned_credits == self.returned_credits + count
        &&& after.completed == self.completed + completed
        &&& after.collision_waiters@.len() <= self.collision_waiters@.len()
        &&& after.outstanding == self.outstanding - (self.collision_waiters@.len()
            - after.collision_waiters@.len()) - count
        &&& after == (Shared {
            arena: after.arena,
            collision_waiters: after.collision_waiters,
            outstanding: after.outstanding,
            returned_credits: after.returned_credits,
            completed: after.completed,
            completed_depth: after.completed_depth,
            max_depth: after.max_depth,
            ..*self
        })
    }

    /// The state in which a reply finds the search.
    pub open spec fn reply_state(&self) -> ReplyState<S> {
        ReplyState {
            nodes: self.arena@,
            waiters: self.collision_waiters@,
            ready: Seq::empty(),
        }
    }

    /// Deals with the reply to a batch. Leaves whose rows could be read get their edges;
    /// from the first row on that could not, and once the search stops, claims and lines
    /// are given back. Where all rows could be read, the lines of the leaves with edges are
    /// carried back, so that every line ends and every permit is given back. Where one could
    /// not, the search has failed, and those lines stay under way with their permits.
    pub fn handle_nn_reply_batch(
        &mut self,
        events: Vec<EvalEvent<S>>,
        rows: &Vec<Result<Evaluation<S>, EnginError>>,
    ) -> (r: Result<(), EnginError>)
        requires
            old(self).can_reply(events@),
            rows@.len() == events@.len(),
        ensures
            r is Ok == first_fault(rows@, rows@.len() as int) is None,
            r matches Err(error) ==> Some(error) == first_fault(rows@, rows@.len() as int),
            ({
                let sent = published_count(rows@, old(self).stopping, rows@.len() as int);
                if r is Ok {
                    old(self).has_replied(*final(self), events@.len() as int, sent)
                } else {
                    old(self).has_replied(*final(self), events@.len() - sent, 0)
                }
            }),
            forall|j: int|
                #![trigger events@[j]]
                0 <= j < events@.len() ==> final(self).arena@[events@[j].event.node_id as int].state
                    == (if !old(self).stopping && first_fault(rows@, j + 1) is None {
                    ExpansionState::Expanded
                } else {
                    ExpansionState::Unexpanded
                }),
            exists|t: ReplyState<S>|
                #[trigger] are_answered(
                    events@,
                    rows@,
                    old(self).stopping,
                    events@.len() as int,
                    old(self).reply_state(),
                    t,
                ) && if r is Ok {
                    &&& (final(self).arena@, final(self).collision_waiters@) == collisions_cleared(
                        batch_done(t.nodes, t.ready),
                        t.waiters,
                        t.ready,
                        t.ready.len() as int,
                    )
                    &&& final(self).completed_depth == old(self).completed_depth + depth_sum(
                        t.ready,
                        t.ready.len() as int,
                    )
                    &&& final(self).max_depth == (if depth_max(t.ready, t.ready.len() as int)
                        > old(self).max_depth {
                        depth_max(t.ready, t.ready.len() as int)
                    } else {
                        old(self).max_depth as int
                    })
                } else {
                    &&& (final(self).arena@, final(self).collision_waiters@) == (t.nodes, t.waiters)
                    &&& final(self).completed_depth == old(self).completed_depth
                    &&& final(self).max_depth == old(self).max_depth
                },
    {
        let ghost all = events@;
        let ghost begun = self.reply_state();
        let ghost n = all.len() as int;
        let mut rest: Vec<EvalEvent<S>> = events;
        let mut backprops: Vec<BackpropEvent<S>> = Vec::new();
        let mut failed: Option<EnginError> = None;
        let mut k: usize = 0;
        proof {
            assert(all.skip(0) =~= all);
            assert(lines_of(backprops@) =~= Seq::empty());
            assert(self.collision_waiters@ + (lines_of(backprops@) + evaluated_lines(all))
                =~= self.collision_waiters@ + evaluated_lines(all));
            lemma_depths_not_negative(all, n);
            assert(backprops@ =~= Seq::empty());
            lemma_answers_begin(all, rows@, self.stopping, begun);
        }
        while rest.len() > 0
            invariant
                begun == old(self).reply_state(),
                are_answered(
                    all,
                    rows@,
                    old(self).stopping,
                    k as int,
                    begun,
                    ReplyState {
                        nodes: self.arena@,
                        waiters: self.collision_waiters@,
                        ready: backprops@,
                    },
                ),
                k <= n,
                n == all.len(),
                rows@.len() == n,
                n <= u32::MAX,
                rest@ == all.skip(k as int),
                self.wf(),
                covered(
                    self.arena@,
                    self.collision_waiters@ + (lines_of(backprops@) + evaluated_lines(rest@)),
                ),
                are_claimed(self.arena@, rest@),
                are_claimed(old(self).arena@, all),
                same_stats(old(self).arena@, self.arena@),
                forall|j: int| 0 <= j < backprops@.len() ==> (#[trigger] backprops@[j]).wf()
                    && backprops@[j].holds_nn_credit,
                self.collision_waiters@.len() <= old(self).collision_waiters@.len(),
                self.outstanding == old(self).outstanding - (old(self).collision_waiters@.len()
                    - self.collision_waiters@.len()) - (k - backprops@.len()),
                self.returned_credits == old(self).returned_credits + (k - backprops@.len()),
                backprops@.len() <= k,
                *self == (Shared {
                    arena: self.arena,
                    collision_waiters: self.collision_waiters,
                    outstanding: self.outstanding,
                    returned_credits: self.returned_credits,
                    ..*old(self)
                }),
                old(self).can_reply(all),
                failed == first_fault(rows@, k as int),
                backprops@.len() == published_count(rows@, old(self).stopping, k as int),
                depth_sum(backprops@, backprops@.len() as int) + eval_depths(
                    rest@,
                    rest@.len() as int,
                ) <= eval_depths(all, n),
                forall|j: int|
                    #![trigger all[j]]
                    0 <= j < k ==> self.arena@[all[j].event.node_id as int].state == (if !old(self).stopping && first_fault(rows@, j + 1) is None {
                        ExpansionState::Expanded
                    } else {
                        ExpansionState::Unexpanded
                    }),
            decreases rest@.len(),
        {
            let ghost before = self.arena@;
            let ghost waiters = self.collision_waiters@;
            let ghost queue = rest@;
            let ghost middle = ReplyState { nodes: before, waiters, ready: backprops@ };
            let ghost done = lines_of(backprops@);
            let item: EvalEvent<S> = rest.remove(0);
            let ghost event = item.event;
            let ghost later = evaluated_lines(rest@);
            proof {
                assert(queue[0] == item);
                assert(rest@ =~= queue.skip(1));
                assert(rest@ =~= all.skip(k + 1));
                assert(all[k as int] == item);
                lemma_first_depth(queue, queue.len() as int);
                lemma_depths_not_negative(rest@, rest@.len() as int);
                assert(evaluated_lines(queue) =~= seq![event] + later);
                assert(waiters + (done + evaluated_lines(queue)) =~= waiters + done + seq![event]
                    + later);
                lemma_moved_forward(before, waiters, done, event, later);
                lemma_one_of_many(before, waiters, seq![event] + (done + later));
                assert(covered(before, waiters.push(event))) by {
                    lemma_first_of_extra(before, waiters, event, done + later);
                }
                assert(before[event.node_id as int].state == ExpansionState::Claimed);
            }
            let EvalEvent { event: line, legal_moves } = item;
            let row: &Result<Evaluation<S>, EnginError> = &rows[k];
            let mut cancel: bool = self.stopping || failed.is_some();
            if failed.is_none() {
                match row {
                    Err(error) => {
                        failed = Some(*error);
                        cancel = true;
                    },
                    Ok(_) => {},
                }
            }
            if cancel {
                proof {
                    lemma_evaluation_given_back(before, waiters, event, done + later);
                }
                self.cancel_evaluation(&line);
                proof {
                    assert(self.collision_waiters@ + (done + later) =~= self.collision_waiters@ + (
                    lines_of(backprops@) + evaluated_lines(rest@)));
                }
            } else {
                match row {
                    Ok(eval) => {
                        let ghost sent = backprops@;
                        let ready: BackpropEvent<S> = self.publish_eval(
                            line,
                            &legal_moves,
                            eval,
                            true,
                        );
                        proof {
                            lemma_published_covered(
                                before,
                                self.arena@,
                                event.node_id,
                                paired(legal_moves@, eval.policies@),
                                waiters + done + seq![event] + later,
                            );
                            lemma_depth_pushed(sent, ready, sent.len() as int);
                        }
                        backprops.push(ready);
                        proof {
                            assert(lines_of(backprops@) =~= done + seq![event]);
                            assert(waiters + (lines_of(backprops@) + later) =~= waiters + done
                                + seq![event] + later);
                            assert(event.wf()) by {
                                let lines = waiters.push(event);
                                assert(lines[lines.len() - 1] == event);
                            }
                        }
                    },
                    Err(_) => {},
                }
            }
            proof {
                let now = ReplyState {
                    nodes: self.arena@,
                    waiters: self.collision_waiters@,
                    ready: backprops@,
                };
                if backprops@.len() > middle.ready.len() {
                    assert(backprops@.drop_last() =~= middle.ready);
                }
                assert(is_answered(all, rows@, old(self).stopping, k as int, middle, now));
                lemma_answers_go_on(
                    all,
                    rows@,
                    old(self).stopping,
                    k as int,
                    begun,
                    middle,
                    now,
                );
                lemma_others_claimed(before, self.arena@, queue, event.node_id);
                assert forall|j: int|
                    #![trigger all[j]]
                    0 <= j < k + 1 implies self.arena@[all[j].event.node_id as int].state == (if !old(self).stopping && first_fault(rows@, j + 1) is None {
                    ExpansionState::Expanded
                } else {
                    ExpansionState::Unexpanded
                }) by {
                    if j < k {
                        assert(all[j].event.node_id != all[k as int].event.node_id);
                    }
                }
                assert(same_stats(before, self.arena@));
                assert forall|x: int| 0 <= x < before.len() implies (
                #[trigger] old(self).arena@[x]).stats == self.arena@[x].stats by {
                    assert(old(self).arena@[x].stats == before[x].stats);
                    assert(before[x].stats == self.arena@[x].stats);
                }
            }
            k += 1;
        }
        proof {
            assert(k == n);
            assert(evaluated_lines(rest@) =~= Seq::empty());
            assert(self.collision_waiters@ + (lines_of(backprops@) + evaluated_lines(rest@))
                =~= self.collision_waiters@ + lines_of(backprops@));
            assert forall|x: int| 0 <= x < self.arena@.len() implies (
            #[trigger] self.arena@[x]).stats.visits + backprops@.len() <= u32::MAX by {
                assert(old(self).arena@[x].stats == self.arena@[x].stats);
                assert(old(self).arena@[x].stats.visits + n <= u32::MAX);
            }
            assert(eval_depths(rest@, 0) == 0);
            lemma_states_stay(self.arena@, self.collision_waiters@, backprops@);
            lemma_all_permits(backprops@, backprops@.len() as int);
        }
        let ghost reached = ReplyState {
            nodes: self.arena@,
            waiters: self.collision_waiters@,
            ready: backprops@,
        };
        match failed {
            Some(error) => {
                assert(are_answered(all, rows@, old(self).stopping, n, begun, reached));
                return Err(error);
            },
            None => {},
        }
        self.process_backprop_batch(&backprops);
        proof {
            assert(are_answered(all, rows@, old(self).stopping, n, begun, reached));
            assert((self.arena@, self.collision_waiters@) == collisions_cleared(
                batch_done(reached.nodes, reached.ready),
                reached.waiters,
                reached.ready,
                reached.ready.len() as int,
            ));
            lemma_depths_fit(backprops@, backprops@.len() as int);
        }
        Ok(())
    }
}

/// The order of lines does not matter to what is covered: one may move to the front.
proof fn lemma_moved_forward<S: Scalar>(
    nodes: Seq<NodeModel<S>>,
    waiters: Seq<Event<S>>,
    done: Seq<Event<S>>,
    event: Event<S>,
    later: Seq<Event<S>>,
)
    requires
        covered(nodes, waiters + done + seq![event] + later),
    ensures
        covered(nodes, waiters + (seq![event] + (done + later))),
{
    let a = waiters + done + seq![event] + later;
    let b = waiters + (seq![event] + (done + later));
    let at = (waiters + done).len() as int;
    let front = waiters.len() as int;
    assert forall|x: int, e: int|
        0 <= x < nodes.len() && 0 <= e < nodes[x].edges.len() implies #[trigger] held(b, x, e)
        <= nodes[x].edges[e].spec_in_flight() by {
        lemma_sum_remove(a, at, holding(x, e));
        lemma_sum_remove(b, front, holding(x, e));
        assert(a.remove(at) =~= b.remove(front));
        assert(a[at] == event && b[front] == event);
        assert(held(a, x, e) <= nodes[x].edges[e].spec_in_flight());
    }
    assert forall|j: int| 0 <= j < b.len() implies (#[trigger] b[j]).wf()
        && b[j].runs_through(nodes) by {
        if j < front {
            assert(a[j] == b[j]);
        } else if j == front {
            assert(a[at] == b[j]);
        } else if j <= at {
            assert(a[j - 1] == b[j]);
        } else {
            assert(a[j] == b[j]);
        }
    }
}

/// Fewer lines are covered where more are.
proof fn lemma_one_of_many<S: Scalar>(
    nodes: Seq<NodeModel<S>>,
    waiters: Seq<Event<S>>,
    extra: Seq<Event<S>>,
)
    requires
        covered(nodes, waiters + extra),
    ensures
        covered(nodes, waiters),
    decreases extra.len(),
{
    if extra.len() == 0 {
        assert(waiters + extra =~= waiters);
    } else {
        let lines = waiters + extra;
        lemma_last_dropped(nodes, lines);
        assert(lines.drop_last() =~= waiters + extra.drop_last());
        lemma_one_of_many(nodes, waiters, extra.drop_last());
    }
}

proof fn lemma_last_dropped<S: Scalar>(nodes: Seq<NodeModel<S>>, lines: Seq<Event<S>>)
    requires
        covered(nodes, lines),
        lines.len() > 0,
    ensures
        covered(nodes, lines.drop_last()),
{
    let fewer = lines.drop_last();
    assert forall|x: int, e: int|
        0 <= x < nodes.len() && 0 <= e < nodes[x].edges.len() implies #[trigger] held(fewer, x, e)
        <= nodes[x].edges[e].spec_in_flight() by {
        assert(held(lines, x, e) <= nodes[x].edges[e].spec_in_flight());
    }
    assert forall|j: int| 0 <= j < fewer.len() implies (#[trigger] fewer[j]).wf()
        && fewer[j].runs_through(nodes) by {
        assert(lines[j] == fewer[j]);
    }
}

proof fn lemma_first_of_extra<S: Scalar>(
    nodes: Seq<NodeModel<S>>,
    waiters: Seq<Event<S>>,
    event: Event<S>,
    extra: Seq<Event<S>>,
)
    requires
        covered(nodes, waiters + (seq![event] + extra)),
    ensures
        covered(nodes, waiters.push(event)),
{
    assert(waiters + (seq![event] + extra) =~= waiters.push(event) + extra);
    lemma_one_of_many(nodes, waiters.push(event), extra);
}

/// Once one leaf is dealt with the others are still claimed.
proof fn lemma_others_claimed<S: Scalar>(
    before: Seq<NodeModel<S>>,
    after: Seq<NodeModel<S>>,
    queue: Seq<EvalEvent<S>>,
    id: usize,
)
    requires
        queue.len() > 0,
        queue[0].event.node_id == id,
        are_claimed(before, queue),
        after.len() == before.len(),
        forall|x: int|
            0 <= x < before.len() && x != id ==> (#[trigger] after[x]).state == before[x].state,
    ensures
        are_claimed(after, queue.skip(1)),
{
    let rest = queue.skip(1);
    assert forall|j: int| 0 <= j < rest.len() implies after[(#[trigger] rest[j]).event.node_id as int].state
        == ExpansionState::Claimed && rest[j].event.node_id < after.len() by {
        assert(rest[j] == queue[j + 1]);
        assert(queue[0].event.node_id != queue[j + 1].event.node_id);
        assert(before[queue[j + 1].event.node_id as int].state == ExpansionState::Claimed);
    }
    assert forall|i: int, j: int| 0 <= i < j < rest.len() implies (
    #[trigger] rest[i]).event.node_id != (#[trigger] rest[j]).event.node_id by {
        assert(queue[i + 1].event.node_id != queue[j + 1].event.node_id);
    }
}

/// Completing a batch changes no node's state.
proof fn lemma_states_stay<S: Scalar>(
    nodes: Seq<NodeModel<S>>,
    waiters: Seq<Event<S>>,
    events: Seq<BackpropEvent<S>>,
)
    ensures
        ({
            let after = collisions_cleared(
                batch_done(nodes, events),
                waiters,
                events,
                events.len() as int,
            );
            &&& after.0.len() == nodes.len()
            &&& forall|x: int|
                0 <= x < nodes.len() ==> (#[trigger] after.0[x]).state == nodes[x].state
            &&& after.1.len() <= waiters.len()
        }),
{
    let done = batch_done(nodes, events);
    lemma_edges_keep_states(nodes, events, events.len() as int);
    assert forall|x: int| 0 <= x < nodes.len() implies (#[trigger] done[x]).state
        == nodes[x].state by {
        assert(batch_edges(nodes, events, events.len() as int)[x].state == nodes[x].state);
    }
    lemma_clearing_keeps_states(done, waiters, events, events.len() as int);
    let after = collisions_cleared(done, waiters, events, events.len() as int);
    assert forall|x: int| 0 <= x < nodes.len() implies (#[trigger] after.0[x]).state
        == nodes[x].state by {
        assert(after.0[x].state == done[x].state);
    }
}

proof fn lemma_edges_keep_states<S: Scalar>(
    nodes: Seq<NodeModel<S>>,
    events: Seq<BackpropEvent<S>>,
    k: int,
)
    ensures
        batch_edges(nodes, events, k).len() == nodes.len(),
        forall|x: int|
            0 <= x < nodes.len() ==> (#[trigger] batch_edges(nodes, events, k)[x]).state
                == nodes[x].state,
    decreases k,
{
    if k > 0 {
        lemma_edges_keep_states(nodes, events, k - 1);
        let before = batch_edges(nodes, events, k - 1);
        assert forall|x: int| 0 <= x < nodes.len() implies (
        #[trigger] batch_edges(nodes, events, k)[x]).state == nodes[x].state by {
            assert(before[x].state == nodes[x].state);
        }
    }
}

proof fn lemma_clearing_keeps_states<S: Scalar>(
    nodes: Seq<NodeModel<S>>,
    waiters: Seq<Event<S>>,
    events: Seq<BackpropEvent<S>>,
    k: int,
)
    ensures
        ({
            let after = collisions_cleared(nodes, waiters, events, k);
            &&& after.0.len() == nodes.len()
            &&& forall|x: int|
                0 <= x < nodes.len() ==> (#[trigger] after.0[x]).state == nodes[x].state
            &&& after.1.len() <= waiters.len()
        }),
    decreases k,
{
    if k > 0 {
        lemma_clearing_keeps_states(nodes, waiters, events, k - 1);
        let (before, left) = collisions_cleared(nodes, waiters, events, k - 1);
        let id = events[k - 1].event.node_id;
        lemma_giving_back_keeps_states(before, left, id, 0);
        let after = collisions_cleared(nodes, waiters, events, k);
        assert forall|x: int| 0 <= x < nodes.len() implies (#[trigger] after.0[x]).state
            == nodes[x].state by {
            assert(before[x].state == nodes[x].state);
        }
    }
}

proof fn lemma_giving_back_keeps_states<S: Scalar>(
    nodes: Seq<NodeModel<S>>,
    waiters: Seq<Event<S>>,
    id: usize,
    i: int,
)
    requires
        0 <= i,
    ensures
        waiters_given_back(nodes, waiters, id, i).len() == nodes.len(),
        forall|x: int|
            0 <= x < nodes.len() ==> (#[trigger] waiters_given_back(nodes, waiters, id, i)[x]).state
                == nodes[x].state,
        other_waiters(waiters, id, i).len() <= waiters.len(),
    decreases waiters.len() - i,
{
    if i < waiters.len() {
        if waiters[i].node_id == id {
            let middle = without_line(nodes, waiters[i]);
            lemma_giving_back_keeps_states(middle, swap_removed(waiters, i), id, i);
            assert forall|x: int| 0 <= x < nodes.len() implies (
            #[trigger] waiters_given_back(nodes, waiters, id, i)[x]).state == nodes[x].state by {
                assert(middle[x].state == nodes[x].state);
            }
        } else {
            lemma_giving_back_keeps_states(nodes, waiters, id, i + 1);
        }
    }
}

proof fn lemma_all_permits<S: Scalar>(events: Seq<BackpropEvent<S>>, k: int)
    requires
        0 <= k <= events.len(),
        forall|j: int| 0 <= j < events.len() ==> (#[trigger] events[j]).holds_nn_credit,
    ensures
        permits_held(events, k) == k,
    decreases k,
{
    if k > 0 {
        lemma_all_permits(events, k - 1);
        assert(events[k - 1].holds_nn_credit);
    }
}

} // verus!
