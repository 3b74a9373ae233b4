//! Finishing lines: completed with their results, or given back with their claims.
use vstd::prelude::*;

use crate::graph::backprop::BackpropResult;
use crate::scalar::Scalar;
use crate::stream::backprop::{complete_one, law_line_completes_its_visits, line_done};
use crate::stream::event::{without_line, BackpropEvent, Event};
use crate::stream::shared::{
    accounted, covered, held, holding, law_cancelled_line_leaves_the_others,
    lemma_covered_is_under_way, lemma_swap_removed_covered, other_waiters, swap_removed,
    waiters_given_back, Shared,
};
use crate::stream::tree::{ExpansionState, NodeId, NodeModel};
use crate::sums::lemma_sum_remove;

verus! {

/// Completing one of the lines leaves exactly the visits of the others under way.
pub proof fn law_completed_line_leaves_the_others<S: Scalar>(
    nodes: Seq<NodeModel<S>>,
    lines: Seq<Event<S>>,
    j: int,
    event: BackpropEvent<S>,
)
    requires
        covered(nodes, lines),
        0 <= j < lines.len(),
        event.event == lines[j],
        event.wf(),
        forall|i: int| 0 <= i < nodes.len() ==> (#[trigger] nodes[i]).wf(),
    ensures
        covered(line_done(nodes, event), lines.remove(j)),
        accounted(nodes, lines) ==> accounted(line_done(nodes, event), lines.remove(j)),
{
    let after = line_done(nodes, event);
    let rest = lines.remove(j);
    lemma_covered_is_under_way(nodes, lines, j);
    assert forall|x: int, e: int|
        0 <= x < after.len() && 0 <= e < after[x].edges.len() implies #[trigger] held(rest, x, e)
        <= after[x].edges[e].spec_in_flight() && (accounted(nodes, lines) ==> held(rest, x, e)
        == after[x].edges[e].spec_in_flight()) by {
        assert(nodes[x].edges.len() == after[x].edges.len());
        assert(nodes[x].wf());
        law_line_completes_its_visits(nodes, event, x, e);
        lemma_sum_remove(lines, j, holding(x, e));
        assert(held(lines, x, e) <= nodes[x].edges[e].spec_in_flight());
    }
    assert forall|k: int| 0 <= k < rest.len() implies (#[trigger] rest[k]).wf()
        && rest[k].runs_through(after) by {
        let other = if k < j {
            lines[k]
        } else {
            lines[k + 1]
        };
        assert(rest[k] == other);
        assert(other.wf() && other.runs_through(nodes));
        assert forall|i: int| 0 <= i < other.reservations@.len() implies (
        #[trigger] other.reservations@[i]).edge < after[other.node_path@[i] as int].edges.len() by {
            assert(other.node_path@[i] < nodes.len());
        }
    }
}

/// Giving waiting lines back keeps further lines covered.
pub(crate) proof fn lemma_waiters_given_back<S: Scalar>(
    nodes: Seq<NodeModel<S>>,
    waiters: Seq<Event<S>>,
    id: NodeId,
    extra: Seq<Event<S>>,
    i: int,
)
    requires
        covered(nodes, waiters + extra),
        0 <= i,
    ensures
        covered(waiters_given_back(nodes, waiters, id, i), other_waiters(waiters, id, i) + extra),
        other_waiters(waiters, id, i).len() <= waiters.len(),
        waiters_given_back(nodes, waiters, id, i).len() == nodes.len(),
        forall|x: int|
            0 <= x < nodes.len() ==> (#[trigger] waiters_given_back(nodes, waiters, id, i)[x]).state
                == nodes[x].state,
    decreases waiters.len() - i,
{
    if i < waiters.len() {
        if waiters[i].node_id == id {
            let lines = waiters + extra;
            assert(lines[i] == waiters[i]);
            law_cancelled_line_leaves_the_others(nodes, lines, i);
            assert(lines.remove(i) =~= waiters.remove(i) + extra);
            let after = without_line(nodes, waiters[i]);
            lemma_swap_removed_covered(after, waiters, i, extra);
            lemma_waiters_given_back(after, swap_removed(waiters, i), id, extra, i);
            assert forall|x: int| 0 <= x < nodes.len() implies (
            #[trigger] waiters_given_back(nodes, waiters, id, i)[x]).state == nodes[x].state by {
                assert(after[x].state == nodes[x].state);
            }
        } else {
            lemma_waiters_given_back(nodes, waiters, id, extra, i + 1);
        }
    }
}

pub(crate) proof fn lemma_push_is_add<S: Scalar>(lines: Seq<Event<S>>, event: Event<S>)
    ensures
        lines.push(event) =~= lines + seq![event],
        lines.push(event).remove(lines.len() as int) =~= lines,
{
}

/// The tree without a claim on a node.
pub open spec fn unclaimed<S: Scalar>(nodes: Seq<NodeModel<S>>, id: NodeId) -> Seq<NodeModel<S>> {
    nodes.update(
        id as int,
        NodeModel { state: ExpansionState::Unexpanded, ..nodes[id as int] },
    )
}

/// The tree once a claim and all lines that wait for it are given back.
pub open spec fn claim_given_back<S: Scalar>(
    nodes: Seq<NodeModel<S>>,
    waiters: Seq<Event<S>>,
    id: NodeId,
) -> Seq<NodeModel<S>> {
    waiters_given_back(unclaimed(nodes, id), waiters, id, 0)
}

impl<S: Scalar> Shared<S> {
    /// Gives a claim back, with all lines that wait for it.
    fn abort_claim(&mut self, id: NodeId, extra: Ghost<Seq<Event<S>>>)
        requires
            old(self).wf(),
            id < old(self).arena@.len(),
            old(self).arena@[id as int].state == ExpansionState::Claimed,
            covered(old(self).arena@, old(self).collision_waiters@ + extra@),
        ensures
            final(self).wf(),
            final(self).arena@ == claim_given_back(
                old(self).arena@,
                old(self).collision_waiters@,
                id,
            ),
            final(self).collision_waiters@ == other_waiters(
                old(self).collision_waiters@,
                id,
                0,
            ),
            *final(self) == (Shared {
                arena: final(self).arena,
                collision_waiters: final(self).collision_waiters,
                outstanding: (old(self).outstanding - (old(self).collision_waiters@.len() - final(self).collision_waiters@.len())) as usize,
                ..*old(self)
            }),
            covered(final(self).arena@, final(self).collision_waiters@ + extra@),
            final(self).collision_waiters@.len() <= old(self).collision_waiters@.len(),
    {
        let ghost nodes = self.arena@;
        let ghost waiters = self.collision_waiters@;
        let ghost after = unclaimed(nodes, id);
        let node = self.arena.node_mut(id);
        node.abort_claim();
        proof {
            assert(self.arena@ == after);
            lemma_same_edges_covered(nodes, after, waiters + extra@);
            lemma_same_edges_covered(nodes, after, waiters);
            lemma_same_edges_wf(nodes, after, id);
            lemma_waiters_given_back(after, waiters, id, extra@, 0);
        }
        self.cancel_collisions(id);
    }

    /// Ends a line that had claimed its node and has no permit for an evaluation.
    pub fn cancel_claim(&mut self, event: &Event<S>)
        requires
            old(self).can_cancel(*event),
            old(self).arena@[event.node_id as int].state == ExpansionState::Claimed,
        ensures
            final(self).wf(),
            final(self).arena@ == without_line(
                claim_given_back(
                    old(self).arena@,
                    old(self).collision_waiters@,
                    event.node_id,
                ),
                *event,
            ),
            final(self).collision_waiters@ == other_waiters(
                old(self).collision_waiters@,
                event.node_id,
                0,
            ),
            *final(self) == (Shared {
                arena: final(self).arena,
                collision_waiters: final(self).collision_waiters,
                outstanding: (old(self).outstanding - (old(self).collision_waiters@.len() - final(self).collision_waiters@.len()) - 1) as usize,
                ..*old(self)
            }),
    {
        proof {
            let lines = self.collision_waiters@.push(*event);
            assert(lines[lines.len() - 1] == *event);
            assert(event.wf() && event.runs_through(self.arena@));
            assert(event.node_path@[event.node_path@.len() - 1] < self.arena@.len());
            lemma_push_is_add(self.collision_waiters@, *event);
        }
        let ghost extra = seq![*event];
        self.abort_claim(event.node_id, Ghost(extra));
        proof {
            lemma_push_is_add(self.collision_waiters@, *event);
        }
        self.cancel_event(event);
    }

    /// Ends a line that had claimed its node and holds a permit for an evaluation, which
    /// is given back too.
    pub fn cancel_evaluation(&mut self, event: &Event<S>)
        requires
            old(self).can_cancel(*event),
            old(self).arena@[event.node_id as int].state == ExpansionState::Claimed,
            old(self).returned_credits < usize::MAX,
        ensures
            final(self).wf(),
            final(self).arena@ == without_line(
                claim_given_back(
                    old(self).arena@,
                    old(self).collision_waiters@,
                    event.node_id,
                ),
                *event,
            ),
            final(self).collision_waiters@ == other_waiters(
                old(self).collision_waiters@,
                event.node_id,
                0,
            ),
            *final(self) == (Shared {
                arena: final(self).arena,
                collision_waiters: final(self).collision_waiters,
                returned_credits: (old(self).returned_credits + 1) as usize,
                outstanding: (old(self).outstanding - (old(self).collision_waiters@.len() - final(self).collision_waiters@.len()) - 1) as usize,
                ..*old(self)
            }),
    {
        self.cancel_claim(event);
        self.return_nn_credits(1);
    }

    /// Whether a line can be completed now: its visits are under way besides those of the
    /// lines that wait, and everything can still be counted.
    pub open spec fn can_complete(&self, event: BackpropEvent<S>) -> bool {
        &&& self.can_cancel(event.event)
        &&& event.wf()
        &&& forall|x: int|
            0 <= x < self.arena@.len() ==> (#[trigger] self.arena@[x]).stats.visits < u32::MAX
        &&& self.completed < u64::MAX
        &&& self.completed_depth + event.event.node_path@.len() <= u64::MAX
        &&& self.returned_credits < usize::MAX
    }

    /// Completes one line, and ends those that waited for its leaf.
    pub fn process_backprop_one(&mut self, event: &BackpropEvent<S>)
        requires
            old(self).can_complete(*event),
        ensures
            final(self).wf(),
            final(self).arena@ == waiters_given_back(
                line_done(old(self).arena@, *event),
                old(self).collision_waiters@,
                event.event.node_id,
                0,
            ),
            final(self).collision_waiters@ == other_waiters(
                old(self).collision_waiters@,
                event.event.node_id,
                0,
            ),
            final(self).collision_waiters@.len() <= old(self).collision_waiters@.len(),
            *final(self) == (Shared {
                arena: final(self).arena,
                collision_waiters: final(self).collision_waiters,
                outstanding: (old(self).outstanding - (old(self).collision_waiters@.len() - final(self).collision_waiters@.len()) - 1) as usize,
                completed: (old(self).completed + 1) as u64,
                completed_depth: (old(self).completed_depth + event.event.node_path@.len()) as u64,
                max_depth: if event.event.node_path@.len() > old(self).max_depth {
                    event.event.node_path@.len() as u64
                } else {
                    old(self).max_depth
                },
                returned_credits: (old(self).returned_credits + if event.holds_nn_credit {
                    1int
                } else {
                    0
                }) as usize,
                ..*old(self)
            }),
    {
        let ghost nodes = self.arena@;
        let ghost waiters = self.collision_waiters@;
        proof {
            lemma_push_is_add(waiters, event.event);
            lemma_covered_is_under_way(nodes, waiters.push(event.event), waiters.len() as int);
            law_completed_line_leaves_the_others(
                nodes,
                waiters.push(event.event),
                waiters.len() as int,
                *event,
            );
        }
        let result: BackpropResult = complete_one(event, &mut self.arena);
        self.cancel_collisions(event.event.node_id);
        if event.holds_nn_credit {
            self.return_nn_credits(1);
        }
        self.completed_depth = self.completed_depth + result.completed_depth;
        if result.max_depth > self.max_depth {
            self.max_depth = result.max_depth;
        }
        self.finish(1, true);
    }
}

pub(crate) proof fn lemma_same_edges_covered<S: Scalar>(
    a: Seq<NodeModel<S>>,
    b: Seq<NodeModel<S>>,
    lines: Seq<Event<S>>,
)
    requires
        a.len() == b.len(),
        forall|x: int| 0 <= x < a.len() ==> (#[trigger] a[x]).edges == b[x].edges,
        covered(a, lines),
    ensures
        covered(b, lines),
{
    assert forall|x: int, e: int|
        0 <= x < b.len() && 0 <= e < b[x].edges.len() implies #[trigger] held(lines, x, e)
        <= b[x].edges[e].spec_in_flight() by {
        assert(a[x].edges == b[x].edges);
        assert(held(lines, x, e) <= a[x].edges[e].spec_in_flight());
    }
    assert forall|j: int| 0 <= j < lines.len() implies (#[trigger] lines[j]).wf()
        && lines[j].runs_through(b) by {
        assert(lines[j].runs_through(a));
        assert forall|i: int| 0 <= i < lines[j].reservations@.len() implies (
        #[trigger] lines[j].reservations@[i]).edge < b[lines[j].node_path@[i] as int].edges.len() by {
            assert(lines[j].node_path@[i] < a.len());
            assert(a[lines[j].node_path@[i] as int].edges == b[lines[j].node_path@[i] as int].edges);
        }
    }
}

proof fn lemma_same_edges_wf<S: Scalar>(a: Seq<NodeModel<S>>, b: Seq<NodeModel<S>>, id: NodeId)
    requires
        id < a.len(),
        a[id as int].state == ExpansionState::Claimed,
        b == unclaimed(a, id),
        forall|i: int| 0 <= i < a.len() ==> (#[trigger] a[i]).wf(),
        crate::stream::tree::leads_forward(a),
    ensures
        forall|i: int| 0 <= i < b.len() ==> (#[trigger] b[i]).wf(),
        crate::stream::tree::leads_forward(b),
{
    assert forall|i: int| 0 <= i < b.len() implies (#[trigger] b[i]).wf() by {
        assert(a[i].wf());
        assert forall|j: int| 0 <= j < b[i].edges.len() implies (#[trigger] b[i].edges[j]).wf() by {
            assert(a[i].edges[j].wf());
        }
    }
    assert forall|i: int, j: int|
        0 <= i < b.len() && 0 <= j < b[i].edges.len() implies ((
    #[trigger] b[i].edges[j]).child matches Some(c) ==> i < c < b.len()) by {
        assert(a[i].edges[j].child == b[i].edges[j].child);
    }
}

} // verus!
