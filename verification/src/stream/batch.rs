//! Finishing a batch of lines at once.
use vstd::prelude::*;

use crate::graph::backprop::BackpropResult;
use crate::scalar::Scalar;
use crate::stream::backprop;
use crate::stream::backprop::{
    batch_done, batch_edges, can_take, complete_batch, depth_max, depth_sum, edges_done,
    law_line_completes_its_visits, lemma_line_completed, line_done,
};
use crate::stream::event::{is_under_way, BackpropEvent, Event};
use crate::stream::shared::{
    accounted, covered, held, holding, other_waiters, waiters_given_back, Shared,
};
use crate::stream::tree::NodeModel;
use crate::sums::{lemma_sum_bounds, lemma_sum_remove, sum_by};

verus! {

/// The lines of a batch.
pub open spec fn lines_of<S: Scalar>(events: Seq<BackpropEvent<S>>) -> Seq<Event<S>> {
    events.map_values(|event: BackpropEvent<S>| event.event)
}

proof fn lemma_sum_of_both<T>(a: Seq<T>, b: Seq<T>, f: spec_fn(T) -> int)
    ensures
        sum_by(a + b, f) == sum_by(a, f) + sum_by(b, f),
    decreases b.len(),
{
    if b.len() == 0 {
        assert(a + b =~= a);
    } else {
        lemma_sum_of_both(a, b.drop_last(), f);
        assert((a + b).drop_last() =~= a + b.drop_last());
    }
}

proof fn lemma_held_by_events<S: Scalar>(
    events: Seq<BackpropEvent<S>>,
    k: int,
    x: int,
    e: int,
)
    requires
        0 <= k <= events.len(),
    ensures
        backprop::held(events, k, x, e) == held(lines_of(events).skip(k), x, e),
    decreases events.len() - k,
{
    let lines = lines_of(events);
    if k < events.len() {
        lemma_held_by_events(events, k + 1, x, e);
        lemma_sum_remove(lines.skip(k), 0, holding(x, e));
        assert(lines.skip(k).remove(0) =~= lines.skip(k + 1));
        assert(lines.skip(k)[0] == events[k].event);
    } else {
        assert(lines.skip(k) =~= Seq::empty());
    }
}

proof fn lemma_edges_done_wf<S: Scalar>(nodes: Seq<NodeModel<S>>, event: BackpropEvent<S>)
    requires
        event.wf(),
        is_under_way(nodes, event.event),
        forall|i: int| 0 <= i < nodes.len() ==> (#[trigger] nodes[i]).wf(),
    ensures
        forall|i: int| 0 <= i < nodes.len() ==> (#[trigger] edges_done(nodes, event)[i]).wf(),
{
    let after = edges_done(nodes, event);
    let line = event.event;
    assert forall|x: int| 0 <= x < nodes.len() implies (#[trigger] after[x]).wf() by {
        assert(nodes[x].wf());
        assert forall|e: int| 0 <= e < after[x].edges.len() implies (#[trigger] after[x].edges[e]).wf() by {
            assert(nodes[x].edges[e].wf());
            if line.passes(x) && line.place(x) < line.reservations@.len() {
                let i = line.place(x);
                assert(line.node_path@[i] == x);
                assert(nodes[line.node_path@[i] as int].edges[line.reservations@[i].edge as int].spec_in_flight()
                    > 0);
            }
        }
    }
}

/// What completing the first `k` lines of a batch does to one edge.
proof fn lemma_batch_in_flight<S: Scalar>(
    nodes: Seq<NodeModel<S>>,
    events: Seq<BackpropEvent<S>>,
    k: int,
    x: int,
    e: int,
)
    requires
        0 <= k <= events.len(),
        can_take(nodes, events, 0),
        forall|i: int| 0 <= i < nodes.len() ==> (#[trigger] nodes[i]).wf(),
        0 <= x < nodes.len(),
        0 <= e < nodes[x].edges.len(),
    ensures
        can_take(batch_edges(nodes, events, k), events, k),
        batch_edges(nodes, events, k).len() == nodes.len(),
        forall|i: int|
            0 <= i < nodes.len() ==> (#[trigger] batch_edges(nodes, events, k)[i]).wf(),
        batch_edges(nodes, events, k)[x].edges.len() == nodes[x].edges.len(),
        batch_edges(nodes, events, k)[x].edges[e].spec_in_flight()
            == nodes[x].edges[e].spec_in_flight() - backprop::held(events, 0, x, e)
            + backprop::held(events, k, x, e),
    decreases k,
{
    if k > 0 {
        lemma_batch_in_flight(nodes, events, k - 1, x, e);
        let before = batch_edges(nodes, events, k - 1);
        lemma_line_completed(before, events, k - 1);
        assert(events[k - 1].wf());
        lemma_edges_done_wf(before, events[k - 1]);
        assert(before[x].wf());
        law_line_completes_its_visits(before, events[k - 1], x, e);
        assert(line_done(before, events[k - 1])[x].edges == edges_done(before, events[k - 1])[x].edges);
    }
}

/// Completing a batch leaves exactly the visits of the other lines under way.
pub proof fn law_completed_batch_leaves_the_others<S: Scalar>(
    nodes: Seq<NodeModel<S>>,
    events: Seq<BackpropEvent<S>>,
    others: Seq<Event<S>>,
)
    requires
        covered(nodes, others + lines_of(events)),
        forall|j: int| 0 <= j < events.len() ==> (#[trigger] events[j]).wf(),
        forall|i: int| 0 <= i < nodes.len() ==> (#[trigger] nodes[i]).wf(),
    ensures
        can_take(nodes, events, 0),
        covered(batch_done(nodes, events), others),
        accounted(nodes, others + lines_of(events)) ==> accounted(
            batch_done(nodes, events),
            others,
        ),
{
    let lines = lines_of(events);
    let all = others + lines;
    let n = events.len() as int;
    assert(lines.skip(0) =~= lines);
    assert forall|x: int, e: int|
        0 <= x < nodes.len() && 0 <= e < nodes[x].edges.len() implies #[trigger] backprop::held(
        events,
        0,
        x,
        e,
    ) <= nodes[x].edges[e].spec_in_flight() by {
        lemma_held_by_events(events, 0, x, e);
        lemma_sum_of_both(others, lines, holding(x, e));
        lemma_sum_bounds(others, holding(x, e));
        assert(held(all, x, e) <= nodes[x].edges[e].spec_in_flight());
    }
    assert forall|j: int| 0 <= j < events.len() implies (#[trigger] events[j]).wf()
        && events[j].event.runs_through(nodes) by {
        assert(all[others.len() + j] == events[j].event);
    }
    let after = batch_done(nodes, events);
    lemma_same_shape(nodes, events, n);
    assert forall|x: int, e: int|
        0 <= x < after.len() && 0 <= e < after[x].edges.len() implies #[trigger] held(others, x, e)
        <= after[x].edges[e].spec_in_flight() && (accounted(nodes, all) ==> held(others, x, e)
        == after[x].edges[e].spec_in_flight()) by {
        assert(batch_edges(nodes, events, n)[x].edges.len() == nodes[x].edges.len());
        lemma_batch_in_flight(nodes, events, n, x, e);
        assert(after[x].edges == batch_edges(nodes, events, n)[x].edges);
        lemma_held_by_events(events, 0, x, e);
        lemma_sum_of_both(others, lines, holding(x, e));
        assert(held(all, x, e) <= nodes[x].edges[e].spec_in_flight());
    }
    assert forall|k: int| 0 <= k < others.len() implies (#[trigger] others[k]).wf()
        && others[k].runs_through(after) by {
        assert(all[k] == others[k]);
        let other = others[k];
        assert(other.runs_through(nodes));
        assert forall|i: int| 0 <= i < other.reservations@.len() implies (
        #[trigger] other.reservations@[i]).edge < after[other.node_path@[i] as int].edges.len() by {
            assert(other.node_path@[i] < nodes.len());
            assert(batch_edges(nodes, events, n)[other.node_path@[i] as int].edges.len()
                == nodes[other.node_path@[i] as int].edges.len());
        }
    }
}

proof fn lemma_same_shape<S: Scalar>(
    nodes: Seq<NodeModel<S>>,
    events: Seq<BackpropEvent<S>>,
    k: int,
)
    requires
        0 <= k <= events.len(),
        forall|j: int|
            0 <= j < events.len() ==> (#[trigger] events[j]).wf() && events[j].event.runs_through(
                nodes,
            ),
    ensures
        batch_edges(nodes, events, k).len() == nodes.len(),
        forall|x: int|
            0 <= x < nodes.len() ==> (#[trigger] batch_edges(nodes, events, k)[x]).edges.len()
                == nodes[x].edges.len(),
    decreases k,
{
    if k > 0 {
        lemma_same_shape(nodes, events, k - 1);
        let before = batch_edges(nodes, events, k - 1);
        let line = events[k - 1].event;
        assert(events[k - 1].wf() && line.runs_through(nodes));
        assert forall|x: int| 0 <= x < nodes.len() implies (
        #[trigger] batch_edges(nodes, events, k)[x]).edges.len() == nodes[x].edges.len() by {
            assert(before[x].edges.len() == nodes[x].edges.len());
            if line.passes(x) && line.place(x) < line.reservations@.len() {
                let i = line.place(x);
                assert(line.node_path@[i] == x);
                assert(line.reservations@[i].edge < nodes[line.node_path@[i] as int].edges.len());
            }
        }
    }
}

/// The tree and the waiting lines once those that waited for the leaves of the first `k`
/// lines are given back.
pub open spec fn collisions_cleared<S: Scalar>(
    nodes: Seq<NodeModel<S>>,
    waiters: Seq<Event<S>>,
    events: Seq<BackpropEvent<S>>,
    k: int,
) -> (Seq<NodeModel<S>>, Seq<Event<S>>)
    decreases k,
{
    if k <= 0 {
        (nodes, waiters)
    } else {
        let (before, left) = collisions_cleared(nodes, waiters, events, k - 1);
        let id = events[k - 1].event.node_id;
        (
            waiters_given_back(before, left, id, 0),
            other_waiters(left, id, 0),
        )
    }
}

/// How many of the first `k` lines hold a permit for an evaluation.
pub open spec fn permits_held<S: Scalar>(events: Seq<BackpropEvent<S>>, k: int) -> int
    decreases k,
{
    if k <= 0 {
        0
    } else {
        permits_held(events, k - 1) + if events[k - 1].holds_nn_credit {
            1int
        } else {
            0
        }
    }
}

impl<S: Scalar> Shared<S> {
    /// Whether a batch can be completed now.
    pub open spec fn can_complete_all(&self, events: Seq<BackpropEvent<S>>) -> bool {
        &&& self.wf()
        &&& covered(self.arena@, self.collision_waiters@ + lines_of(events))
        &&& forall|j: int| 0 <= j < events.len() ==> (#[trigger] events[j]).wf()
        &&& forall|x: int|
            0 <= x < self.arena@.len() ==> (#[trigger] self.arena@[x]).stats.visits + events.len()
                <= u32::MAX
        &&& events.len() <= u32::MAX
        &&& self.collision_waiters@.len() + events.len() <= self.outstanding
        &&& self.completed + events.len() <= u64::MAX
        &&& self.completed_depth + depth_sum(events, events.len() as int) <= u64::MAX
        &&& self.returned_credits + events.len() <= usize::MAX
    }

    /// Completes a batch of lines, and ends those that waited for their leaves.
    pub fn process_backprop_batch(&mut self, events: &Vec<BackpropEvent<S>>)
        requires
            old(self).can_complete_all(events@),
        ensures
            final(self).wf(),
            ({
                let n = events@.len() as int;
                let (nodes, waiters) = collisions_cleared(
                    batch_done(old(self).arena@, events@),
                    old(self).collision_waiters@,
                    events@,
                    n,
                );
                &&& final(self).arena@ == nodes
                &&& final(self).collision_waiters@ == waiters
                &&& *final(self) == (Shared {
                    arena: final(self).arena,
                    collision_waiters: final(self).collision_waiters,
                    outstanding: (old(self).outstanding - (old(self).collision_waiters@.len()
                        - waiters.len()) - n) as usize,
                    completed: (old(self).completed + n) as u64,
                    completed_depth: (old(self).completed_depth + depth_sum(events@, n)) as u64,
                    max_depth: if depth_max(events@, n) > old(self).max_depth {
                        depth_max(events@, n) as u64
                    } else {
                        old(self).max_depth
                    },
                    returned_credits: (old(self).returned_credits + permits_held(
                        events@,
                        n,
                    )) as usize,
                    ..*old(self)
                })
            }),
    {
        let ghost nodes = self.arena@;
        let ghost waiters = self.collision_waiters@;
        let count: usize = events.len();
        proof {
            law_completed_batch_leaves_the_others(nodes, events@, waiters);
            lemma_depths_fit(events@, count as int);
        }
        let result: BackpropResult = complete_batch(events, &mut self.arena);
        let ghost done = self.arena@;
        let mut permits: usize = 0;
        let mut k: usize = 0;
        while k < count
            invariant
                k <= count,
                count == events@.len(),
                waiters == old(self).collision_waiters@,
                waiters.len() + count <= old(self).outstanding,
                old(self).returned_credits + count <= usize::MAX,
                self.wf(),
                collisions_cleared(done, waiters, events@, k as int) == (
                    self.arena@,
                    self.collision_waiters@,
                ),
                self.collision_waiters@.len() <= waiters.len(),
                self.outstanding == old(self).outstanding - (waiters.len()
                    - self.collision_waiters@.len()),
                *self == (Shared {
                    arena: self.arena,
                    collision_waiters: self.collision_waiters,
                    outstanding: self.outstanding,
                    ..*old(self)
                }),
                permits == permits_held(events@, k as int),
                permits <= k,
            decreases count - k,
        {
            self.cancel_collisions(events[k].event.node_id);
            if events[k].holds_nn_credit {
                permits = permits + 1;
            }
            k += 1;
        }
        self.return_nn_credits(permits);
        self.completed_depth = self.completed_depth + result.completed_depth;
        if result.max_depth > self.max_depth {
            self.max_depth = result.max_depth;
        }
        self.finish(count, true);
    }
}

pub proof fn lemma_depths_fit<S: Scalar>(events: Seq<BackpropEvent<S>>, k: int)
    requires
        0 <= k <= events.len(),
    ensures
        0 <= depth_max(events, k) <= depth_sum(events, k),
    decreases k,
{
    if k > 0 {
        lemma_depths_fit(events, k - 1);
    }
}

} // verus!
