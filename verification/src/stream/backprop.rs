//! Carrying results back along the lines.
use std::collections::HashMap;

use vstd::prelude::*;

use crate::graph::backprop::BackpropResult;
use crate::scalar::Scalar;
use crate::stream::event::{is_under_way, lemma_one_node_changed, lemma_place, BackpropEvent};
use crate::stream::tree::{EdgeReservation, NodeArena, NodeId, NodeModel};
use crate::stream::value::ValueDelta;

verus! {

/// What a line adds to its node number `i`: the result of the leaf, turned over at each
/// move; a node with a known result passes on that result instead.
pub open spec fn delta_at<S: Scalar>(
    nodes: Seq<NodeModel<S>>,
    event: BackpropEvent<S>,
    i: int,
) -> ValueDelta<S>
    decreases event.event.node_path@.len() - i,
{
    let path = event.event.node_path@;
    let carried = if i >= path.len() - 1 {
        event.value
    } else {
        delta_at(nodes, event, i + 1).spec_to_parent()
    };
    match nodes[path[i] as int].terminal {
        Some(result) => ValueDelta::spec_one(result.0, result.1, result.2),
        None => carried,
    }
}

/// A node of the tree once a line's visits are completed: its edge takes the value that
/// the line brings to the node behind it.
pub open spec fn node_done<S: Scalar>(
    nodes: Seq<NodeModel<S>>,
    event: BackpropEvent<S>,
    x: int,
) -> NodeModel<S> {
    let line = event.event;
    if line.passes(x) && line.place(x) < line.reservations@.len() {
        let reservation = line.reservations@[line.place(x)];
        nodes[x].with_edge(
            reservation.edge as int,
            nodes[x].edges[reservation.edge as int].completed_with(
                reservation.virtual_mean,
                delta_at(nodes, event, line.place(x) + 1).spec_q(),
            ),
        )
    } else {
        nodes[x]
    }
}

/// The tree once a line's visits are completed.
pub open spec fn edges_done<S: Scalar>(
    nodes: Seq<NodeModel<S>>,
    event: BackpropEvent<S>,
) -> Seq<NodeModel<S>> {
    Seq::new(nodes.len(), |x: int| node_done(nodes, event, x))
}

/// The tree once a line is completed: its visits, and the sums of its nodes.
pub open spec fn line_done<S: Scalar>(
    nodes: Seq<NodeModel<S>>,
    event: BackpropEvent<S>,
) -> Seq<NodeModel<S>> {
    Seq::new(
        nodes.len(),
        |x: int|
            if event.event.passes(x) {
                NodeModel {
                    stats: nodes[x].stats.spec_merge(
                        delta_at(nodes, event, event.event.place(x)),
                    ),
                    ..node_done(nodes, event, x)
                }
            } else {
                nodes[x]
            },
    )
}

proof fn lemma_delta_is_one<S: Scalar>(nodes: Seq<NodeModel<S>>, event: BackpropEvent<S>, i: int)
    requires
        event.value.visits == 1,
    ensures
        delta_at(nodes, event, i).visits == 1,
    decreases event.event.node_path@.len() - i,
{
    if i < event.event.node_path@.len() - 1 {
        lemma_delta_is_one(nodes, event, i + 1);
    }
}

/// What a line adds depends on known results only.
proof fn lemma_same_terminals<S: Scalar>(
    a: Seq<NodeModel<S>>,
    b: Seq<NodeModel<S>>,
    event: BackpropEvent<S>,
    i: int,
)
    requires
        a.len() == b.len(),
        forall|x: int| 0 <= x < a.len() ==> (#[trigger] a[x]).terminal == b[x].terminal,
        event.event.runs_through(a),
        0 <= i < event.event.node_path@.len(),
    ensures
        delta_at(a, event, i) == delta_at(b, event, i),
    decreases event.event.node_path@.len() - i,
{
    assert(event.event.node_path@[i] < a.len());
    assert(a[event.event.node_path@[i] as int].terminal
        == b[event.event.node_path@[i] as int].terminal);
    if i < event.event.node_path@.len() - 1 {
        lemma_same_terminals(a, b, event, i + 1);
    }
}

/// What a line adds to each of its nodes.
fn line_deltas<S: Scalar>(arena: &NodeArena<S>, event: &BackpropEvent<S>) -> (r: Vec<
    ValueDelta<S>,
>)
    requires
        event.wf(),
        event.event.runs_through(arena@),
    ensures
        r@.len() == event.event.node_path@.len(),
        forall|i: int| 0 <= i < r@.len() ==> #[trigger] r@[i] == delta_at(arena@, *event, i),
{
    let count: usize = event.event.node_path.len();
    let mut deltas: Vec<ValueDelta<S>> = Vec::new();
    let mut n: usize = 0;
    while n < count
        invariant
            n <= count,
            deltas@.len() == n,
        decreases count - n,
    {
        deltas.push(event.value);
        n += 1;
    }
    let mut delta: ValueDelta<S> = event.value;
    let mut i: usize = count;
    while i > 0
        invariant
            i <= count,
            count == event.event.node_path@.len(),
            deltas@.len() == count,
            event.wf(),
            event.event.runs_through(arena@),
            i == count ==> delta == event.value,
            i < count ==> delta == delta_at(arena@, *event, i as int).spec_to_parent(),
            forall|j: int| i <= j < count ==> #[trigger] deltas@[j] == delta_at(arena@, *event, j),
        decreases i,
    {
        i = i - 1;
        assert(event.event.node_path@[i as int] < arena@.len());
        match arena.get(event.event.node_path[i]).unwrap().terminal_value() {
            Some((wl, draw, plies_left)) => {
                delta = ValueDelta::one(wl, draw, plies_left);
            },
            None => {},
        }
        assert(delta == delta_at(arena@, *event, i as int));
        deltas.set(i, delta);
        delta = delta.to_parent();
    }
    deltas
}

/// Completes the visits of a line.
fn complete_edges<S: Scalar>(
    arena: &mut NodeArena<S>,
    event: &BackpropEvent<S>,
    deltas: &Vec<ValueDelta<S>>,
)
    requires
        old(arena).wf(),
        event.wf(),
        is_under_way(old(arena)@, event.event),
        deltas@.len() == event.event.node_path@.len(),
        forall|i: int|
            0 <= i < deltas@.len() ==> #[trigger] deltas@[i] == delta_at(old(arena)@, *event, i),
    ensures
        final(arena).wf(),
        final(arena)@ == edges_done(old(arena)@, *event),
{
    let ghost nodes = arena@;
    let ghost line = event.event;
    let mut k: usize = event.event.reservations.len();
    while k > 0
        invariant
            k <= line.reservations@.len(),
            line == event.event,
            event.wf(),
            is_under_way(nodes, line),
            nodes == old(arena)@,
            arena.wf(),
            arena@.len() == nodes.len(),
            deltas@.len() == line.node_path@.len(),
            forall|i: int|
                0 <= i < deltas@.len() ==> #[trigger] deltas@[i] == delta_at(nodes, *event, i),
            forall|x: int|
                0 <= x < nodes.len() ==> #[trigger] arena@[x] == (if line.passes(x) && k
                    <= line.place(x) {
                    node_done(nodes, *event, x)
                } else {
                    nodes[x]
                }),
        decreases k,
    {
        k = k - 1;
        let id: NodeId = event.event.node_path[k];
        let reservation: EdgeReservation<S> = event.event.reservations[k];
        let wl: S = deltas[k + 1].q();
        let ghost before = arena@;
        proof {
            lemma_place(line, k as int);
            assert(line.node_path@[k as int] < nodes.len());
            assert(arena@[id as int] == nodes[id as int]);
            assert(line.reservations@[k as int].edge < nodes[id as int].edges.len());
            assert(nodes[id as int].edges[reservation.edge as int].spec_in_flight() > 0);
            assert(deltas@[k + 1] == delta_at(nodes, *event, k + 1));
            assert(nodes[id as int].wf());
        }
        let node = arena.node_mut(id);
        reservation.complete(node, wl);
        proof {
            lemma_one_node_changed(
                before,
                arena@,
                id as int,
                reservation.edge as int,
                nodes[id as int].edges[reservation.edge as int].completed_with(
                    reservation.virtual_mean,
                    wl,
                ),
            );
            assert forall|x: int| 0 <= x < nodes.len() implies #[trigger] arena@[x] == (
            if line.passes(x) && k <= line.place(x) {
                node_done(nodes, *event, x)
            } else {
                nodes[x]
            }) by {
                if x != id {
                    assert(arena@[x] == before[x]);
                    if line.passes(x) && line.place(x) == k {
                        assert(line.node_path@[line.place(x)] == x);
                    }
                }
            }
        }
    }
    proof {
        assert forall|x: int| 0 <= x < nodes.len() implies #[trigger] arena@[x] == edges_done(
            nodes,
            *event,
        )[x] by {
            if line.passes(x) {
                assert(0 <= line.place(x));
            }
        }
        assert(arena@ =~= edges_done(nodes, *event));
    }
}

/// Adding results to a node keeps a tree consistent.
proof fn lemma_stats_changed<S: Scalar>(
    before: Seq<NodeModel<S>>,
    after: Seq<NodeModel<S>>,
    id: int,
    stats: ValueDelta<S>,
)
    requires
        0 <= id < before.len(),
        after == before.update(id, NodeModel { stats, ..before[id] }),
        forall|i: int| 0 <= i < before.len() ==> (#[trigger] before[i]).wf(),
        crate::stream::tree::leads_forward(before),
    ensures
        forall|i: int| 0 <= i < after.len() ==> (#[trigger] after[i]).wf(),
        crate::stream::tree::leads_forward(after),
{
    assert forall|i: int| 0 <= i < after.len() implies (#[trigger] after[i]).wf() by {
        assert(before[i].wf());
        assert(after[i].edges == before[i].edges);
        assert forall|j: int| 0 <= j < after[i].edges.len() implies (
        #[trigger] after[i].edges[j]).wf() by {
            assert(before[i].edges[j].wf());
        }
    }
    assert forall|i: int, j: int|
        0 <= i < after.len() && 0 <= j < after[i].edges.len() implies ((
    #[trigger] after[i].edges[j]).child matches Some(c) ==> i < c < after.len()) by {
        assert(before[i].edges[j].child == after[i].edges[j].child);
    }
}

/// Completes one line: its visits, and the sums of its nodes.
pub fn complete_one<S: Scalar>(event: &BackpropEvent<S>, arena: &mut NodeArena<S>) -> (r:
    BackpropResult)
    requires
        old(arena).wf(),
        event.wf(),
        is_under_way(old(arena)@, event.event),
        forall|x: int| 0 <= x < old(arena)@.len() ==> (#[trigger] old(arena)@[x]).stats.visits < u32::MAX,
    ensures
        final(arena).wf(),
        final(arena)@ == line_done(old(arena)@, *event),
        r.completed_playouts == 1,
        r.completed_depth == event.event.node_path@.len(),
        r.max_depth == event.event.node_path@.len(),
{
    let ghost nodes = arena@;
    let ghost line = event.event;
    let deltas: Vec<ValueDelta<S>> = line_deltas(arena, event);
    complete_edges(arena, event, &deltas);
    let ghost done = arena@;
    let count: usize = event.event.node_path.len();
    let mut k: usize = 0;
    while k < count
        invariant
            k <= count,
            count == line.node_path@.len(),
            line == event.event,
            event.wf(),
            line.runs_through(nodes),
            nodes == old(arena)@,
            done == edges_done(nodes, *event),
            arena.wf(),
            arena@.len() == nodes.len(),
            deltas@.len() == count,
            forall|i: int| 0 <= i < count ==> #[trigger] deltas@[i] == delta_at(nodes, *event, i),
            forall|x: int| 0 <= x < nodes.len() ==> (#[trigger] nodes[x]).stats.visits < u32::MAX,
            forall|x: int|
                0 <= x < nodes.len() ==> #[trigger] arena@[x] == (if line.passes(x) && line.place(x)
                    < k {
                    line_done(nodes, *event)[x]
                } else {
                    done[x]
                }),
        decreases count - k,
    {
        let id: NodeId = event.event.node_path[k];
        let ghost before = arena@;
        proof {
            lemma_place(line, k as int);
            assert(line.node_path@[k as int] < nodes.len());
            assert(arena@[id as int] == done[id as int]);
            lemma_delta_is_one(nodes, *event, k as int);
            assert(deltas@[k as int] == delta_at(nodes, *event, k as int));
            assert(nodes[id as int].stats.visits < u32::MAX);
        }
        let node = arena.node_mut(id);
        node.add_delta(deltas[k]);
        proof {
            let stats = before[id as int].stats.spec_merge(deltas@[k as int]);
            assert(arena@ == before.update(
                id as int,
                NodeModel { stats, ..before[id as int] },
            ));
            lemma_stats_changed(before, arena@, id as int, stats);
            assert forall|x: int| 0 <= x < nodes.len() implies #[trigger] arena@[x] == (
            if line.passes(x) && line.place(x) < k + 1 {
                line_done(nodes, *event)[x]
            } else {
                done[x]
            }) by {
                if x != id {
                    assert(arena@[x] == before[x]);
                    if line.passes(x) && line.place(x) == k {
                        assert(line.node_path@[line.place(x)] == x);
                    }
                }
            }
        }
        k += 1;
    }
    proof {
        assert forall|x: int| 0 <= x < nodes.len() implies #[trigger] arena@[x] == line_done(
            nodes,
            *event,
        )[x] by {
            if line.passes(x) {
                assert(line.node_path@[line.place(x)] == x);
            } else {
                assert(done[x] == nodes[x]);
            }
        }
        assert(arena@ =~= line_done(nodes, *event));
    }
    let depth: u64 = count as u64;
    BackpropResult { completed_playouts: 1, completed_depth: depth, max_depth: depth }
}

/// How many of the lines from number `k` on hold a visit on an edge.
pub open spec fn held<S: Scalar>(events: Seq<BackpropEvent<S>>, k: int, x: int, e: int) -> int
    decreases events.len() - k,
{
    if k >= events.len() {
        0
    } else {
        held(events, k + 1, x, e) + if events[k].event.holds(x, e) {
            1int
        } else {
            0
        }
    }
}

/// The tree once the visits of the first `k` lines are completed.
pub open spec fn batch_edges<S: Scalar>(
    nodes: Seq<NodeModel<S>>,
    events: Seq<BackpropEvent<S>>,
    k: int,
) -> Seq<NodeModel<S>>
    decreases k,
{
    if k <= 0 {
        nodes
    } else {
        edges_done(batch_edges(nodes, events, k - 1), events[k - 1])
    }
}

/// What one line adds to the sum for a node.
pub open spec fn gathered<S: Scalar>(
    nodes: Seq<NodeModel<S>>,
    event: BackpropEvent<S>,
    before: Option<ValueDelta<S>>,
    x: int,
) -> Option<ValueDelta<S>> {
    if event.event.passes(x) {
        let delta = delta_at(nodes, event, event.event.place(x));
        match before {
            Some(sum) => Some(sum.spec_merge(delta)),
            None => Some(delta),
        }
    } else {
        before
    }
}

/// What the first `k` lines together add to a node.
pub open spec fn batch_delta<S: Scalar>(
    nodes: Seq<NodeModel<S>>,
    events: Seq<BackpropEvent<S>>,
    k: int,
    x: int,
) -> Option<ValueDelta<S>>
    decreases k,
{
    if k <= 0 {
        None
    } else {
        gathered(nodes, events[k - 1], batch_delta(nodes, events, k - 1, x), x)
    }
}

/// A node of the tree once a batch is completed.
pub open spec fn batch_node<S: Scalar>(
    nodes: Seq<NodeModel<S>>,
    events: Seq<BackpropEvent<S>>,
    x: int,
) -> NodeModel<S> {
    let done = batch_edges(nodes, events, events.len() as int)[x];
    match batch_delta(nodes, events, events.len() as int, x) {
        Some(delta) => NodeModel { stats: done.stats.spec_merge(delta), ..done },
        None => done,
    }
}

/// The tree once a batch is completed: the visits line by line, and each node's sums at
/// once.
pub open spec fn batch_done<S: Scalar>(
    nodes: Seq<NodeModel<S>>,
    events: Seq<BackpropEvent<S>>,
) -> Seq<NodeModel<S>> {
    Seq::new(nodes.len(), |x: int| batch_node(nodes, events, x))
}

/// The sum of the depths of the first `k` lines.
pub open spec fn depth_sum<S: Scalar>(events: Seq<BackpropEvent<S>>, k: int) -> int
    decreases k,
{
    if k <= 0 {
        0
    } else {
        depth_sum(events, k - 1) + events[k - 1].event.node_path@.len()
    }
}

/// The largest depth of the first `k` lines.
pub open spec fn depth_max<S: Scalar>(events: Seq<BackpropEvent<S>>, k: int) -> int
    decreases k,
{
    if k <= 0 {
        0
    } else if events[k - 1].event.node_path@.len() > depth_max(events, k - 1) {
        events[k - 1].event.node_path@.len() as int
    } else {
        depth_max(events, k - 1)
    }
}

/// Whether a tree can take the lines from number `k` on: they run through it, and as many
/// visits are under way on each edge as they hold there.
pub open spec fn can_take<S: Scalar>(
    nodes: Seq<NodeModel<S>>,
    events: Seq<BackpropEvent<S>>,
    k: int,
) -> bool {
    &&& forall|j: int|
        k <= j < events.len() ==> (#[trigger] events[j]).wf() && events[j].event.runs_through(nodes)
    &&& forall|x: int, e: int|
        0 <= x < nodes.len() && 0 <= e < nodes[x].edges.len() ==> #[trigger] held(events, k, x, e)
            <= nodes[x].edges[e].spec_in_flight()
}

proof fn lemma_held_not_negative<S: Scalar>(
    events: Seq<BackpropEvent<S>>,
    k: int,
    x: int,
    e: int,
)
    ensures
        held(events, k, x, e) >= 0,
    decreases events.len() - k,
{
    if k < events.len() {
        lemma_held_not_negative(events, k + 1, x, e);
    }
}

proof fn lemma_depths_grow<S: Scalar>(events: Seq<BackpropEvent<S>>, k: int)
    requires
        0 <= k <= events.len(),
    ensures
        0 <= depth_sum(events, k) <= depth_sum(events, events.len() as int),
    decreases events.len() - k,
{
    if k < events.len() {
        lemma_depths_grow(events, k + 1);
    }
    lemma_depths_positive(events, k);
}

proof fn lemma_depths_positive<S: Scalar>(events: Seq<BackpropEvent<S>>, k: int)
    ensures
        depth_sum(events, k) >= 0,
    decreases k,
{
    if k > 0 {
        lemma_depths_positive(events, k - 1);
    }
}

proof fn lemma_batch_delta_counts<S: Scalar>(
    nodes: Seq<NodeModel<S>>,
    events: Seq<BackpropEvent<S>>,
    k: int,
    x: int,
)
    requires
        0 <= k <= events.len(),
        k <= u32::MAX,
        forall|j: int| 0 <= j < events.len() ==> (#[trigger] events[j]).wf(),
    ensures
        batch_delta(nodes, events, k, x) matches Some(delta) ==> 1 <= delta.visits <= k,
    decreases k,
{
    if k > 0 {
        lemma_batch_delta_counts(nodes, events, k - 1, x);
        assert(events[k - 1].wf());
        lemma_delta_is_one(nodes, events[k - 1], events[k - 1].event.place(x));
    }
}

/// The lines that are left are still covered once one is completed, and the tree keeps
/// its shape.
pub(crate) proof fn lemma_line_completed<S: Scalar>(
    nodes: Seq<NodeModel<S>>,
    events: Seq<BackpropEvent<S>>,
    k: int,
)
    requires
        0 <= k < events.len(),
        can_take(nodes, events, k),
        forall|i: int| 0 <= i < nodes.len() ==> (#[trigger] nodes[i]).wf(),
    ensures
        is_under_way(nodes, events[k].event),
        can_take(edges_done(nodes, events[k]), events, k + 1),
        forall|x: int|
            0 <= x < nodes.len() ==> (#[trigger] edges_done(nodes, events[k])[x]).terminal
                == nodes[x].terminal && edges_done(nodes, events[k])[x].stats == nodes[x].stats,
{
    let event = events[k];
    let line = event.event;
    let after = edges_done(nodes, event);
    assert(event.wf() && line.runs_through(nodes));
    assert forall|i: int| 0 <= i < line.reservations@.len() implies nodes[line.node_path@[i] as int].edges[(
    #[trigger] line.reservations@[i]).edge as int].spec_in_flight() > 0 by {
        let x = line.node_path@[i] as int;
        let e = line.reservations@[i].edge as int;
        lemma_place(line, i);
        assert(line.node_path@[i] < nodes.len());
        assert(line.holds(x, e));
        lemma_held_not_negative(events, k + 1, x, e);
        assert(held(events, k, x, e) <= nodes[x].edges[e].spec_in_flight());
    }
    assert forall|x: int, e: int|
        0 <= x < after.len() && 0 <= e < after[x].edges.len() implies #[trigger] held(
        events,
        k + 1,
        x,
        e,
    ) <= after[x].edges[e].spec_in_flight() by {
        assert(held(events, k, x, e) <= nodes[x].edges[e].spec_in_flight());
        if line.passes(x) && line.place(x) < line.reservations@.len() {
            let i = line.place(x);
            assert(line.node_path@[i] == x);
            assert(line.reservations@[i].edge < nodes[x].edges.len());
            assert(nodes[line.node_path@[i] as int].edges[line.reservations@[i].edge as int].spec_in_flight()
                > 0);
            assert(nodes[x].wf());
        }
    }
    assert forall|j: int| k + 1 <= j < events.len() implies (#[trigger] events[j]).wf()
        && events[j].event.runs_through(after) by {
        let other = events[j].event;
        assert(other.runs_through(nodes));
        assert forall|i: int| 0 <= i < other.reservations@.len() implies (
        #[trigger] other.reservations@[i]).edge < after[other.node_path@[i] as int].edges.len() by {
            assert(other.node_path@[i] < nodes.len());
        }
    }
}

/// Completes a batch of lines. The sums of a node that several lines pass are gathered
/// first and added at once.
pub fn complete_batch<S: Scalar>(events: &Vec<BackpropEvent<S>>, arena: &mut NodeArena<S>) -> (r:
    BackpropResult)
    requires
        old(arena).wf(),
        can_take(old(arena)@, events@, 0),
        events@.len() <= u32::MAX,
        depth_sum(events@, events@.len() as int) <= u64::MAX,
        forall|x: int|
            0 <= x < old(arena)@.len() ==> (#[trigger] old(arena)@[x]).stats.visits + events@.len()
                <= u32::MAX,
    ensures
        final(arena).wf(),
        final(arena)@ == batch_done(old(arena)@, events@),
        r.completed_playouts == events@.len(),
        r.completed_depth == depth_sum(events@, events@.len() as int),
        r.max_depth == depth_max(events@, events@.len() as int),
{
    broadcast use vstd::std_specs::hash::group_hash_axioms;

    let ghost nodes = arena@;
    let mut totals: HashMap<NodeId, ValueDelta<S>> = HashMap::new();
    let mut touched: Vec<NodeId> = Vec::new();
    let mut result: BackpropResult = BackpropResult::default();
    let mut k: usize = 0;
    while k < events.len()
        invariant
            k <= events@.len(),
            events@.len() <= u32::MAX,
            depth_sum(events@, events@.len() as int) <= u64::MAX,
            nodes == old(arena)@,
            can_take(nodes, events@, 0),
            arena.wf(),
            arena@ == batch_edges(nodes, events@, k as int),
            arena@.len() == nodes.len(),
            can_take(arena@, events@, k as int),
            forall|x: int|
                0 <= x < nodes.len() ==> (#[trigger] arena@[x]).terminal == nodes[x].terminal
                    && arena@[x].stats == nodes[x].stats,
            gathers(totals@, touched@, nodes, events@, k as int),
            result.completed_playouts == k,
            result.completed_depth == depth_sum(events@, k as int),
            result.max_depth == depth_max(events@, k as int),
        decreases events@.len() - k,
    {
        let event: &BackpropEvent<S> = &events[k];
        let ghost before = arena@;
        proof {
            lemma_depths_grow(events@, k + 1);
            lemma_line_completed(before, events@, k as int);
            assert(event.wf() && event.event.runs_through(before));
        }
        let deltas: Vec<ValueDelta<S>> = line_deltas(arena, event);
        complete_edges(arena, event, &deltas);
        proof {
            assert forall|i: int| 0 <= i < deltas@.len() implies #[trigger] deltas@[i] == delta_at(
                nodes,
                *event,
                i,
            ) by {
                assert(events@[k as int].event.runs_through(nodes));
                lemma_same_terminals(before, nodes, *event, i);
            }
        }
        gather_line(&mut totals, &mut touched, event, &deltas, Ghost(nodes), Ghost(events@), k);
        let depth: u64 = event.event.node_path.len() as u64;
        result.completed_playouts = result.completed_playouts + 1;
        result.completed_depth = result.completed_depth + depth;
        if depth > result.max_depth {
            result.max_depth = depth;
        }
        proof {
            assert forall|x: int| 0 <= x < nodes.len() implies (#[trigger] arena@[x]).terminal
                == nodes[x].terminal && arena@[x].stats == nodes[x].stats by {
                assert(before[x].terminal == nodes[x].terminal);
                assert(edges_done(before, *event)[x].terminal == before[x].terminal);
            }
        }
        k += 1;
    }
    let ghost done = arena@;
    let count: usize = touched.len();
    let mut t: usize = 0;
    while t < count
        invariant
            t <= count,
            count == touched@.len(),
            events@.len() <= u32::MAX,
            nodes == old(arena)@,
            can_take(nodes, events@, 0),
            done == batch_edges(nodes, events@, events@.len() as int),
            done.len() == nodes.len(),
            arena.wf(),
            arena@.len() == nodes.len(),
            forall|x: int| 0 <= x < nodes.len() ==> (#[trigger] done[x]).stats == nodes[x].stats,
            forall|x: int|
                0 <= x < nodes.len() ==> (#[trigger] nodes[x]).stats.visits + events@.len()
                    <= u32::MAX,
            gathers(totals@, touched@, nodes, events@, events@.len() as int),
            forall|x: int|
                0 <= x < nodes.len() ==> #[trigger] arena@[x] == (if exists|s: int|
                    0 <= s < t && #[trigger] touched@[s] == x {
                    batch_node(nodes, events@, x)
                } else {
                    done[x]
                }),
        decreases count - t,
    {
        broadcast use vstd::std_specs::hash::group_hash_axioms;

        let id: NodeId = touched[t];
        let ghost before = arena@;
        proof {
            assert(touched@.contains(touched@[t as int]));
            assert(totals@.contains_key(id));
            lemma_gathered_nodes_exist(nodes, events@, events@.len() as int, id as int);
            lemma_batch_delta_counts(nodes, events@, events@.len() as int, id as int);
            assert(!(exists|s: int| 0 <= s < t && #[trigger] touched@[s] == id));
            assert(arena@[id as int] == done[id as int]);
            assert(done[id as int].stats == nodes[id as int].stats);
            assert(nodes[id as int].stats.visits + events@.len() <= u32::MAX);
        }
        let delta: ValueDelta<S> = *totals.get(&id).unwrap();
        assert(Some(delta) == batch_delta(nodes, events@, events@.len() as int, id as int));
        let node = arena.node_mut(id);
        node.add_delta(delta);
        proof {
            let stats = before[id as int].stats.spec_merge(delta);
            assert(arena@ == before.update(
                id as int,
                NodeModel { stats, ..before[id as int] },
            ));
            lemma_stats_changed(before, arena@, id as int, stats);
            assert forall|x: int| 0 <= x < nodes.len() implies #[trigger] arena@[x] == (if exists|
                s: int,
            | 0 <= s < t + 1 && #[trigger] touched@[s] == x {
                batch_node(nodes, events@, x)
            } else {
                done[x]
            }) by {
                if x == id {
                    assert(touched@[t as int] == x);
                } else {
                    assert(arena@[x] == before[x]);
                    if exists|s: int| 0 <= s < t + 1 && #[trigger] touched@[s] == x {
                        let s = choose|s: int| 0 <= s < t + 1 && #[trigger] touched@[s] == x;
                        assert(s < t);
                        assert(touched@[s] == x);
                    }
                }
            }
        }
        t += 1;
    }
    proof {
        assert forall|x: int| 0 <= x < nodes.len() implies #[trigger] arena@[x] == batch_done(
            nodes,
            events@,
        )[x] by {
            if !(exists|s: int| 0 <= s < t && #[trigger] touched@[s] == x) {
                if batch_delta(nodes, events@, events@.len() as int, x) is Some {
                    lemma_gathered_nodes_exist(nodes, events@, events@.len() as int, x);
                    assert(totals@.contains_key(x as usize));
                    assert(touched@.contains(x as usize));
                    let s = choose|s: int| 0 <= s < touched@.len() && touched@[s] == x as usize;
                    assert(touched@[s] == x);
                }
            }
        }
        assert(arena@ =~= batch_done(nodes, events@));
    }
    result
}

/// Whether the gathered sums are those of the first `k` lines, each node once.
spec fn gathers<S: Scalar>(
    totals: Map<usize, ValueDelta<S>>,
    touched: Seq<usize>,
    nodes: Seq<NodeModel<S>>,
    events: Seq<BackpropEvent<S>>,
    k: int,
) -> bool {
    &&& touched.no_duplicates()
    &&& forall|x: usize| #[trigger] totals.contains_key(x) <==> touched.contains(x)
    &&& forall|x: usize| #[trigger]
        totals.contains_key(x) <==> batch_delta(nodes, events, k, x as int) is Some
    &&& forall|x: usize| #[trigger]
        totals.contains_key(x) ==> Some(totals[x]) == batch_delta(nodes, events, k, x as int)
}

proof fn lemma_gathered_nodes_exist<S: Scalar>(
    nodes: Seq<NodeModel<S>>,
    events: Seq<BackpropEvent<S>>,
    k: int,
    x: int,
)
    requires
        0 <= k <= events.len(),
        can_take(nodes, events, 0),
        batch_delta(nodes, events, k, x) is Some,
    ensures
        0 <= x < nodes.len(),
        0 <= x <= usize::MAX,
    decreases k,
{
    if k > 0 {
        let line = events[k - 1].event;
        assert(line.runs_through(nodes));
        if line.passes(x) {
            assert(line.node_path@[line.place(x)] == x);
            assert(line.node_path@[line.place(x)] < nodes.len());
        } else {
            lemma_gathered_nodes_exist(nodes, events, k - 1, x);
        }
    }
}

/// Adds what one line brings to the gathered sums.
fn gather_line<S: Scalar>(
    totals: &mut HashMap<NodeId, ValueDelta<S>>,
    touched: &mut Vec<NodeId>,
    event: &BackpropEvent<S>,
    deltas: &Vec<ValueDelta<S>>,
    nodes: Ghost<Seq<NodeModel<S>>>,
    events: Ghost<Seq<BackpropEvent<S>>>,
    k: usize,
)
    requires
        k < events@.len() <= u32::MAX,
        events@[k as int] == *event,
        forall|j: int| 0 <= j < events@.len() ==> (#[trigger] events@[j]).wf(),
        deltas@.len() == event.event.node_path@.len(),
        forall|i: int|
            0 <= i < deltas@.len() ==> #[trigger] deltas@[i] == delta_at(nodes@, *event, i),
        gathers(old(totals)@, old(touched)@, nodes@, events@, k as int),
    ensures
        gathers(final(totals)@, final(touched)@, nodes@, events@, k + 1),
{
    broadcast use vstd::std_specs::hash::group_hash_axioms;

    let ghost line = event.event;
    let count: usize = event.event.node_path.len();
    let mut i: usize = 0;
    while i < count
        invariant
            i <= count,
            k < events@.len() <= u32::MAX,
            events@[k as int] == *event,
            line == event.event,
            count == line.node_path@.len(),
            forall|j: int| 0 <= j < events@.len() ==> (#[trigger] events@[j]).wf(),
            deltas@.len() == count,
            forall|j: int| 0 <= j < count ==> #[trigger] deltas@[j] == delta_at(nodes@, *event, j),
            touched@.no_duplicates(),
            forall|x: usize| #[trigger] totals@.contains_key(x) <==> touched@.contains(x),
            forall|x: usize| #[trigger]
                totals@.contains_key(x) <==> partly_gathered(
                    nodes@,
                    events@,
                    k as int,
                    i as int,
                    x as int,
                ) is Some,
            forall|x: usize| #[trigger]
                totals@.contains_key(x) ==> Some(totals@[x]) == partly_gathered(
                    nodes@,
                    events@,
                    k as int,
                    i as int,
                    x as int,
                ),
        decreases count - i,
    {
        broadcast use vstd::std_specs::hash::group_hash_axioms;

        let id: NodeId = event.event.node_path[i];
        let ghost before = totals@;
        let ghost listed = touched@;
        proof {
            assert(events@[k as int].wf());
            lemma_place(line, i as int);
            lemma_batch_delta_counts(nodes@, events@, k as int, id as int);
            lemma_delta_is_one(nodes@, *event, i as int);
            assert(deltas@[i as int] == delta_at(nodes@, *event, i as int));
            assert(totals@.contains_key(id) <==> partly_gathered(
                nodes@,
                events@,
                k as int,
                i as int,
                id as int,
            ) is Some);
            assert forall|x: usize| x != id implies partly_gathered(
                nodes@,
                events@,
                k as int,
                i + 1,
                x as int,
            ) == #[trigger] partly_gathered(nodes@, events@, k as int, i as int, x as int) by {
                if line.passes(x as int) && line.place(x as int) == i {
                    assert(line.node_path@[line.place(x as int)] == x);
                }
            }
        }
        let known: Option<ValueDelta<S>> = match totals.get(&id) {
            Some(sum) => Some(*sum),
            None => None,
        };
        match known {
            Some(sum) => {
                totals.insert(id, sum.merge(deltas[i]));
            },
            None => {
                totals.insert(id, deltas[i]);
                touched.push(id);
                proof {
                    assert(!listed.contains(id));
                    assert forall|x: usize| touched@.contains(x) == (listed.contains(x) || x == id) by {
                        if listed.contains(x) {
                            let s = choose|s: int| 0 <= s < listed.len() && listed[s] == x;
                            assert(touched@[s] == x);
                        }
                        assert(touched@[listed.len() as int] == id);
                    }
                    assert(touched@.no_duplicates()) by {
                        assert forall|a: int, b: int|
                            0 <= a < touched@.len() && 0 <= b < touched@.len() && a
                                != b implies touched@[a] != touched@[b] by {
                            if a < listed.len() {
                                assert(listed.contains(listed[a]));
                            }
                            if b < listed.len() {
                                assert(listed.contains(listed[b]));
                            }
                        }
                    }
                }
            },
        }
        i += 1;
    }
    proof {
        assert forall|x: usize| #[trigger]
            partly_gathered(nodes@, events@, k as int, count as int, x as int) == batch_delta(
                nodes@,
                events@,
                k + 1,
                x as int,
            ) by {
            if line.passes(x as int) {
                assert(line.node_path@[line.place(x as int)] == x);
            }
        }
    }
}

/// What the first `k` lines and the first `i` nodes of the next one add to a node.
spec fn partly_gathered<S: Scalar>(
    nodes: Seq<NodeModel<S>>,
    events: Seq<BackpropEvent<S>>,
    k: int,
    i: int,
    x: int,
) -> Option<ValueDelta<S>> {
    let before = batch_delta(nodes, events, k, x);
    let line = events[k].event;
    if line.passes(x) && line.place(x) < i {
        gathered(nodes, events[k], before, x)
    } else {
        before
    }
}

/// A line passes on the value that its leaf brings, turned over at each move.
pub proof fn law_values_alternate<S: Scalar>(
    nodes: Seq<NodeModel<S>>,
    event: BackpropEvent<S>,
    i: int,
)
    requires
        0 <= i < event.event.node_path@.len() - 1,
        nodes[event.event.node_path@[i] as int].terminal is None,
    ensures
        delta_at(nodes, event, i).wl_sum == delta_at(nodes, event, i + 1).wl_sum.spec_negated(),
        delta_at(nodes, event, i).draw_sum == delta_at(nodes, event, i + 1).draw_sum,
{
}

/// Completing a line completes exactly its own visits: on each edge that it holds one
/// visit less is under way, and nothing else changes there.
pub proof fn law_line_completes_its_visits<S: Scalar>(
    nodes: Seq<NodeModel<S>>,
    event: BackpropEvent<S>,
    x: int,
    e: int,
)
    requires
        event.wf(),
        is_under_way(nodes, event.event),
        0 <= x < nodes.len(),
        0 <= e < nodes[x].edges.len(),
        nodes[x].wf(),
    ensures
        ({
            let before = nodes[x].edges[e];
            let after = line_done(nodes, event)[x].edges[e];
            &&& after.started == before.started
            &&& event.event.holds(x, e) ==> after.spec_in_flight() == before.spec_in_flight() - 1
            &&& !event.event.holds(x, e) ==> after == before
        }),
{
    let line = event.event;
    if line.passes(x) && line.place(x) < line.reservations@.len() {
        let i = line.place(x);
        assert(line.node_path@[i] == x);
        assert(nodes[line.node_path@[i] as int].edges[line.reservations@[i].edge as int].spec_in_flight()
            > 0);
        assert(nodes[x].edges[e].wf());
    }
}

} // verus!
