//! Following a line from the root to a leaf.
use vstd::prelude::*;

use crate::position::Move;
use crate::scalar::Scalar;
use crate::stream::backprop::line_done;
use crate::stream::event::{lemma_one_node_changed, lemma_place, without_line, BackpropEvent, Event};
use crate::stream::param::SearchParams;
use crate::stream::select::{select_edge, started_visits, Selection};
use crate::stream::shared::{
    covered, held, holding, other_waiters, waiters_given_back, Shared,
};
use crate::stream::tree::{
    leads_forward, Edge, EdgeReservation, ExpansionState, Node, NodeId, NodeModel,
};
use crate::stream::value::ValueDelta;
use crate::sums::{lemma_sum_bounds, lemma_sum_update};

verus! {

/// A tree with a line through it.
pub ghost struct Walk<S> {
    pub nodes: Seq<NodeModel<S>>,
    pub path: Seq<NodeId>,
    pub moves: Seq<Move>,
    pub reservations: Seq<EdgeReservation<S>>,
}

impl<S: Scalar> Walk<S> {
    pub open spec fn at(self) -> int {
        self.path.last() as int
    }

    /// The node that the line has reached.
    pub open spec fn node(self) -> NodeModel<S> {
        self.nodes[self.at()]
    }

    /// What the line's next visit reads.
    pub open spec fn selection(self, params: SearchParams<S>, filter: Seq<Move>) -> Selection<S> {
        Selection {
            edges: self.node().edges,
            parent_completed_visits: self.node().stats.visits,
            parent_q: self.node().spec_q(),
            is_root: self.moves.len() == 0,
            params,
            filter,
        }
    }

    /// The line one edge further: the node behind the edge is made where there is none,
    /// and a visit is reserved on the edge.
    pub open spec fn along(self, e: int, virtual_mean: S) -> Walk<S> {
        let edge = self.node().edges[e];
        let made = edge.child is None;
        let child = if made {
            self.nodes.len() as usize
        } else {
            edge.child->Some_0
        };
        let bound = Edge { child: Some(child), ..edge };
        let changed = self.nodes.update(
            self.at(),
            self.node().with_edge(e, bound.reserved(virtual_mean)),
        );
        Walk {
            nodes: if made {
                changed.push(NodeModel::spec_fresh())
            } else {
                changed
            },
            path: self.path.push(child),
            moves: self.moves.push(edge.mv),
            reservations: self.reservations.push(
                EdgeReservation { edge: e as usize, mv: edge.mv, virtual_mean },
            ),
        }
    }

    /// How far the line can still go.
    pub open spec fn room(self) -> int {
        2 * (self.nodes.len() - self.at()) + if self.node().state == ExpansionState::Expanded {
            1int
        } else {
            0
        }
    }

    /// Whether the line goes on: its node is expanded and offers an edge.
    pub open spec fn goes_on(self, params: SearchParams<S>, filter: Seq<Move>) -> bool {
        self.node().state == ExpansionState::Expanded && self.selection(
            params,
            filter,
        ).outcome() is Some
    }

    /// The line at its end, one selected edge after the other.
    pub open spec fn walked(self, params: SearchParams<S>, filter: Seq<Move>) -> Walk<S>
        decreases self.room(),
    {
        if self.goes_on(params, filter) {
            let (e, virtual_mean) = self.selection(params, filter).outcome()->Some_0;
            let next = self.along(e, virtual_mean);
            if 0 <= next.room() < self.room() {
                next.walked(params, filter)
            } else {
                self
            }
        } else {
            self
        }
    }

    /// Whether an event is this line with the result of its node.
    pub open spec fn is_ended_by(self, line: BackpropEvent<S>) -> bool {
        let result = self.node().terminal->Some_0;
        self.is_line(line.event) && line.value == ValueDelta::spec_one(
            result.0,
            result.1,
            result.2,
        )
    }

    /// Whether an event is this line.
    pub open spec fn is_line(self, event: Event<S>) -> bool {
        &&& event.node_path@ == self.path
        &&& event.moves@ == self.moves
        &&& event.reservations@ == self.reservations
    }
}

/// The line of an event through a tree.
pub open spec fn walk_of<S: Scalar>(nodes: Seq<NodeModel<S>>, event: Event<S>) -> Walk<S> {
    Walk {
        nodes,
        path: event.node_path@,
        moves: event.moves@,
        reservations: event.reservations@,
    }
}

/// What became of a line that was followed to its end.
#[derive(Debug)]
pub enum SelectOutcome<S> {
    /// Its leaf was claimed and is to be expanded.
    Expand(Event<S>),
    /// It waits for a leaf that another line claimed.
    Parked,
    /// Its leaf had a result, which was carried back.
    Completed,
    /// It was given back.
    Cancelled,
    /// Its node offers no edge; it is to be tried again.
    Stalled(Event<S>),
}

/// Going one edge further keeps all lines covered: the line's own visit is under way now.
proof fn lemma_along_covered<S: Scalar>(
    before: Walk<S>,
    e: int,
    virtual_mean: S,
    waiters: Seq<Event<S>>,
    event: Event<S>,
    next: Event<S>,
)
    requires
        event.wf(),
        next.wf(),
        before.is_line(event),
        before.along(e, virtual_mean).is_line(next),
        covered(before.nodes, waiters.push(event)),
        0 <= e < before.node().edges.len(),
        e <= usize::MAX,
        before.nodes.len() <= usize::MAX,
        before.node().edges[e].started < u32::MAX,
        before.node().wf(),
        before.node().edges[e].child matches Some(c) ==> before.at() < c < before.nodes.len(),
    ensures
        covered(before.along(e, virtual_mean).nodes, waiters.push(next)),
{
    let nodes = before.nodes;
    let after = before.along(e, virtual_mean).nodes;
    let at = before.at();
    let old_lines = waiters.push(event);
    let new_lines = waiters.push(next);
    let last = waiters.len() as int;
    assert(old_lines[last] == event);
    assert(event.runs_through(nodes));
    assert(event.node_path@[event.node_path@.len() - 1] < nodes.len());
    assert(before.node().edges[e].wf());
    assert(next.node_path@.drop_last() =~= event.node_path@);
    assert(next.reservations@.drop_last() =~= event.reservations@);
    assert forall|x: int, f: int|
        0 <= x < after.len() && 0 <= f < after[x].edges.len() implies #[trigger] held(
        new_lines,
        x,
        f,
    ) <= after[x].edges[f].spec_in_flight() by {
        assert(x < nodes.len());
        assert(nodes[x].edges.len() == after[x].edges.len());
        lemma_sum_update(old_lines, last, next, holding(x, f));
        assert(old_lines.update(last, next) =~= new_lines);
        assert(held(old_lines, x, f) <= nodes[x].edges[f].spec_in_flight());
        lemma_holds_one_more(event, next, e, x, f);
    }
    assert forall|j: int| 0 <= j < new_lines.len() implies (#[trigger] new_lines[j]).wf()
        && new_lines[j].runs_through(after) by {
        if j < last {
            let other = waiters[j];
            assert(old_lines[j] == other);
            assert(other.wf() && other.runs_through(nodes));
            assert forall|i: int| 0 <= i < other.node_path@.len() implies #[trigger] other.node_path@[i]
                < after.len() by {
                assert(other.node_path@[i] < nodes.len());
            }
            assert forall|i: int| 0 <= i < other.reservations@.len() implies (
            #[trigger] other.reservations@[i]).edge < after[other.node_path@[i] as int].edges.len() by {
                assert(other.node_path@[i] < nodes.len());
                assert(other.reservations@[i].edge < nodes[other.node_path@[i] as int].edges.len());
            }
        } else {
            assert forall|i: int| 0 <= i < next.node_path@.len() implies #[trigger] next.node_path@[i]
                < after.len() by {
                if i < event.node_path@.len() {
                    assert(event.node_path@[i] < nodes.len());
                }
            }
            assert forall|i: int| 0 <= i < next.reservations@.len() implies (
            #[trigger] next.reservations@[i]).edge < after[next.node_path@[i] as int].edges.len() by {
                if i < event.reservations@.len() {
                    assert(event.node_path@[i] < nodes.len());
                    assert(event.reservations@[i].edge
                        < nodes[event.node_path@[i] as int].edges.len());
                }
            }
        }
    }
}

/// A line that went one edge further holds that edge besides those that it held.
proof fn lemma_holds_one_more<S: Scalar>(
    event: Event<S>,
    next: Event<S>,
    e: int,
    x: int,
    f: int,
)
    requires
        event.wf(),
        next.wf(),
        next.node_path@.len() == event.node_path@.len() + 1,
        next.node_path@.drop_last() == event.node_path@,
        next.reservations@.drop_last() == event.reservations@,
        next.reservations@.last().edge == e,
    ensures
        next.holds(x, f) == (event.holds(x, f) || (x == event.node_id && f == e)),
{
    let n = event.node_path@.len() as int;
    if event.passes(x) {
        let i = event.place(x);
        assert(event.node_path@[i] == x);
        assert(next.node_path@[i] == event.node_path@[i]);
        lemma_place(next, i);
        if i < event.reservations@.len() {
            assert(next.reservations@[i] == event.reservations@[i]);
            if x == event.node_id {
                lemma_place(event, n - 1);
            }
        } else {
            assert(x == event.node_id);
        }
    } else {
        lemma_place(event, n - 1);
        assert(x != event.node_id);
        if next.passes(x) {
            let i = next.place(x);
            assert(next.node_path@[i] == x);
            if i < n {
                assert(event.node_path@[i] == x);
            }
        }
    }
}

impl<S: Scalar> Shared<S> {
    /// Whether a line can be followed now.
    pub open spec fn can_follow(&self, event: Event<S>) -> bool {
        &&& self.can_cancel(event)
        &&& forall|x: int|
            0 <= x < self.arena@.len() ==> started_visits((#[trigger] self.arena@[x]).edges)
                < u32::MAX
        &&& forall|x: int|
            0 <= x < self.arena@.len() ==> (#[trigger] self.arena@[x]).stats.visits < u32::MAX
        &&& self.completed < u64::MAX
        &&& self.completed_depth + self.arena@.len() + 1 <= u64::MAX
        &&& self.returned_credits < usize::MAX
        &&& self.arena@.len() < usize::MAX
    }

    /// What becomes of a line that is followed to the end of a walk.
    pub open spec fn is_selected(
        &self,
        after: Self,
        walk: Walk<S>,
        outcome: SelectOutcome<S>,
    ) -> bool {
        let id = walk.path.last();
        match walk.node().state {
            ExpansionState::Unexpanded => {
                &&& outcome matches SelectOutcome::Expand(line) && walk.is_line(line) && line.wf()
                &&& after.arena@ == walk.nodes.update(
                    walk.at(),
                    NodeModel { state: ExpansionState::Claimed, ..walk.node() },
                )
                &&& after == (Shared { arena: after.arena, ..*self })
            },
            ExpansionState::Claimed => {
                &&& outcome is Parked
                &&& after.arena@ == walk.nodes
                &&& after.collision_waiters@.len() == self.collision_waiters@.len() + 1
                &&& after.collision_waiters@.drop_last() == self.collision_waiters@
                &&& walk.is_line(after.collision_waiters@.last())
                &&& after == (Shared {
                    arena: after.arena,
                    collision_waiters: after.collision_waiters,
                    ..*self
                })
            },
            ExpansionState::Terminal => {
                &&& outcome is Completed
                &&& exists|line: BackpropEvent<S>| #[trigger]
                    walk.is_ended_by(line) && after.arena@ == waiters_given_back(
                        line_done(walk.nodes, line),
                        self.collision_waiters@,
                        id,
                        0,
                    )
                &&& after.collision_waiters@ == other_waiters(
                    self.collision_waiters@,
                    id,
                    0,
                )
                &&& after.completed == self.completed + 1
                &&& after.outstanding == self.outstanding - (self.collision_waiters@.len()
                    - after.collision_waiters@.len()) - 1
                &&& after.completed_depth == self.completed_depth + walk.path.len()
                &&& after == (Shared {
                    arena: after.arena,
                    collision_waiters: after.collision_waiters,
                    outstanding: after.outstanding,
                    completed: after.completed,
                    completed_depth: after.completed_depth,
                    max_depth: if walk.path.len() > self.max_depth {
                        walk.path.len() as u64
                    } else {
                        self.max_depth
                    },
                    ..*self
                })
            },
            ExpansionState::Expanded => if walk.path.len() == 1 {
                &&& outcome is Cancelled
                &&& after.arena@ == walk.nodes
                &&& after == (Shared {
                    arena: after.arena,
                    stopping: true,
                    outstanding: (self.outstanding - 1) as usize,
                    ..*self
                })
            } else {
                &&& outcome matches SelectOutcome::Stalled(line) && walk.is_line(line) && line.wf()
                &&& after.arena@ == walk.nodes
                &&& after == (Shared { arena: after.arena, ..*self })
            },
        }
    }

    /// Follows a line from its node to a leaf, one selected edge after the other, and
    /// does there what the leaf asks for. A search that stops gives the line back.
    pub fn process_select_event(&mut self, event: Event<S>) -> (r: SelectOutcome<S>)
        requires
            old(self).can_follow(event),
        ensures
            final(self).wf(),
            old(self).stopping ==> r is Cancelled && final(self).arena@ == without_line(
                old(self).arena@,
                event,
            ) && *final(self) == (Shared {
                arena: final(self).arena,
                outstanding: (old(self).outstanding - 1) as usize,
                ..*old(self)
            }),
            !old(self).stopping ==> old(self).is_selected(
                *final(self),
                walk_of(old(self).arena@, event).walked(
                    old(self).params,
                    old(self).root_move_filter@,
                ),
                r,
            ),
    {
        let mut line: Event<S> = event;
        let ghost first = walk_of(self.arena@, event);
        let ghost waiters = self.collision_waiters@;
        if self.stopping {
            self.cancel_event(&line);
            return SelectOutcome::Cancelled;
        }
        let ghost length = self.arena@.len();
        proof {
            let lines = waiters.push(line);
            assert(lines[lines.len() - 1] == line);
            assert(line.wf() && line.runs_through(self.arena@));
            assert(line.node_path@[line.node_path@.len() - 1] < self.arena@.len());
        }
        loop
            invariant
                self.wf(),
                !self.stopping,
                waiters == self.collision_waiters@,
                *self == (Shared { arena: self.arena, ..*old(self) }),
                !old(self).stopping,
                first == walk_of(old(self).arena@, event),
                walk_of(self.arena@, line).walked(self.params, self.root_move_filter@)
                    == first.walked(self.params, self.root_move_filter@),
                line.wf(),
                line.node_id < self.arena@.len(),
                self.can_cancel(line),
                length == old(self).arena@.len(),
                length < usize::MAX,
                length <= self.arena@.len() <= length + 1,
                self.arena@.len() == length + 1 ==> line.node_id == length && self.arena@[length as int]
                    == NodeModel::<S>::spec_fresh(),
                forall|x: int|
                    line.node_id <= x < self.arena@.len() ==> started_visits(
                        (#[trigger] self.arena@[x]).edges,
                    ) < u32::MAX,
                forall|x: int|
                    0 <= x < self.arena@.len() ==> (#[trigger] self.arena@[x]).stats.visits
                        < u32::MAX,
                old(self).completed < u64::MAX,
                old(self).completed_depth + length + 1 <= u64::MAX,
                old(self).returned_credits < usize::MAX,
            decreases walk_of(self.arena@, line).room(),
        {
            let ghost walk = walk_of(self.arena@, line);
            let ghost nodes = self.arena@;
            let id: NodeId = line.node_id;
            assert(walk.at() == id);
            let state: ExpansionState = self.arena.get(id).unwrap().expansion_state();
            assert(nodes[id as int].wf());
            match state {
                ExpansionState::Unexpanded => {
                    let node: &mut Node<S> = self.arena.node_mut(id);
                    let _ = node.try_claim();
                    proof {
                        let after = self.arena@;
                        assert(after == nodes.update(
                            id as int,
                            NodeModel { state: ExpansionState::Claimed, ..nodes[id as int] },
                        ));
                        lemma_claimed(nodes, after, id, waiters);
                    }
                    return SelectOutcome::Expand(line);
                },
                ExpansionState::Claimed => {
                    let ghost parked = line;
                    let _ = self.park_collision(line);
                    proof {
                        assert(self.collision_waiters@.drop_last() =~= waiters);
                        assert(self.collision_waiters@.last() == parked);
                    }
                    return SelectOutcome::Parked;
                },
                ExpansionState::Terminal => {
                    let (wl, draw, plies_left) = self.arena.get(
                        id,
                    ).unwrap().terminal_value().unwrap();
                    let ended: BackpropEvent<S> = BackpropEvent::without_nn_credit(
                        line,
                        wl,
                        draw,
                        plies_left,
                    );
                    proof {
                        lemma_path_fits(ended.event, nodes);
                        assert(walk.is_ended_by(ended));
                    }
                    self.process_backprop_one(&ended);
                    return SelectOutcome::Completed;
                },
                ExpansionState::Expanded => {},
            }
            assert(started_visits(nodes[id as int].edges) < u32::MAX);
            let depth: usize = line.moves.len();
            let chosen: Option<(usize, S)> = {
                let node: &Node<S> = self.arena.get(id).unwrap();
                select_edge(
                    &node.edges,
                    node.completed_visits(),
                    node.q(),
                    depth,
                    &self.params,
                    &self.root_move_filter,
                )
            };
            match chosen {
                None => {
                    if line.node_path.len() == 1 {
                        proof {
                            assert(without_line(nodes, line) =~= nodes) by {
                                assert forall|x: int| 0 <= x < nodes.len() implies without_line(
                                    nodes,
                                    line,
                                )[x] == nodes[x] by {}
                            }
                        }
                        self.request_stop();
                        self.cancel_event(&line);
                        return SelectOutcome::Cancelled;
                    }
                    return SelectOutcome::Stalled(line);
                },
                Some((e, virtual_mean)) => {
                    let ghost edge = nodes[id as int].edges[e as int];
                    proof {
                        lemma_sum_bounds(
                            nodes[id as int].edges,
                            |edge: Edge<S>| edge.started as int,
                        );
                        let f = |edge: Edge<S>| edge.started as int;
                        assert(f(nodes[id as int].edges[e as int]) <= started_visits(
                            nodes[id as int].edges,
                        ));
                        assert(leads_forward(nodes));
                    }
                    let child: NodeId = self.arena.child_or_create(id, e);
                    let ghost grown = self.arena@;
                    let node: &mut Node<S> = self.arena.node_mut(id);
                    let reservation: EdgeReservation<S> = node.reserve_edge(
                        e,
                        virtual_mean,
                    ).unwrap();
                    let ghost before = line;
                    line.descend(child, reservation);
                    proof {
                        let next = walk.along(e as int, virtual_mean);
                        assert(grown[id as int].edges[e as int] == (Edge {
                            child: Some(child),
                            ..edge
                        }));
                        assert(self.arena@[id as int].edges =~= next.nodes[id as int].edges);
                        assert forall|x: int| 0 <= x < self.arena@.len() implies self.arena@[x]
                            == next.nodes[x] by {
                            if x != id {
                                assert(self.arena@[x] == grown[x]);
                            }
                        }
                        assert(self.arena@ =~= next.nodes);
                        assert(next.is_line(line));
                        assert(walk_of(self.arena@, line) == next);
                        lemma_one_node_changed(
                            grown,
                            self.arena@,
                            id as int,
                            e as int,
                            grown[id as int].edges[e as int].reserved(virtual_mean),
                        );
                        lemma_along_covered(
                            walk,
                            e as int,
                            virtual_mean,
                            waiters,
                            before,
                            line,
                        );
                        lemma_waiters_stay(self.arena@, waiters, line);
                        lemma_started_further(walk, e as int, virtual_mean, child);
                        assert forall|x: int|
                            0 <= x < self.arena@.len() implies (#[trigger] self.arena@[x]).stats.visits
                            < u32::MAX by {
                            if x < nodes.len() {
                                assert(nodes[x].stats.visits < u32::MAX);
                            }
                        }
                    }
                },
            }
        }
    }
}

proof fn lemma_started_further<S: Scalar>(walk: Walk<S>, e: int, virtual_mean: S, child: NodeId)
    requires
        walk.path.len() > 0,
        0 <= walk.at() < walk.nodes.len(),
        0 <= e < walk.node().edges.len(),
        walk.at() < child,
        forall|x: int|
            walk.at() <= x < walk.nodes.len() ==> started_visits(
                (#[trigger] walk.nodes[x]).edges,
            ) < u32::MAX,
    ensures
        forall|x: int|
            child <= x < walk.along(e, virtual_mean).nodes.len() ==> started_visits(
                (#[trigger] walk.along(e, virtual_mean).nodes[x]).edges,
            ) < u32::MAX,
{
    let after = walk.along(e, virtual_mean).nodes;
    assert forall|x: int| child <= x < after.len() implies started_visits(
        (#[trigger] after[x]).edges,
    ) < u32::MAX by {
        if x < walk.nodes.len() {
            assert(after[x] == walk.nodes[x]);
        } else {
            assert(after[x].edges =~= Seq::empty());
        }
    }
}

/// What is covered with one line more is covered without it.
proof fn lemma_waiters_stay<S: Scalar>(
    nodes: Seq<NodeModel<S>>,
    waiters: Seq<Event<S>>,
    event: Event<S>,
)
    requires
        covered(nodes, waiters.push(event)),
    ensures
        covered(nodes, waiters),
{
    let lines = waiters.push(event);
    assert forall|x: int, e: int|
        0 <= x < nodes.len() && 0 <= e < nodes[x].edges.len() implies #[trigger] held(waiters, x, e)
        <= nodes[x].edges[e].spec_in_flight() by {
        assert(lines.drop_last() =~= waiters);
        assert(held(lines, x, e) <= nodes[x].edges[e].spec_in_flight());
    }
    assert forall|j: int| 0 <= j < waiters.len() implies (#[trigger] waiters[j]).wf()
        && waiters[j].runs_through(nodes) by {
        assert(lines[j] == waiters[j]);
    }
}

/// The nodes of a line are not more than those of its tree.
proof fn lemma_path_fits<S: Scalar>(event: Event<S>, nodes: Seq<NodeModel<S>>)
    requires
        event.wf(),
        event.node_id < nodes.len(),
    ensures
        event.node_path@.len() <= nodes.len(),
{
    lemma_path_grows(event, event.node_path@.len() - 1);
}

proof fn lemma_path_grows<S: Scalar>(event: Event<S>, i: int)
    requires
        event.wf(),
        0 <= i < event.node_path@.len(),
    ensures
        event.node_path@[i] >= i,
    decreases i,
{
    if i > 0 {
        lemma_path_grows(event, i - 1);
        assert(event.node_path@[i - 1] < event.node_path@[i]);
    }
}

/// Claiming a node keeps a tree consistent and its lines covered.
proof fn lemma_claimed<S: Scalar>(
    before: Seq<NodeModel<S>>,
    after: Seq<NodeModel<S>>,
    id: NodeId,
    lines: Seq<Event<S>>,
)
    requires
        id < before.len(),
        before[id as int].state == ExpansionState::Unexpanded,
        after == before.update(
            id as int,
            NodeModel { state: ExpansionState::Claimed, ..before[id as int] },
        ),
        forall|i: int| 0 <= i < before.len() ==> (#[trigger] before[i]).wf(),
        leads_forward(before),
        covered(before, lines),
    ensures
        forall|i: int| 0 <= i < after.len() ==> (#[trigger] after[i]).wf(),
        leads_forward(after),
        covered(after, lines),
{
    assert forall|i: int| 0 <= i < after.len() implies (#[trigger] after[i]).wf() by {
        assert(before[i].wf());
        assert forall|j: int| 0 <= j < after[i].edges.len() implies (
        #[trigger] after[i].edges[j]).wf() by {
            assert(before[i].edges[j].wf());
        }
    }
    assert forall|i: int, j: int|
        0 <= i < after.len() && 0 <= j < after[i].edges.len() implies ((
    #[trigger] after[i].edges[j]).child matches Some(c) ==> i < c < after.len()) by {
        assert(before[i].edges[j].child == after[i].edges[j].child);
    }
    assert forall|x: int| 0 <= x < before.len() implies (#[trigger] before[x]).edges
        == after[x].edges by {}
    crate::stream::complete::lemma_same_edges_covered(before, after, lines);
}

} // verus!
