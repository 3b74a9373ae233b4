//! A line of moves through the tree, with the visits reserved on its edges.
use vstd::prelude::*;

use crate::position::Move;
use crate::scalar::Scalar;
use crate::stream::tree::{with_node, EdgeReservation, NodeArena, NodeId, NodeModel};
use crate::stream::value::ValueDelta;

verus! {

/// A line under way.
#[derive(Debug)]
pub struct Event<S> {
    pub node_id: NodeId,
    pub node_path: Vec<NodeId>,
    pub moves: Vec<Move>,
    pub reservations: Vec<EdgeReservation<S>>,
}

impl<S: Scalar> Event<S> {
    /// The line ends at its node, has one node more than moves, and goes forward.
    pub open spec fn wf(self) -> bool {
        &&& self.node_path@.len() == self.reservations@.len() + 1
        &&& self.moves@.len() == self.reservations@.len()
        &&& self.node_path@.last() == self.node_id
        &&& forall|i: int, j: int|
            0 <= i < j < self.node_path@.len() ==> (#[trigger] self.node_path@[i]) < (
            #[trigger] self.node_path@[j])
    }

    /// Whether the line passes a node.
    pub open spec fn passes(self, id: int) -> bool {
        exists|i: int| 0 <= i < self.node_path@.len() && #[trigger] self.node_path@[i] == id
    }

    /// The place of a node on the line.
    pub open spec fn place(self, id: int) -> int {
        choose|i: int| 0 <= i < self.node_path@.len() && #[trigger] self.node_path@[i] == id
    }

    /// Whether the line holds a visit on an edge.
    pub open spec fn holds(self, id: int, e: int) -> bool {
        self.passes(id) && self.place(id) < self.reservations@.len() && self.reservations@[self.place(
            id,
        )].edge == e
    }

    /// Whether the line runs along edges of a tree.
    pub open spec fn runs_through(self, nodes: Seq<NodeModel<S>>) -> bool {
        &&& forall|i: int| 0 <= i < self.node_path@.len() ==> #[trigger] self.node_path@[i] < nodes.len()
        &&& forall|i: int|
            0 <= i < self.reservations@.len() ==> (#[trigger] self.reservations@[i]).edge
                < nodes[self.node_path@[i] as int].edges.len()
    }

    /// A line at the root.
    pub fn at_root(root: NodeId) -> (r: Self)
        ensures
            r.wf(),
            r.node_id == root,
            r.node_path@ == seq![root],
            r.moves@.len() == 0,
            r.reservations@.len() == 0,
    {
        let mut node_path: Vec<NodeId> = Vec::new();
        node_path.push(root);
        assert(node_path@ =~= seq![root]);
        Event { node_id: root, node_path, moves: Vec::new(), reservations: Vec::new() }
    }

    /// Goes on to a child by the edge that a visit was reserved on.
    pub fn descend(&mut self, child: NodeId, reservation: EdgeReservation<S>)
        requires
            old(self).wf(),
            old(self).node_id < child,
        ensures
            final(self).wf(),
            final(self).node_id == child,
            final(self).node_path@ == old(self).node_path@.push(child),
            final(self).moves@ == old(self).moves@.push(reservation.mv),
            final(self).reservations@ == old(self).reservations@.push(reservation),
    {
        let ghost before = self.node_path@;
        self.moves.push(reservation.mv());
        self.node_id = child;
        self.node_path.push(child);
        self.reservations.push(reservation);
        assert forall|i: int, j: int| 0 <= i < j < self.node_path@.len() implies (
        #[trigger] self.node_path@[i]) < (#[trigger] self.node_path@[j]) by {
            if j == before.len() {
                if i < before.len() - 1 {
                    assert(before[i] < before[before.len() - 1]);
                }
            } else {
                assert(before[i] < before[j]);
            }
        }
    }

    pub fn node_path(&self) -> (r: &Vec<NodeId>)
        ensures
            r@ == self.node_path@,
    {
        &self.node_path
    }

    pub fn moves(&self) -> (r: &Vec<Move>)
        ensures
            r@ == self.moves@,
    {
        &self.moves
    }
}

pub(crate) proof fn lemma_place<S: Scalar>(event: Event<S>, i: int)
    requires
        event.wf(),
        0 <= i < event.node_path@.len(),
    ensures
        event.passes(event.node_path@[i] as int),
        event.place(event.node_path@[i] as int) == i,
{
    let id = event.node_path@[i] as int;
    assert(event.node_path@[i] == id);
    let p = event.place(id);
    assert(0 <= p < event.node_path@.len() && event.node_path@[p] == id);
    if p < i {
        assert(event.node_path@[p] < event.node_path@[i]);
    }
    if i < p {
        assert(event.node_path@[i] < event.node_path@[p]);
    }
}

/// A line with the result of its leaf.
#[derive(Debug)]
pub struct BackpropEvent<S> {
    pub event: Event<S>,
    pub value: ValueDelta<S>,
    /// Whether the line holds one of the permits for evaluations.
    pub holds_nn_credit: bool,
}

impl<S: Scalar> BackpropEvent<S> {
    /// A line has one result.
    pub open spec fn wf(self) -> bool {
        self.event.wf() && self.value.visits == 1
    }

    /// A line whose leaf was evaluated by permit.
    pub fn with_nn_credit(event: Event<S>, wl: S, draw: S, plies_left: S) -> (r: Self)
        ensures
            r.event == event,
            r.value == ValueDelta::spec_one(wl, draw, plies_left),
            r.holds_nn_credit,
    {
        BackpropEvent { event, value: ValueDelta::one(wl, draw, plies_left), holds_nn_credit: true }
    }

    /// A line whose leaf needed no permit.
    pub fn without_nn_credit(event: Event<S>, wl: S, draw: S, plies_left: S) -> (r: Self)
        ensures
            r.event == event,
            r.value == ValueDelta::spec_one(wl, draw, plies_left),
            !r.holds_nn_credit,
    {
        BackpropEvent {
            event,
            value: ValueDelta::one(wl, draw, plies_left),
            holds_nn_credit: false,
        }
    }
}

/// The tree once the visits of a line are given back.
pub open spec fn without_line<S: Scalar>(nodes: Seq<NodeModel<S>>, event: Event<S>) -> Seq<
    NodeModel<S>,
> {
    Seq::new(
        nodes.len(),
        |x: int|
            if event.passes(x) && event.place(x) < event.reservations@.len() {
                let reservation = event.reservations@[event.place(x)];
                nodes[x].with_edge(
                    reservation.edge as int,
                    nodes[x].edges[reservation.edge as int].cancelled(reservation.virtual_mean),
                )
            } else {
                nodes[x]
            },
    )
}

/// Whether every visit of a line is under way.
pub open spec fn is_under_way<S: Scalar>(nodes: Seq<NodeModel<S>>, event: Event<S>) -> bool {
    &&& event.runs_through(nodes)
    &&& forall|i: int|
        0 <= i < event.reservations@.len() ==> nodes[event.node_path@[i] as int].edges[(
        #[trigger] event.reservations@[i]).edge as int].spec_in_flight() > 0
}

impl<S: Scalar> Event<S> {
    /// Gives all visits of the line back.
    pub fn cancel(&self, arena: &mut NodeArena<S>)
        requires
            old(arena).wf(),
            self.wf(),
            is_under_way(old(arena)@, *self),
        ensures
            final(arena).wf(),
            final(arena)@ == without_line(old(arena)@, *self),
    {
        let ghost nodes = arena@;
        let mut k: usize = self.reservations.len();
        while k > 0
            invariant
                k <= self.reservations@.len(),
                self.wf(),
                is_under_way(nodes, *self),
                nodes == old(arena)@,
                arena.wf(),
                arena@.len() == nodes.len(),
                forall|x: int|
                    0 <= x < nodes.len() ==> #[trigger] arena@[x] == (if self.passes(x) && k
                        <= self.place(x) {
                        without_line(nodes, *self)[x]
                    } else {
                        nodes[x]
                    }),
            decreases k,
        {
            k = k - 1;
            let id: NodeId = self.node_path[k];
            let reservation: EdgeReservation<S> = self.reservations[k];
            let ghost before = arena@;
            proof {
                lemma_place(*self, k as int);
                assert(self.node_path@[k as int] < nodes.len());
                assert(arena@[id as int] == nodes[id as int]);
                assert(self.reservations@[k as int].edge < nodes[id as int].edges.len());
                assert(nodes[id as int].edges[reservation.edge as int].spec_in_flight() > 0);
            }
            let node = arena.node_mut(id);
            reservation.cancel(node);
            proof {
                lemma_one_node_changed(
                    before,
                    arena@,
                    id as int,
                    reservation.edge as int,
                    nodes[id as int].edges[reservation.edge as int].cancelled(
                        reservation.virtual_mean,
                    ),
                );
                assert forall|x: int| 0 <= x < nodes.len() implies #[trigger] arena@[x] == (
                if self.passes(x) && k <= self.place(x) {
                    without_line(nodes, *self)[x]
                } else {
                    nodes[x]
                }) by {
                    if x != id {
                        assert(arena@[x] == before[x]);
                        if self.passes(x) && self.place(x) == k {
                            assert(self.node_path@[self.place(x)] == x);
                        }
                    }
                }
            }
        }
        proof {
            assert forall|x: int| 0 <= x < nodes.len() implies #[trigger] arena@[x]
                == without_line(nodes, *self)[x] by {
                assert(arena@[x] == arena@[x]);
            }
            assert(arena@ =~= without_line(nodes, *self));
        }
    }
}

/// Changing an edge of one node, but not where it leads, keeps a tree consistent.
pub(crate) proof fn lemma_one_node_changed<S: Scalar>(
    before: Seq<NodeModel<S>>,
    after: Seq<NodeModel<S>>,
    id: int,
    e: int,
    edge: crate::stream::tree::Edge<S>,
)
    requires
        0 <= id < before.len(),
        0 <= e < before[id].edges.len(),
        after == with_node(before, id, before[id].with_edge(e, edge)),
        edge.child == before[id].edges[e].child,
        edge.wf(),
        forall|i: int| 0 <= i < before.len() ==> (#[trigger] before[i]).wf(),
        crate::stream::tree::leads_forward(before),
    ensures
        forall|i: int| 0 <= i < after.len() ==> (#[trigger] after[i]).wf(),
        crate::stream::tree::leads_forward(after),
{
    assert forall|i: int| 0 <= i < after.len() implies (#[trigger] after[i]).wf() by {
        assert(before[i].wf());
        if i == id {
            assert forall|j: int| 0 <= j < after[i].edges.len() implies (
            #[trigger] after[i].edges[j]).wf() by {
                if j != e {
                    assert(before[i].edges[j].wf());
                }
            }
        }
    }
    assert forall|i: int, j: int|
        0 <= i < after.len() && 0 <= j < after[i].edges.len() implies ((
    #[trigger] after[i].edges[j]).child matches Some(c) ==> i < c < after.len()) by {
        assert(before[i].edges[j].child == after[i].edges[j].child);
    }
}

} // verus!
