//! The work items of a graph search: a line of moves with the visits reserved on it.
use vstd::prelude::*;

use crate::graph::edge::EdgeReservation;
use crate::graph::history::History;
use crate::graph::key::NodeKey;
use crate::position::{Move, Position};
use crate::scalar::Scalar;

verus! {

/// A line of moves from the root. The rules of the game depend on all positions before,
/// so the line carries them.
#[derive(Debug)]
pub struct Variation {
    /// The positions up to the end of the line, with what the rules say there.
    pub history: History,
    /// How many of the positions were there at the root.
    pub root_len: usize,
    pub moves: Vec<Move>,
}

impl Variation {
    /// Each move has led to one position.
    pub open spec fn wf(self) -> bool {
        &&& self.root_len > 0
        &&& self.history.positions@.len() == self.root_len + self.moves@.len()
    }

    /// A line without moves.
    pub fn root(root_history: &History) -> (r: Self)
        requires
            root_history.positions@.len() > 0,
        ensures
            r.wf(),
            r.history.same_as(*root_history),
            r.root_len == root_history.positions@.len(),
            r.moves@.len() == 0,
    {
        Variation {
            history: root_history.copy(),
            root_len: root_history.len(),
            moves: Vec::new(),
        }
    }

    /// Appends a move, with the position that it leads to and what the rules say there.
    pub fn push(&mut self, mv: Move, next: &NextPosition)
        requires
            old(self).wf(),
        ensures
            final(self).wf(),
            final(self).root_len == old(self).root_len,
            final(self).moves@ == old(self).moves@.push(mv),
            final(self).history.positions@ == old(self).history.positions@.push(next.position),
            final(self).history.did_repeat == next.did_repeat,
            final(self).history.rule_context_hash == next.rule_context_hash,
    {
        self.moves.push(mv);
        self.history.positions.push(next.position);
        self.history.did_repeat = next.did_repeat;
        self.history.rule_context_hash = next.rule_context_hash;
    }

    pub fn moves(&self) -> (r: &Vec<Move>)
        ensures
            r@ == self.moves@,
    {
        &self.moves
    }

    pub fn history(&self) -> (r: &History)
        ensures
            *r == self.history,
    {
        &self.history
    }

    /// The number of positions at the root.
    pub fn root_len(&self) -> (r: usize)
        ensures
            r == self.root_len,
    {
        self.root_len
    }
}

/// The position that a move leads to, with what the rules say there.
#[derive(Clone, Copy, Debug, PartialEq, Eq, Structural)]
pub struct NextPosition {
    pub position: Position,
    pub did_repeat: bool,
    pub rule_context_hash: u64,
}

impl NextPosition {
    pub open spec fn spec_key_for_history(self) -> NodeKey {
        NodeKey::spec_for_history(
            self.position.board_hash,
            self.did_repeat,
            self.rule_context_hash,
        )
    }

    /// The node shared by all lines that reach the position.
    pub fn child_board_key(&self) -> (r: NodeKey)
        ensures
            r == (NodeKey::GraphNode { board_hash: self.position.board_hash }),
    {
        NodeKey::board(self.position.board_hash)
    }

    /// The node of the position on this line.
    pub fn child_key_for_history(&self) -> (r: NodeKey)
        ensures
            r == self.spec_key_for_history(),
    {
        NodeKey::for_history(self.position.board_hash, self.did_repeat, self.rule_context_hash)
    }
}

/// Whether a board occurred before with the same side to move: an even number of plies
/// back from the ply that comes next.
pub open spec fn occurred_before(positions: Seq<Position>, board_hash: u64) -> bool {
    exists|i: int|
        0 <= i < positions.len() && i % 2 == positions.len() % 2 && (
        #[trigger] positions[i]).board_hash == board_hash
}

/// A line under way: the nodes it passed and the visits reserved on its edges.
#[derive(Debug)]
pub struct NodeEvent<S> {
    /// The search that the event belongs to.
    pub generation: u64,
    pub node_key: NodeKey,
    pub node_path: Vec<NodeKey>,
    /// The moves by which the line left the shared graph, with the nodes that they led to.
    pub tree_entries: Vec<(usize, NodeKey)>,
    pub variation: Variation,
    pub reservations: Vec<EdgeReservation<S>>,
}

impl<S: Scalar> NodeEvent<S> {
    /// One node more than reservations, unless the leaf was dropped; each entry names a
    /// reservation and the node behind it; entries come in order.
    pub open spec fn wf(self) -> bool {
        &&& self.variation.wf()
        &&& self.variation.moves@.len() == self.reservations@.len()
        &&& self.node_path@.len() <= self.reservations@.len() + 1
        &&& self.node_path@.len() >= self.reservations@.len()
        &&& entries_fit(self.tree_entries@, self.node_path@, self.reservations@.len() as int)
    }

    /// Whether the leaf is still part of the path.
    pub open spec fn has_leaf(self) -> bool {
        self.node_path@.len() == self.reservations@.len() + 1
    }

    /// An event at the root.
    pub fn at_root(generation: u64, root_key: NodeKey, root_history: &History) -> (r: Self)
        requires
            root_history.positions@.len() > 0,
        ensures
            r.wf(),
            r.has_leaf(),
            r.generation == generation,
            r.node_key == root_key,
            r.node_path@ == seq![root_key],
            r.tree_entries@.len() == 0,
            r.reservations@.len() == 0,
            r.variation.history.same_as(*root_history),
            r.variation.moves@.len() == 0,
    {
        let mut node_path: Vec<NodeKey> = Vec::new();
        node_path.push(root_key);
        assert(node_path@ =~= seq![root_key]);
        NodeEvent {
            generation,
            node_key: root_key,
            node_path,
            tree_entries: Vec::new(),
            variation: Variation::root(root_history),
            reservations: Vec::new(),
        }
    }

    /// An event at the root, whose node is that of its history.
    pub fn root(generation: u64, root_history: &History) -> (r: Self)
        requires
            root_history.positions@.len() > 0,
        ensures
            r.wf(),
            r.has_leaf(),
            r.generation == generation,
            r.node_key == root_history.spec_key(),
            r.node_path@ == seq![r.node_key],
            r.tree_entries@.len() == 0,
            r.reservations@.len() == 0,
            r.variation.history.same_as(*root_history),
            r.variation.moves@.len() == 0,
    {
        NodeEvent::at_root(generation, root_history.key(), root_history)
    }

    pub fn node_path(&self) -> (r: &Vec<NodeKey>)
        ensures
            r@ == self.node_path@,
    {
        &self.node_path
    }

    /// What an event becomes by one move.
    pub open spec fn descended(
        self,
        after: Self,
        child_key: NodeKey,
        reservation: EdgeReservation<S>,
        next: NextPosition,
    ) -> bool {
        &&& after.wf()
        &&& after.has_leaf()
        &&& after.generation == self.generation
        &&& after.node_key == child_key
        &&& after.node_path@ == self.node_path@.push(child_key)
        &&& after.reservations@ == self.reservations@.push(reservation)
        &&& after.variation.moves@ == self.variation.moves@.push(reservation.mv)
        &&& after.variation.root_len == self.variation.root_len
        &&& after.variation.history.positions@ == self.variation.history.positions@.push(
            next.position,
        )
        &&& after.variation.history.did_repeat == next.did_repeat
        &&& after.variation.history.rule_context_hash == next.rule_context_hash
    }

    /// Goes on to a child by the move that visits were reserved on.
    pub fn descend(&mut self, child_key: NodeKey, reservation: EdgeReservation<S>, next: &NextPosition)
        requires
            old(self).wf(),
            old(self).has_leaf(),
        ensures
            old(self).descended(*final(self), child_key, reservation, *next),
            final(self).tree_entries@ == old(self).tree_entries@,
    {
        let ghost before = *self;
        self.variation.push(reservation.mv(), next);
        self.node_key = child_key;
        self.node_path.push(child_key);
        self.reservations.push(reservation);
        proof {
            lemma_entries_extend(
                before.tree_entries@,
                before.node_path@,
                child_key,
                before.reservations@.len() as int,
            );
        }
    }

    /// Goes on to a child outside the shared graph. The edge itself stays unbound: on
    /// another line it may lead to another node.
    pub fn descend_continuation(
        &mut self,
        child_key: NodeKey,
        reservation: EdgeReservation<S>,
        next: &NextPosition,
    )
        requires
            old(self).wf(),
            old(self).has_leaf(),
            child_key.spec_is_continuation(),
        ensures
            old(self).descended(*final(self), child_key, reservation, *next),
            final(self).tree_entries@ == old(self).tree_entries@.push(
                (old(self).reservations@.len() as usize, child_key),
            ),
    {
        let ghost before = *self;
        self.tree_entries.push((self.reservations.len(), child_key));
        self.variation.push(reservation.mv(), next);
        self.node_key = child_key;
        self.node_path.push(child_key);
        self.reservations.push(reservation);
        proof {
            lemma_entries_extend(
                before.tree_entries@,
                before.node_path@,
                child_key,
                before.reservations@.len() as int,
            );
            let entries = self.tree_entries@;
            let count = self.reservations@.len() as int;
            assert forall|j: int| 0 <= j < entries.len() implies #[trigger] entry_fits(
                entries[j],
                self.node_path@,
                count,
            ) by {
                if j < before.tree_entries@.len() {
                    assert(entry_fits(before.tree_entries@[j], self.node_path@, count));
                }
            }
            assert forall|i: int, j: int| 0 <= i < j < entries.len() implies (
            #[trigger] entries[i]).0 < (#[trigger] entries[j]).0 by {
                if j == before.tree_entries@.len() {
                    assert(entry_fits(
                        before.tree_entries@[i],
                        before.node_path@,
                        before.reservations@.len() as int,
                    ));
                } else {
                    assert(before.tree_entries@[i].0 < before.tree_entries@[j].0);
                }
            }
        }
    }

    /// The node that a move leads to outside the shared graph, if the move repeats a
    /// position for the first time. Only positions with the same side to move count.
    pub fn repeated_child_key(&self, next: &NextPosition) -> (r: Option<NodeKey>)
        requires
            self.wf(),
        ensures
            r == (if occurred_before(self.variation.history.positions@, next.position.board_hash)
                && next.position.repetitions > 0 {
                Some(next.spec_key_for_history())
            } else {
                None
            }),
    {
        let count: usize = self.variation.history.len();
        let mut found: bool = false;
        let mut i: usize = 0;
        while i < count && !found
            invariant
                i <= count,
                count == self.variation.history.positions@.len(),
                found ==> occurred_before(
                    self.variation.history.positions@,
                    next.position.board_hash,
                ),
                !found ==> forall|j: int|
                    0 <= j < i && j % 2 == count % 2 ==> (
                    #[trigger] self.variation.history.positions@[j]).board_hash
                        != next.position.board_hash,
            decreases count - i + (if found {
                0int
            } else {
                1
            }),
        {
            if i % 2 == count % 2 && self.variation.history.positions[i].board_hash
                == next.position.board_hash {
                assert(self.variation.history.positions@[i as int].board_hash
                    == next.position.board_hash);
                found = true;
            } else {
                i += 1;
            }
        }
        if !found || next.position.repetitions == 0 {
            return None;
        }
        Some(next.child_key_for_history())
    }

    /// Drops the leaf, where it is not shared with other lines.
    pub fn discard_leaf_node(&mut self)
        requires
            old(self).wf(),
            old(self).has_leaf(),
        ensures
            final(self).wf(),
            !final(self).has_leaf(),
            final(self).node_path@ == old(self).node_path@.drop_last(),
            *final(self) == (NodeEvent { node_path: final(self).node_path, ..*old(self) }),
    {
        let ghost before = self.node_path@;
        let _ = self.node_path.pop();
        proof {
            assert forall|j: int| 0 <= j < self.tree_entries@.len() implies #[trigger] entry_fits(
                self.tree_entries@[j],
                self.node_path@,
                self.reservations@.len() as int,
            ) by {
                assert(entry_fits(
                    self.tree_entries@[j],
                    before,
                    self.reservations@.len() as int,
                ));
            }
        }
    }
}

/// Whether an entry names a reservation and, where it is still there, the node behind.
pub open spec fn entry_fits(entry: (usize, NodeKey), path: Seq<NodeKey>, reservations: int) -> bool {
    &&& entry.0 < reservations
    &&& (entry.0 + 1 < path.len() ==> path[entry.0 + 1] == entry.1)
}

/// Whether all entries name reservations, in order.
pub open spec fn entries_fit(
    entries: Seq<(usize, NodeKey)>,
    path: Seq<NodeKey>,
    reservations: int,
) -> bool {
    &&& forall|j: int|
        0 <= j < entries.len() ==> #[trigger] entry_fits(entries[j], path, reservations)
    &&& forall|i: int, j: int|
        0 <= i < j < entries.len() ==> (#[trigger] entries[i]).0 < (#[trigger] entries[j]).0
}

proof fn lemma_entries_extend(
    entries: Seq<(usize, NodeKey)>,
    path: Seq<NodeKey>,
    key: NodeKey,
    reservations: int,
)
    requires
        entries_fit(entries, path, reservations),
        path.len() == reservations + 1,
    ensures
        entries_fit(entries, path.push(key), reservations + 1),
{
    assert forall|j: int| 0 <= j < entries.len() implies #[trigger] entry_fits(
        entries[j],
        path.push(key),
        reservations + 1,
    ) by {
        assert(entry_fits(entries[j], path, reservations));
    }
}

/// A board that occurred only with the other side to move does not count as repeated.
pub proof fn law_other_side_is_no_repetition(positions: Seq<Position>, board_hash: u64)
    requires
        forall|i: int|
            0 <= i < positions.len() && (#[trigger] positions[i]).board_hash == board_hash ==> i % 2
                != positions.len() % 2,
    ensures
        !occurred_before(positions, board_hash),
{
}

} // verus!
