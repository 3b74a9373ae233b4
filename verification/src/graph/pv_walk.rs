//! A line of best moves that follows the game's own history: where an edge leads back to
//! a node of the line, or to none, the line goes on outside the shared graph.
use vstd::prelude::*;

use crate::graph::edge::Edge;
use crate::graph::key::NodeKey;
use crate::graph::node::{ExpansionState, Node, NodeModel};
use crate::graph::repository::NodeRepository;
use crate::graph::stats::{best_edge_absolute, can_continue, find_edge, is_best_absolute, is_first_with};
use crate::position::{orient_move, oriented, Move};
use crate::scalar::Scalar;

verus! {

/// A line under way.
#[derive(Debug)]
pub struct PvWalk {
    /// The moves so far, in the coordinates of the side that plays each.
    pub pv: Vec<Move>,
    pub seen: Vec<NodeKey>,
    pub flip: bool,
    /// The edge that the line follows next.
    pub at: Option<(NodeKey, usize)>,
}

/// The node that a line reaches by an edge: the one that the edge is bound to, unless the
/// line has been there; else that of the line's own history, if it is there.
pub open spec fn next_key<S: Scalar>(
    nodes: Map<NodeKey, NodeModel<S>>,
    edge: Edge<S>,
    path_key: NodeKey,
    seen: Seq<NodeKey>,
) -> Option<NodeKey> {
    if edge.child_key is Some && !seen.contains(edge.child_key->Some_0) {
        edge.child_key
    } else if nodes.contains_key(path_key) {
        Some(path_key)
    } else {
        None
    }
}

/// Whether no edge has a move.
pub open spec fn lacks_move<S: Scalar>(edges: Seq<Edge<S>>, mv: Move) -> bool {
    forall|e: int| 0 <= e < edges.len() ==> (#[trigger] edges[e]).mv != mv
}

/// Whether an edge is named by its node and number.
pub open spec fn is_edge<S: Scalar>(
    nodes: Map<NodeKey, NodeModel<S>>,
    at: (NodeKey, usize),
) -> bool {
    nodes.contains_key(at.0) && at.1 < nodes[at.0].edges.len()
}

fn contains_key(keys: &Vec<NodeKey>, key: NodeKey) -> (r: bool)
    ensures
        r == keys@.contains(key),
{
    let mut i: usize = 0;
    while i < keys.len()
        invariant
            i <= keys@.len(),
            forall|j: int| 0 <= j < i ==> #[trigger] keys@[j] != key,
        decreases keys@.len() - i,
    {
        if keys[i] == key {
            assert(keys@[i as int] == key);
            return true;
        }
        i += 1;
    }
    false
}

impl PvWalk {
    /// Whether the edge to follow is there.
    pub open spec fn fits<S: Scalar>(self, nodes: Map<NodeKey, NodeModel<S>>) -> bool {
        self.at matches Some(at) ==> is_edge(nodes, at)
    }

    /// Whether this is the beginning of a line with a move of the root.
    pub open spec fn begins<S: Scalar>(
        self,
        nodes: Map<NodeKey, NodeModel<S>>,
        root_key: NodeKey,
        root_is_black: bool,
        first_move: Move,
    ) -> bool {
        &&& self.pv@ == seq![oriented(first_move, root_is_black)]
        &&& self.seen@ == seq![root_key]
        &&& self.flip == !root_is_black
        &&& match self.at {
            Some((key, e)) => key == root_key && is_first_with(
                nodes[root_key].edges,
                first_move,
                e as int,
            ),
            None => nodes.contains_key(root_key) ==> lacks_move(nodes[root_key].edges, first_move),
        }
    }

    /// Begins a line with a move of the root.
    pub fn begin<S: Scalar>(
        repository: &NodeRepository<S>,
        root_key: NodeKey,
        root_is_black: bool,
        first_move: Move,
    ) -> (r: Self)
        requires
            repository.wf(),
        ensures
            r.fits(repository@),
            r.begins(repository@, root_key, root_is_black, first_move),
    {
        let mut pv: Vec<Move> = Vec::new();
        pv.push(orient_move(first_move, root_is_black));
        assert(pv@ =~= seq![oriented(first_move, root_is_black)]);
        let mut seen: Vec<NodeKey> = Vec::new();
        seen.push(root_key);
        assert(seen@ =~= seq![root_key]);
        let at: Option<(NodeKey, usize)> = match repository.get(root_key) {
            Some(root) => match find_edge(root.edges(), first_move) {
                Some(e) => Some((root_key, e)),
                None => None,
            },
            None => None,
        };
        PvWalk { pv, seen, flip: !root_is_black, at }
    }

    /// The move of the edge that the line follows next, where there is one.
    pub open spec fn pending<S: Scalar>(self, nodes: Map<NodeKey, NodeModel<S>>) -> Move {
        nodes[self.at->Some_0.0].edges[self.at->Some_0.1 as int].mv
    }

    /// The move that the line follows next.
    pub fn pending_move<S: Scalar>(&self, repository: &NodeRepository<S>) -> (r: Option<Move>)
        requires
            repository.wf(),
            self.fits(repository@),
        ensures
            r == (match self.at {
                Some((key, e)) => Some(repository@[key].edges[e as int].mv),
                None => None,
            }),
    {
        match self.at {
            Some((key, e)) => Some(repository.get(key).unwrap().edges()[e].mv()),
            None => None,
        }
    }

    /// What one step does to a line that reaches a node.
    pub open spec fn steps_on<S: Scalar>(
        self,
        after: Self,
        nodes: Map<NodeKey, NodeModel<S>>,
        key: NodeKey,
    ) -> bool {
        let stays = after.pv@ == self.pv@ && after.flip == self.flip && after.at is None;
        &&& after.seen@ == self.seen@.push(key)
        &&& if !can_continue(nodes, key) {
            stays
        } else {
            exists|choice: Option<Move>| #[trigger]
                is_best_absolute(nodes, key, Seq::empty(), choice) && match choice {
                    Some(mv) => if mv.spec_is_null() {
                        stays
                    } else {
                        &&& after.pv@ == self.pv@.push(oriented(mv, self.flip))
                        &&& after.flip == !self.flip
                        &&& match after.at {
                            Some((at_key, e)) => at_key == key && is_first_with(
                                nodes[key].edges,
                                mv,
                                e as int,
                            ),
                            None => lacks_move(nodes[key].edges, mv),
                        }
                    },
                    None => stays,
                }
        }
    }

    /// What a line becomes when it follows its edge.
    #[verifier::opaque]
    pub open spec fn follows<S: Scalar>(
        self,
        after: Self,
        nodes: Map<NodeKey, NodeModel<S>>,
        path_key: NodeKey,
    ) -> bool {
        let (key, e) = self.at->Some_0;
        let next = next_key(nodes, nodes[key].edges[e as int], path_key, self.seen@);
        if next is Some && nodes.contains_key(next->Some_0) && !self.seen@.contains(next->Some_0) {
            self.steps_on(after, nodes, next->Some_0)
        } else {
            after == (PvWalk { at: None, ..self })
        }
    }

    /// Follows the next edge. `path_key` is the node of the game's history after its move.
    pub fn follow<S: Scalar>(&mut self, repository: &NodeRepository<S>, path_key: NodeKey)
        requires
            repository.wf(),
            old(self).fits(repository@),
            old(self).at is Some,
        ensures
            final(self).fits(repository@),
            old(self).follows(*final(self), repository@, path_key),
    {
        reveal(PvWalk::follows);
        let (from, e) = self.at.unwrap();
        let bound: Option<NodeKey> = repository.get(from).unwrap().edges()[e].child_key();
        self.at = None;
        let key: NodeKey = match bound {
            Some(key) => if contains_key(&self.seen, key) {
                path_key
            } else {
                key
            },
            None => path_key,
        };
        let node: &Node<S> = match repository.get(key) {
            Some(node) => node,
            None => {
                return;
            },
        };
        if contains_key(&self.seen, key) {
            return;
        }
        self.seen.push(key);
        if node.completed_visits() == 0 || node.expansion_state() != ExpansionState::Expanded {
            return;
        }
        let none: Vec<Move> = Vec::new();
        assert(none@ =~= Seq::<Move>::empty());
        let choice: Option<Move> = best_edge_absolute(repository, key, &none);
        assert(is_best_absolute(repository@, key, Seq::empty(), choice));
        match choice {
            Some(mv) => {
                if mv.is_null() {
                    return;
                }
                self.pv.push(orient_move(mv, self.flip));
                self.flip = !self.flip;
                self.at = match find_edge(node.edges(), mv) {
                    Some(e) => Some((key, e)),
                    None => None,
                };
            },
            None => {},
        }
    }
}

/// A line that follows its edge has seen no node twice, has seen nothing but nodes that are
/// there, and has seen one more or is at its end.
pub proof fn law_following_sees_more<S: Scalar>(
    before: PvWalk,
    after: PvWalk,
    nodes: Map<NodeKey, NodeModel<S>>,
    path_key: NodeKey,
)
    requires
        before.follows(after, nodes, path_key),
        before.seen@.no_duplicates(),
        forall|i: int| 0 <= i < before.seen@.len() ==> nodes.contains_key(#[trigger] before.seen@[i]),
    ensures
        after.seen@.no_duplicates(),
        forall|i: int| 0 <= i < after.seen@.len() ==> nodes.contains_key(#[trigger] after.seen@[i]),
        after.seen@.len() == before.seen@.len() + 1 || (after.seen@ == before.seen@
            && after.at is None),
{
    reveal(PvWalk::follows);
    let (key, e) = before.at->Some_0;
    let next = next_key(nodes, nodes[key].edges[e as int], path_key, before.seen@);
    if next is Some && nodes.contains_key(next->Some_0) && !before.seen@.contains(next->Some_0) {
        law_lines_do_not_return(before, after, nodes, next->Some_0);
        assert forall|i: int| 0 <= i < after.seen@.len() implies nodes.contains_key(
            #[trigger] after.seen@[i],
        ) by {
            if i < before.seen@.len() {
                assert(after.seen@[i] == before.seen@[i]);
            }
        }
    }
}

/// A line never comes back to a node that it has seen.
pub proof fn law_lines_do_not_return<S: Scalar>(
    before: PvWalk,
    after: PvWalk,
    nodes: Map<NodeKey, NodeModel<S>>,
    key: NodeKey,
)
    requires
        before.steps_on(after, nodes, key),
        !before.seen@.contains(key),
        before.seen@.no_duplicates(),
    ensures
        after.seen@.no_duplicates(),
{
    assert forall|i: int, j: int|
        0 <= i < after.seen@.len() && 0 <= j < after.seen@.len() && i != j implies after.seen@[i]
        != after.seen@[j] by {
        if i < before.seen@.len() {
            assert(before.seen@.contains(before.seen@[i]));
        }
        if j < before.seen@.len() {
            assert(before.seen@.contains(before.seen@[j]));
        }
    }
}

} // verus!
