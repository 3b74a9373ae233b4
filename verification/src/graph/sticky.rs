//! Bounds that lines of play prove, and subtrees as a whole.
use vstd::prelude::*;

use crate::graph::edge::Edge;
use crate::graph::key::NodeKey;
use crate::graph::node::{ExpansionState, Node, NodeModel};
use crate::graph::proof_bounds::{
    bounds_from_replies, draw_of, left_by_replies, proven_draw, proven_plies, spec_proven_plies,
    Bounds, Reply,
};
use crate::graph::reach::reaches;
use crate::graph::repository::{
    holds, keys_differ, lemma_place, nodes_by_key, place_of, NodeRepository, Slot,
};
use crate::scalar::Scalar;

verus! {

/// What is known of the position behind an edge: its bounds, and the plies to the end
/// where its game is over.
pub open spec fn bounded_reply<S: Scalar>(nodes: Map<NodeKey, NodeModel<S>>, edge: Edge<S>) -> Reply<
    S,
> {
    if edge.child_key is Some && nodes.contains_key(edge.child_key->Some_0) {
        let child = nodes[edge.child_key->Some_0];
        Reply {
            bounds: child.bounds,
            plies_left: match child.terminal {
                Some(result) => Some(result.2),
                None => None,
            },
        }
    } else {
        Reply { bounds: Bounds::spec_open(), plies_left: None }
    }
}

/// What is known of the positions behind a node's edges.
pub open spec fn bounded_replies<S: Scalar>(
    nodes: Map<NodeKey, NodeModel<S>>,
    key: NodeKey,
) -> Seq<Reply<S>> {
    nodes[key].edges.map_values(|edge: Edge<S>| bounded_reply(nodes, edge))
}

/// A node with its bounds narrowed by its replies. Where one value is left, an expanded
/// node takes it over as its result.
pub open spec fn narrowed<S: Scalar>(nodes: Map<NodeKey, NodeModel<S>>, key: NodeKey) -> NodeModel<
    S,
> {
    let node = nodes[key];
    let replies = bounded_replies(nodes, key);
    let bounds = node.bounds.spec_meet(left_by_replies(replies));
    if node.expansion == ExpansionState::Terminal {
        node
    } else if bounds.spec_is_exact() && node.expansion == ExpansionState::Expanded {
        let wl = bounds.lower;
        NodeModel {
            expansion: ExpansionState::Terminal,
            terminal: Some((wl, draw_of(wl), spec_proven_plies(replies, wl))),
            bounds: Bounds::spec_exactly(wl),
            ..node
        }
    } else {
        NodeModel { bounds, ..node }
    }
}

/// The nodes with one narrowed, if it is there.
pub open spec fn narrowed_at<S: Scalar>(nodes: Map<NodeKey, NodeModel<S>>, key: NodeKey) -> Map<
    NodeKey,
    NodeModel<S>,
> {
    if nodes.contains_key(key) {
        nodes.insert(key, narrowed(nodes, key))
    } else {
        nodes
    }
}

/// Whether the root stands at or behind place `k` of a path, the last place left out.
pub open spec fn root_from(path: Seq<NodeKey>, root: NodeKey, k: int) -> bool {
    exists|j: int| k <= j < path.len() - 1 && #[trigger] path[j] == root
}

/// The nodes with those of a path narrowed, from the leaf's parent up to place `k`; the
/// root and what stands before it stay as they are.
pub open spec fn narrowed_along<S: Scalar>(
    nodes: Map<NodeKey, NodeModel<S>>,
    path: Seq<NodeKey>,
    root: NodeKey,
    k: int,
) -> Map<NodeKey, NodeModel<S>>
    decreases path.len() - k,
{
    if k >= path.len() - 1 {
        nodes
    } else {
        let later = narrowed_along(nodes, path, root, k + 1);
        if root_from(path, root, k) {
            later
        } else {
            narrowed_at(later, path[k])
        }
    }
}

impl<S: Scalar> NodeRepository<S> {
    /// Narrows the bounds of a node by its replies.
    fn narrow(&mut self, key: NodeKey)
        requires
            old(self).wf(),
        ensures
            final(self).wf(),
            final(self)@ == narrowed_at(old(self)@, key),
            final(self).slots@.len() == old(self).slots@.len(),
    {
        let ghost nodes = self@;
        let i: usize = match self.find(key) {
            Some(i) => i,
            None => {
                return;
            },
        };
        let ghost node = self.slots@[i as int].node@;
        if self.slots[i].node.expansion_state() == ExpansionState::Terminal {
            assert(nodes =~= nodes.insert(key, narrowed(nodes, key)));
            return;
        }
        let mut replies: Vec<Reply<S>> = Vec::new();
        let count: usize = self.slots[i].node.edges.len();
        let mut e: usize = 0;
        while e < count
            invariant
                self.wf(),
                *self == *old(self),
                nodes == self@,
                i < self.slots@.len(),
                node == self.slots@[i as int].node@,
                count == node.edges.len(),
                e <= count,
                replies@.len() == e,
                forall|j: int|
                    0 <= j < e ==> #[trigger] replies@[j] == bounded_reply(nodes, node.edges[j]),
            decreases count - e,
        {
            let mut reply: Reply<S> = Reply { bounds: Bounds::default(), plies_left: None };
            assert(node.edges[e as int] == self.slots@[i as int].node.edges@[e as int]);
            match self.slots[i].node.edges[e].child_key() {
                Some(child) => {
                    match self.get(child) {
                        Some(child_node) => {
                            reply = Reply {
                                bounds: child_node.bounds,
                                plies_left: child_node.terminal_plies_left(),
                            };
                        },
                        None => {},
                    }
                },
                None => {},
            }
            replies.push(reply);
            e += 1;
        }
        assert(replies@ =~= bounded_replies(nodes, key));
        let left: Bounds<S> = bounds_from_replies(&replies);
        let place: &mut Node<S> = self.get_mut(key).unwrap();
        let bounds: Bounds<S> = place.bounds.meet(left);
        if bounds.is_exact() && place.expansion_state() == ExpansionState::Expanded {
            let wl: S = bounds.lower;
            place.terminal = Some((wl, proven_draw(wl), proven_plies(&replies, wl)));
            place.bounds = Bounds::exactly(wl);
            place.expansion = ExpansionState::Terminal;
        } else {
            place.bounds = bounds;
        }
        assert(place@ == narrowed(nodes, key));
    }

    /// Narrows the bounds of the nodes on a path, one after the other towards the root,
    /// which itself is left as it is.
    pub fn propagate_proven_bounds(&mut self, node_path: &Vec<NodeKey>, root: NodeKey)
        requires
            old(self).wf(),
        ensures
            final(self).wf(),
            final(self)@ == narrowed_along(old(self)@, node_path@, root, 0),
            final(self).slots@.len() == old(self).slots@.len(),
    {
        if node_path.len() < 2 {
            return;
        }
        let ghost nodes = self@;
        let ghost path = node_path@;
        let mut k: usize = node_path.len() - 1;
        let mut stopped: bool = false;
        while k > 0
            invariant
                k < path.len(),
                path == node_path@,
                nodes == old(self)@,
                self.wf(),
                self@ == narrowed_along(nodes, path, root, k as int),
                stopped == root_from(path, root, k as int),
                self.slots@.len() == old(self).slots@.len(),
            decreases k,
        {
            k = k - 1;
            let key: NodeKey = node_path[k];
            proof {
                assert(root_from(path, root, k as int) == (root_from(path, root, k + 1) || key
                    == root)) by {
                    if root_from(path, root, k as int) {
                        let j = choose|j: int| k <= j < path.len() - 1 && #[trigger] path[j] == root;
                        if j > k {
                            assert(path[j] == root);
                        }
                    }
                    if root_from(path, root, k + 1) {
                        let j = choose|j: int|
                            k + 1 <= j < path.len() - 1 && #[trigger] path[j] == root;
                        assert(path[j] == root);
                    }
                    if key == root {
                        assert(path[k as int] == root);
                    }
                }
            }
            if key == root {
                stopped = true;
            }
            if !stopped {
                self.narrow(key);
            }
        }
    }

    /// Whether no visit is under way in the part of the graph that a node reaches.
    pub fn subtree_is_settled(&self, root: NodeKey) -> (r: bool)
        requires
            self.wf(),
        ensures
            r == (forall|key: NodeKey| #[trigger]
                self@.contains_key(key) && reaches(self@, root, key) ==> self@[key].settled()),
    {
        let (_, marks) = self.explore(root, None);
        let mut i: usize = 0;
        while i < self.slots.len()
            invariant
                self.wf(),
                i <= self.slots@.len(),
                marks@.len() == self.slots@.len(),
                forall|j: int|
                    0 <= j < self.slots@.len() ==> marks@[j] == reaches(
                        self@,
                        root,
                        (#[trigger] self.slots@[j]).key,
                    ),
                forall|j: int|
                    0 <= j < i && marks@[j] ==> (#[trigger] self.slots@[j]).node@.settled(),
            decreases self.slots@.len() - i,
        {
            if marks[i] && !self.slots[i].node.is_settled() {
                proof {
                    lemma_place(self.slots@, i as int);
                    assert(self@.contains_key(self.slots@[i as int].key));
                }
                return false;
            }
            i += 1;
        }
        proof {
            assert forall|key: NodeKey| #[trigger]
                self@.contains_key(key) && reaches(self@, root, key) implies self@[key].settled() by {
                let k = place_of(self.slots@, key);
                assert(0 <= k < self.slots@.len() && self.slots@[k].key == key);
                assert(self.slots@[k].node@.settled());
            }
        }
        true
    }

    /// Drops every node that a node reaches, itself included, and says how many there
    /// were.
    pub fn remove_subtree(&mut self, root: NodeKey) -> (r: usize)
        requires
            old(self).wf(),
        ensures
            final(self).wf(),
            forall|key: NodeKey| #[trigger]
                final(self)@.contains_key(key) <==> old(self)@.contains_key(key) && !reaches(
                    old(self)@,
                    root,
                    key,
                ),
            forall|key: NodeKey| #[trigger]
                final(self)@.contains_key(key) ==> final(self)@[key] == old(self)@[key],
            r == old(self).slots@.len() - final(self).slots@.len(),
    {
        let ghost all = self.slots@;
        let ghost nodes = self@;
        let (_, marks) = self.explore(root, None);
        let total: usize = self.slots.len();
        let mut kept: NodeRepository<S> = NodeRepository::with_shards(self.shards.len());
        let mut i: usize = total;
        while i > 0
            invariant
                i <= total,
                total == all.len(),
                keys_differ(all),
                nodes == nodes_by_key(all),
                forall|j: int| 0 <= j < all.len() ==> (#[trigger] all[j]).node.wf(),
                marks@.len() == total,
                forall|j: int|
                    0 <= j < all.len() ==> marks@[j] == reaches(nodes, root, (#[trigger] all[j]).key),
                self.slots@ == all.take(i as int),
                kept.wf(),
                kept.slots@.len() <= total - i,
                forall|key: NodeKey| #[trigger]
                    kept@.contains_key(key) <==> is_left(all, marks@, i as int, key),
                forall|key: NodeKey| #[trigger]
                    kept@.contains_key(key) ==> kept@[key] == nodes[key],
            decreases i,
        {
            i = i - 1;
            let slot: Slot<S> = self.slots.pop().unwrap();
            assert(slot == all[i as int]);
            assert(self.slots@ =~= all.take(i as int));
            proof {
                lemma_place(all, i as int);
                assert forall|key: NodeKey|
                    is_left(all, marks@, i as int, key) == (is_left(all, marks@, i + 1, key) || (
                    key == slot.key && !marks@[i as int])) by {
                    if is_left(all, marks@, i + 1, key) {
                        let j = choose|j: int|
                            i + 1 <= j < all.len() && (#[trigger] all[j]).key == key && !marks@[j];
                        assert(all[j].key == key);
                    }
                    if key == slot.key && !marks@[i as int] {
                        assert(all[i as int].key == key);
                    }
                }
                if is_left(all, marks@, i + 1, slot.key) {
                    let j = choose|j: int|
                        i + 1 <= j < all.len() && (#[trigger] all[j]).key == slot.key && !marks@[j];
                    assert(all[i as int].key != all[j].key);
                }
            }
            if !marks[i] {
                kept.add(slot.key, slot.node);
            }
        }
        let removed: usize = total - kept.slots.len();
        self.shards = kept.shards;
        self.slots = kept.slots;
        proof {
            assert forall|key: NodeKey| is_left(all, marks@, 0, key) == (nodes.contains_key(key)
                && !reaches(nodes, root, key)) by {
                if is_left(all, marks@, 0, key) {
                    let j = choose|j: int|
                        0 <= j < all.len() && (#[trigger] all[j]).key == key && !marks@[j];
                    assert(holds(all, key));
                }
                if nodes.contains_key(key) && !reaches(nodes, root, key) {
                    let j = place_of(all, key);
                    assert(0 <= j < all.len() && all[j].key == key);
                }
            }
        }
        removed
    }
}

/// Whether a key is that of a node without a mark from place `from` on.
spec fn is_left<S: Scalar>(all: Seq<Slot<S>>, marks: Seq<bool>, from: int, key: NodeKey) -> bool {
    exists|j: int| from <= j < all.len() && (#[trigger] all[j]).key == key && !marks[j]
}

/// Narrowing never forgets a result, and touches neither edges nor sums.
pub proof fn law_narrowing_keeps_results<S: Scalar>(
    nodes: Map<NodeKey, NodeModel<S>>,
    key: NodeKey,
)
    requires
        nodes.contains_key(key),
    ensures
        nodes[key].expansion == ExpansionState::Terminal ==> narrowed(nodes, key) == nodes[key],
        narrowed(nodes, key).edges == nodes[key].edges,
        narrowed(nodes, key).stats == nodes[key].stats,
        nodes[key].expansion != ExpansionState::Expanded ==> narrowed(nodes, key).terminal
            == nodes[key].terminal,
{
}

} // verus!
