//! Results that follow from the results of all replies.
use vstd::prelude::*;

use crate::graph::proof_bounds::{
    bounds_from_replies, draw_of, left_by_replies, proven_draw, proven_plies, spec_proven_plies,
    Bounds, Reply,
};
use crate::scalar::Scalar;
use crate::stream::decision::{child_result, result_behind};
use crate::stream::tree::{Edge, ExpansionState, NodeArena, NodeId, NodeModel};

verus! {

/// What is known of the position behind an edge: its result, or nothing.
pub open spec fn reply_of<S: Scalar>(nodes: Seq<NodeModel<S>>, edge: Edge<S>) -> Reply<S> {
    match result_behind(nodes, edge) {
        Some(result) => Reply {
            bounds: Bounds::spec_exactly(result.0),
            plies_left: Some(result.2),
        },
        None => Reply { bounds: Bounds::spec_open(), plies_left: None },
    }
}

/// What is known of the positions behind a node's edges.
pub open spec fn replies_of<S: Scalar>(nodes: Seq<NodeModel<S>>, id: int) -> Seq<Reply<S>> {
    nodes[id].edges.map_values(|edge: Edge<S>| reply_of(nodes, edge))
}

/// The result of an expanded node that its replies prove.
pub open spec fn proven_result<S: Scalar>(nodes: Seq<NodeModel<S>>, id: int) -> Option<(S, S, S)> {
    let replies = replies_of(nodes, id);
    let bounds = left_by_replies(replies);
    if nodes[id].state == ExpansionState::Expanded && replies.len() > 0 && bounds.spec_is_exact() {
        Some((bounds.lower, draw_of(bounds.lower), spec_proven_plies(replies, bounds.lower)))
    } else {
        None
    }
}

/// The tree with the result of a node taken over, if its replies prove one.
pub open spec fn proven_at<S: Scalar>(nodes: Seq<NodeModel<S>>, id: int) -> Seq<NodeModel<S>> {
    match proven_result(nodes, id) {
        Some(result) => nodes.update(
            id,
            NodeModel {
                state: ExpansionState::Terminal,
                terminal: Some(result),
                ..nodes[id]
            },
        ),
        None => nodes,
    }
}

/// Whether the root stands at or behind place `k` of a path, the last place left out.
pub open spec fn root_from(path: Seq<NodeId>, root: NodeId, k: int) -> bool {
    exists|j: int| k <= j < path.len() - 1 && #[trigger] path[j] == root
}

/// The tree with the results of a path's nodes taken over, from the leaf's parent up to
/// place `k`; the root and what stands before it stay as they are.
pub open spec fn proven_along<S: Scalar>(
    nodes: Seq<NodeModel<S>>,
    path: Seq<NodeId>,
    root: NodeId,
    k: int,
) -> Seq<NodeModel<S>>
    decreases path.len() - k,
{
    if k >= path.len() - 1 {
        nodes
    } else {
        let later = proven_along(nodes, path, root, k + 1);
        if root_from(path, root, k) {
            later
        } else {
            proven_at(later, path[k] as int)
        }
    }
}

impl<S: Scalar> NodeArena<S> {
    /// Takes over the result of a node, if its replies prove one.
    fn prove(&mut self, id: NodeId) -> (r: bool)
        requires
            old(self).wf(),
            id < old(self)@.len(),
        ensures
            final(self).wf(),
            r == proven_result(old(self)@, id as int) is Some,
            final(self)@ == proven_at(old(self)@, id as int),
    {
        let ghost nodes = self@;
        if self.nodes[id].expansion_state() != ExpansionState::Expanded {
            return false;
        }
        let mut replies: Vec<Reply<S>> = Vec::new();
        let count: usize = self.nodes[id].edges.len();
        let mut e: usize = 0;
        while e < count
            invariant
                *self == *old(self),
                nodes == self@,
                id < self@.len(),
                count == self@[id as int].edges.len(),
                e <= count,
                replies@.len() == e,
                forall|j: int|
                    0 <= j < e ==> #[trigger] replies@[j] == reply_of(
                        nodes,
                        nodes[id as int].edges[j],
                    ),
            decreases count - e,
        {
            let edge: Edge<S> = self.nodes[id].edges[e];
            assert(nodes[id as int].edges[e as int] == edge);
            replies.push(
                match child_result(self, &edge) {
                    Some((wl, _, plies_left)) => Reply {
                        bounds: Bounds::exactly(wl),
                        plies_left: Some(plies_left),
                    },
                    None => Reply { bounds: Bounds::default(), plies_left: None },
                },
            );
            e += 1;
        }
        assert(replies@ =~= replies_of(nodes, id as int));
        let bounds: Bounds<S> = bounds_from_replies(&replies);
        if replies.is_empty() || !bounds.is_exact() {
            return false;
        }
        let wl: S = bounds.lower;
        let draw: S = proven_draw(wl);
        let plies_left: S = proven_plies(&replies, wl);
        let node = self.node_mut(id);
        node.state = ExpansionState::Terminal;
        node.terminal = Some((wl, draw, plies_left));
        proof {
            let after = self@;
            assert(after == proven_at(nodes, id as int));
            assert forall|i: int| 0 <= i < after.len() implies (#[trigger] after[i]).wf() by {
                assert(nodes[i].wf());
                assert forall|j: int| 0 <= j < after[i].edges.len() implies (
                #[trigger] after[i].edges[j]).wf() by {
                    assert(nodes[i].edges[j].wf());
                }
            }
            assert forall|i: int, j: int|
                0 <= i < after.len() && 0 <= j < after[i].edges.len() implies ((
            #[trigger] after[i].edges[j]).child matches Some(c) ==> i < c < after.len()) by {
                assert(nodes[i].edges[j].child == after[i].edges[j].child);
            }
        }
        true
    }

    /// Takes over the results that the end of a path proves, one node after the other
    /// towards the root, which itself is left as it is.
    pub fn propagate_proven_terminals(&mut self, path: &Vec<NodeId>, root: NodeId)
        requires
            old(self).wf(),
            forall|i: int| 0 <= i < path@.len() ==> #[trigger] path@[i] < old(self)@.len(),
        ensures
            final(self).wf(),
            final(self)@ == proven_along(old(self)@, path@, root, 0),
    {
        if path.len() < 2 {
            return;
        }
        let ghost nodes = self@;
        let mut k: usize = path.len() - 1;
        let mut stopped: bool = false;
        while k > 0
            invariant
                k < path@.len(),
                nodes == old(self)@,
                self.wf(),
                self@.len() == nodes.len(),
                forall|i: int| 0 <= i < path@.len() ==> #[trigger] path@[i] < nodes.len(),
                self@ == proven_along(nodes, path@, root, k as int),
                stopped == root_from(path@, root, k as int),
            decreases k,
        {
            k = k - 1;
            let id: NodeId = path[k];
            proof {
                assert(root_from(path@, root, k as int) == (root_from(path@, root, k + 1) || id
                    == root)) by {
                    if root_from(path@, root, k as int) {
                        let j = choose|j: int|
                            k <= j < path@.len() - 1 && #[trigger] path@[j] == root;
                        if j > k {
                            assert(path@[j] == root);
                        }
                    }
                    if root_from(path@, root, k + 1) {
                        let j = choose|j: int|
                            k + 1 <= j < path@.len() - 1 && #[trigger] path@[j] == root;
                        assert(path@[j] == root);
                    }
                    if id == root {
                        assert(path@[k as int] == root);
                    }
                }
                assert(path@[k as int] < nodes.len());
            }
            if id == root {
                stopped = true;
            }
            if !stopped {
                let _ = self.prove(id);
            }
        }
    }
}

/// Taking over a result changes that node only, and neither its edges nor its sums; a
/// node with a result keeps it.
pub proof fn law_results_stay<S: Scalar>(nodes: Seq<NodeModel<S>>, id: int, other: int)
    requires
        0 <= id < nodes.len(),
        0 <= other < nodes.len(),
    ensures
        other != id ==> proven_at(nodes, id)[other] == nodes[other],
        nodes[id].state != ExpansionState::Expanded ==> proven_at(nodes, id) == nodes,
        proven_at(nodes, id)[id].edges == nodes[id].edges,
        proven_at(nodes, id)[id].stats == nodes[id].stats,
{
}

} // verus!
