//! Binding edges so that the graph stays without cycles, and dropping what the root
//! does not reach.
use vstd::prelude::*;

use crate::graph::edge::Edge;
use crate::graph::key::NodeKey;
use crate::graph::node::{Node, NodeModel};
use crate::graph::reach::{
    acyclic, law_linking_keeps_the_graph_acyclic, lemma_absent_reaches_itself_only,
    lemma_fewer_links, linked, reaches,
};
use crate::graph::repository::{
    holds, keys_differ, lemma_place, nodes_by_key, place_of, NodeRepository, Slot,
};
use crate::scalar::Scalar;

verus! {

/// What became of an edge that was to be bound.
#[derive(Clone, Copy, Debug, PartialEq, Eq, Structural)]
pub enum ChildLink {
    Bound,
    /// The edge would close a cycle and is left out for good.
    TopologyPruned,
}

/// Whether two graphs differ in one edge of one node only.
pub open spec fn edge_replaced<S: Scalar>(
    before: Map<NodeKey, NodeModel<S>>,
    after: Map<NodeKey, NodeModel<S>>,
    parent: NodeKey,
    i: int,
    edge: Edge<S>,
) -> bool {
    after == before.insert(
        parent,
        NodeModel { edges: before[parent].edges.update(i, edge), ..before[parent] },
    )
}

proof fn lemma_links_after_replacing<S: Scalar>(
    before: Map<NodeKey, NodeModel<S>>,
    after: Map<NodeKey, NodeModel<S>>,
    parent: NodeKey,
    i: int,
    edge: Edge<S>,
)
    requires
        before.contains_key(parent),
        0 <= i < before[parent].edges.len(),
        edge_replaced(before, after, parent, i, edge),
    ensures
        forall|a: NodeKey, b: NodeKey| #[trigger]
            linked(after, a, b) ==> linked(before, a, b) || (a == parent && edge.child_key == Some(
                b,
            )),
{
    assert forall|a: NodeKey, b: NodeKey| #[trigger] linked(after, a, b) implies linked(
        before,
        a,
        b,
    ) || (a == parent && edge.child_key == Some(b)) by {
        let e = choose|e: int|
            0 <= e < after[a].edges.len() && (#[trigger] after[a].edges[e]).child_key == Some(b);
        if a == parent && e == i {
        } else if a == parent {
            assert(before[a].edges[e].child_key == Some(b));
        } else {
            assert(before[a] == after[a]);
            assert(before[a].edges[e].child_key == Some(b));
        }
    }
}

impl<S: Scalar> NodeRepository<S> {
    /// Binds an edge of a node to another, unless that closed a cycle; then the edge is
    /// left out for good. An edge that was bound or left out before stays so.
    pub fn bind_child_or_cut_cycle(&mut self, parent: NodeKey, edge_index: usize, child: NodeKey)
        -> (r: ChildLink)
        requires
            old(self).wf(),
            old(self)@.contains_key(parent),
            edge_index < old(self)@[parent].edges.len(),
            old(self)@[parent].edges[edge_index as int].child_key matches Some(existing) ==> existing
                == child,
        ensures
            final(self).wf(),
            ({
                let edge = old(self)@[parent].edges[edge_index as int];
                let settled = edge.child_key is Some || edge.topology_pruned;
                let closes = old(self)@.contains_key(child) && reaches(old(self)@, child, parent);
                &&& r == (if edge.child_key is Some || (!edge.topology_pruned && !closes) {
                    ChildLink::Bound
                } else {
                    ChildLink::TopologyPruned
                })
                &&& settled ==> *final(self) == *old(self)
                &&& !settled && closes ==> edge_replaced(
                    old(self)@,
                    final(self)@,
                    parent,
                    edge_index as int,
                    Edge { topology_pruned: true, ..edge },
                )
                &&& !settled && !closes ==> ({
                    let grown = if old(self)@.contains_key(child) {
                        old(self)@
                    } else {
                        old(self)@.insert(child, final(self)@[child])
                    };
                    &&& (!old(self)@.contains_key(child) ==> final(self)@.contains_key(child)
                        && final(self)@[child].is_fresh())
                    &&& edge_replaced(
                        grown,
                        final(self)@,
                        parent,
                        edge_index as int,
                        Edge { child_key: Some(child), ..edge },
                    )
                })
            }),
            acyclic(old(self)@) ==> acyclic(final(self)@),
    {
        let ghost before = self@;
        let i: usize = self.find(parent).unwrap();
        assert(before[parent] == self.slots@[i as int].node@);
        assert(self.slots@[i as int].node.wf());
        let edge: Edge<S> = self.slots[i].node.edges[edge_index];
        assert(edge.wf());
        if edge.child_key().is_some() {
            return ChildLink::Bound;
        }
        if edge.topology_pruned() {
            return ChildLink::TopologyPruned;
        }
        if self.find(child).is_none() {
            self.add(child, Node::default());
            let ghost grown = self@;
            self.set_edge(parent, edge_index, Edge { child_key: Some(child), ..edge });
            proof {
                assert(child != parent);
                assert(grown[parent] == before[parent]);
                assert(self@ =~= grown.insert(parent, self@[parent]));
                assert(grown =~= before.insert(child, self@[child]));
                if reaches(before, child, parent) {
                    lemma_absent_reaches_itself_only(before, child, parent);
                }
                lemma_links_after_replacing(
                    grown,
                    self@,
                    parent,
                    edge_index as int,
                    Edge { child_key: Some(child), ..edge },
                );
                assert forall|a: NodeKey, b: NodeKey| #[trigger] linked(self@, a, b) implies linked(
                    before,
                    a,
                    b,
                ) || (a == parent && b == child) by {
                    if linked(grown, a, b) {
                        let e = choose|e: int|
                            0 <= e < grown[a].edges.len() && (
                            #[trigger] grown[a].edges[e]).child_key == Some(b);
                        assert(a != child);
                        assert(before[a].edges[e].child_key == Some(b));
                    }
                }
                if acyclic(before) {
                    law_linking_keeps_the_graph_acyclic(before, self@, parent, child);
                }
            }
            return ChildLink::Bound;
        }
        if self.reaches(child, parent) {
            self.set_edge(parent, edge_index, Edge { topology_pruned: true, ..edge });
            proof {
                lemma_links_after_replacing(
                    before,
                    self@,
                    parent,
                    edge_index as int,
                    Edge { topology_pruned: true, ..edge },
                );
                if acyclic(before) {
                    lemma_fewer_links(before, self@);
                }
            }
            return ChildLink::TopologyPruned;
        }
        self.set_edge(parent, edge_index, Edge { child_key: Some(child), ..edge });
        proof {
            lemma_links_after_replacing(
                before,
                self@,
                parent,
                edge_index as int,
                Edge { child_key: Some(child), ..edge },
            );
            if acyclic(before) {
                law_linking_keeps_the_graph_acyclic(before, self@, parent, child);
            }
        }
        ChildLink::Bound
    }

    fn set_edge(&mut self, parent: NodeKey, edge_index: usize, edge: Edge<S>)
        requires
            old(self).wf(),
            old(self)@.contains_key(parent),
            edge_index < old(self)@[parent].edges.len(),
            edge.wf(),
        ensures
            final(self).wf(),
            edge_replaced(old(self)@, final(self)@, parent, edge_index as int, edge),
    {
        let node: &mut Node<S> = self.get_mut(parent).unwrap();
        node.edges[edge_index] = edge;
    }

    /// Drops every node that the root does not reach, and says how many there were.
    pub fn retain_from_root(&mut self, root: NodeKey) -> (r: usize)
        requires
            old(self).wf(),
        ensures
            final(self).wf(),
            forall|key: NodeKey| #[trigger]
                final(self)@.contains_key(key) <==> old(self)@.contains_key(key) && reaches(
                    old(self)@,
                    root,
                    key,
                ),
            forall|key: NodeKey| #[trigger]
                final(self)@.contains_key(key) ==> final(self)@[key] == old(self)@[key],
            r == old(self).slots@.len() - final(self).slots@.len(),
            final(self).shards@.len() == old(self).shards@.len(),
            acyclic(old(self)@) ==> acyclic(final(self)@),
    {
        let ghost all = self.slots@;
        let ghost nodes = self@;
        let (_, marks) = self.explore(root, None);
        let total: usize = self.slots.len();
        let mut kept: NodeRepository<S> = NodeRepository::with_shards(self.shards.len());
        let mut i: usize = total;
        while i > 0
            invariant
                i <= total,
                total == all.len(),
                keys_differ(all),
                nodes == nodes_by_key(all),
                forall|j: int| 0 <= j < all.len() ==> (#[trigger] all[j]).node.wf(),
                marks@.len() == total,
                forall|j: int|
                    0 <= j < all.len() ==> marks@[j] == reaches(nodes, root, (#[trigger] all[j]).key),
                self.slots@ == all.take(i as int),
                kept.wf(),
                kept.slots@.len() <= total - i,
                kept.shards@.len() == old(self).shards@.len(),
                forall|key: NodeKey| #[trigger]
                    kept@.contains_key(key) <==> is_kept(all, marks@, i as int, key),
                forall|key: NodeKey| #[trigger]
                    kept@.contains_key(key) ==> kept@[key] == nodes[key],
            decreases i,
        {
            i = i - 1;
            let slot: Slot<S> = self.slots.pop().unwrap();
            assert(slot == all[i as int]);
            assert(self.slots@ =~= all.take(i as int));
            proof {
                lemma_place(all, i as int);
                assert forall|key: NodeKey|
                    is_kept(all, marks@, i as int, key) == (is_kept(all, marks@, i + 1, key) || (
                    key == slot.key && marks@[i as int])) by {
                    if is_kept(all, marks@, i + 1, key) {
                        let j = choose|j: int|
                            i + 1 <= j < all.len() && (#[trigger] all[j]).key == key && marks@[j];
                        assert(all[j].key == key);
                    }
                    if key == slot.key && marks@[i as int] {
                        assert(all[i as int].key == key);
                    }
                }
                if is_kept(all, marks@, i + 1, slot.key) {
                    let j = choose|j: int|
                        i + 1 <= j < all.len() && (#[trigger] all[j]).key == slot.key && marks@[j];
                    assert(all[i as int].key != all[j].key);
                }
            }
            if marks[i] {
                kept.add(slot.key, slot.node);
            }
        }
        let removed: usize = total - kept.slots.len();
        self.shards = kept.shards;
        self.slots = kept.slots;
        proof {
            assert forall|key: NodeKey| is_kept(all, marks@, 0, key) == (nodes.contains_key(key)
                && reaches(nodes, root, key)) by {
                if is_kept(all, marks@, 0, key) {
                    let j = choose|j: int|
                        0 <= j < all.len() && (#[trigger] all[j]).key == key && marks@[j];
                    assert(holds(all, key));
                }
                if nodes.contains_key(key) && reaches(nodes, root, key) {
                    let j = place_of(all, key);
                    assert(0 <= j < all.len() && all[j].key == key);
                }
            }
            if acyclic(nodes) {
                assert forall|a: NodeKey, b: NodeKey| #[trigger] linked(self@, a, b) implies linked(
                    nodes,
                    a,
                    b,
                ) by {
                    let e = choose|e: int|
                        0 <= e < self@[a].edges.len() && (#[trigger] self@[a].edges[e]).child_key
                            == Some(b);
                    assert(nodes[a].edges[e].child_key == Some(b));
                }
                lemma_fewer_links(nodes, self@);
            }
        }
        removed
    }
}

/// Whether a key is that of a marked node from place `from` on.
spec fn is_kept<S: Scalar>(all: Seq<Slot<S>>, marks: Seq<bool>, from: int, key: NodeKey) -> bool {
    exists|j: int| from <= j < all.len() && (#[trigger] all[j]).key == key && marks[j]
}

} // verus!
