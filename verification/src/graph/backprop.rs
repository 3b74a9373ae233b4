//! Carrying results back: completing the visits of a line and bringing the values of
//! its nodes up to date.
use vstd::prelude::*;

use crate::graph::edge::{Edge, EdgeReservation};
use crate::graph::event::{entry_fits, NodeEvent};
use crate::graph::key::NodeKey;
use crate::graph::node::{Node, NodeModel};
use crate::graph::recompute::{countable, proven_result, recomputed, settled_by};
use crate::graph::repository::{place_of, NodeRepository};
use crate::graph::value::ValueDelta;
use crate::scalar::Scalar;
use crate::sums::{lemma_sum_bounds, lemma_sum_update, sum_by};

verus! {

/// A line whose leaf has been evaluated, or whose leaf has a result that holds for the
/// line only.
#[derive(Debug)]
pub struct BackpropEvent<S> {
    pub node: NodeEvent<S>,
    /// A result that holds for the line only. It belongs to the last edge.
    pub local_leaf: Option<ValueDelta<S>>,
}

/// What a batch of results added.
#[derive(Clone, Copy, Debug, PartialEq, Eq, Structural)]
pub struct BackpropResult {
    pub completed_playouts: u32,
    /// The sum of the depths of the leaves; the root has depth one.
    pub completed_depth: u64,
    pub max_depth: u64,
}

impl Default for BackpropResult {
    fn default() -> (r: Self)
        ensures
            r == (BackpropResult { completed_playouts: 0, completed_depth: 0, max_depth: 0 }),
    {
        BackpropResult { completed_playouts: 0, completed_depth: 0, max_depth: 0 }
    }
}

/// The nodes once the visits reserved on an edge have been completed.
pub open spec fn edge_completed<S: Scalar>(
    nodes: Map<NodeKey, NodeModel<S>>,
    key: NodeKey,
    reservation: EdgeReservation<S>,
    leaf: Option<ValueDelta<S>>,
) -> Map<NodeKey, NodeModel<S>> {
    let edges = nodes[key].edges;
    let i = reservation.edge as int;
    nodes.insert(
        key,
        NodeModel {
            edges: edges.update(
                i,
                edges[i].completed_with(reservation.visits, reservation.virtual_wl_sum, leaf),
            ),
            ..nodes[key]
        },
    )
}

/// The nodes once the visits reserved on an edge have been given back.
pub open spec fn edge_cancelled<S: Scalar>(
    nodes: Map<NodeKey, NodeModel<S>>,
    key: NodeKey,
    reservation: EdgeReservation<S>,
) -> Map<NodeKey, NodeModel<S>> {
    let edges = nodes[key].edges;
    let i = reservation.edge as int;
    nodes.insert(
        key,
        NodeModel {
            edges: edges.update(
                i,
                edges[i].cancelled(reservation.visits, reservation.virtual_wl_sum),
            ),
            ..nodes[key]
        },
    )
}

/// The nodes with the value of one brought up to date.
#[verifier::opaque]
pub open spec fn recomputed_at<S: Scalar>(
    nodes: Map<NodeKey, NodeModel<S>>,
    key: NodeKey,
) -> Map<NodeKey, NodeModel<S>> {
    if nodes.contains_key(key) {
        nodes.insert(key, recomputed(nodes[key], nodes))
    } else {
        nodes
    }
}

/// The nodes with the result of one taken over, if it is known.
#[verifier::opaque]
pub open spec fn proven_at<S: Scalar>(nodes: Map<NodeKey, NodeModel<S>>, key: NodeKey) -> Map<
    NodeKey,
    NodeModel<S>,
> {
    if nodes.contains_key(key) && proven_result(nodes[key], nodes) is Some {
        nodes.insert(key, settled_by(nodes[key], proven_result(nodes[key], nodes)->Some_0))
    } else {
        nodes
    }
}

/// The nodes with those of a path from number `k` on brought up to date, the last one
/// first.
pub open spec fn refreshed<S: Scalar>(
    nodes: Map<NodeKey, NodeModel<S>>,
    path: Seq<NodeKey>,
    k: int,
) -> Map<NodeKey, NodeModel<S>>
    decreases path.len() - k,
{
    if k >= path.len() {
        nodes
    } else {
        proven_at(recomputed_at(refreshed(nodes, path, k + 1), path[k]), path[k])
    }
}

/// The present mean of a node as a single result.
pub open spec fn sample_of<S: Scalar>(node: NodeModel<S>) -> ValueDelta<S> {
    ValueDelta::spec_with_plies_left(
        node.mean(node.stats.wl_sum),
        node.mean(node.stats.draw_sum),
        node.mean(node.stats.m_sum),
    )
}

impl<S: Scalar> BackpropEvent<S> {
    /// The leaf is on the path unless its result holds for the line only, and then the
    /// result weighs as much as the last edge's visits. A move that left the shared graph
    /// was made by one visit.
    pub open spec fn wf(self) -> bool {
        &&& self.node.wf()
        &&& self.node.has_leaf() == (self.local_leaf is None)
        &&& (self.local_leaf matches Some(value) ==> self.count() > 0 ==> value.visits
            == self.node.reservations@.last().visits)
        &&& forall|j: int|
            0 <= j < self.node.tree_entries@.len() ==> self.leaf_at(
                (#[trigger] self.node.tree_entries@[j]).0 as int,
            ) is Some || self.node.reservations@[self.node.tree_entries@[j].0 as int].visits == 1
    }

    pub open spec fn count(self) -> int {
        self.node.reservations@.len() as int
    }

    /// The result that an edge of the line takes by itself: the last one that of the line.
    pub open spec fn leaf_at(self, i: int) -> Option<ValueDelta<S>> {
        if i == self.count() - 1 {
            self.local_leaf
        } else {
            None
        }
    }

    /// Whether the line left the shared graph by move `i`.
    pub open spec fn is_entry(self, i: int) -> bool {
        exists|j: int|
            0 <= j < self.node.tree_entries@.len() && (#[trigger] self.node.tree_entries@[j]).0 == i
    }

    /// The nodes once the edges from number `k` on are completed, but for those by which
    /// the line left the shared graph.
    pub open spec fn edges_done(self, nodes: Map<NodeKey, NodeModel<S>>, k: int) -> Map<
        NodeKey,
        NodeModel<S>,
    >
        decreases self.count() - k,
    {
        if k >= self.count() {
            nodes
        } else {
            let later = self.edges_done(nodes, k + 1);
            if self.is_entry(k) {
                later
            } else {
                edge_completed(
                    later,
                    self.node.node_path@[k],
                    self.node.reservations@[k],
                    self.leaf_at(k),
                )
            }
        }
    }

    /// The nodes once the entries from number `j` on are completed, the last one first:
    /// each with the result of the line or with the present mean of the node behind it.
    pub open spec fn entries_done(self, nodes: Map<NodeKey, NodeModel<S>>, j: int) -> Map<
        NodeKey,
        NodeModel<S>,
    >
        decreases self.node.tree_entries@.len() - j,
    {
        if j >= self.node.tree_entries@.len() {
            nodes
        } else {
            let later = self.entries_done(nodes, j + 1);
            let entry = self.node.tree_entries@[j];
            let i = entry.0 as int;
            if self.leaf_at(i) is Some {
                edge_completed(
                    later,
                    self.node.node_path@[i],
                    self.node.reservations@[i],
                    self.leaf_at(i),
                )
            } else {
                let fresh = refreshed(later, self.node.node_path@, i + 1);
                edge_completed(
                    fresh,
                    self.node.node_path@[i],
                    self.node.reservations@[i],
                    Some(sample_of(fresh[entry.1])),
                )
            }
        }
    }

    /// The nodes once the event is completed: its edges first, then the entries from the
    /// innermost outwards, then the values of all nodes on the path up to the root, whose
    /// result is never taken over.
    pub open spec fn applied(self, nodes: Map<NodeKey, NodeModel<S>>) -> Map<
        NodeKey,
        NodeModel<S>,
    > {
        let done = self.entries_done(self.edges_done(nodes, 0), 0);
        let path = self.node.node_path@;
        if path.len() == 0 {
            done
        } else {
            recomputed_at(refreshed(done, path, 1), path[0])
        }
    }

    /// The leaf was evaluated.
    pub fn evaluation(node: NodeEvent<S>) -> (r: Self)
        ensures
            r.node == node,
            r.local_leaf is None,
    {
        BackpropEvent { node, local_leaf: None }
    }

    /// The leaf has a result that holds for the line only.
    pub fn local_leaf(node: NodeEvent<S>, value: ValueDelta<S>) -> (r: Self)
        ensures
            r.node == node,
            r.local_leaf == Some(value),
    {
        BackpropEvent { node, local_leaf: Some(value) }
    }
}

/// A reservation with its node, and whether it is still open.
pub ghost struct Claim<S> {
    pub key: NodeKey,
    pub reservation: EdgeReservation<S>,
    pub open: bool,
}

/// The open visits of claims on one edge.
pub open spec fn owed<S>(claims: Seq<Claim<S>>, key: NodeKey, e: int) -> int {
    sum_by(claims, visits_on(key, e))
}

pub open spec fn visits_on<S>(key: NodeKey, e: int) -> spec_fn(Claim<S>) -> int {
    |claim: Claim<S>|
        if claim.open && claim.key == key && claim.reservation.edge == e {
            claim.reservation.visits as int
        } else {
            0
        }
}

/// The claims of an event, all of them open.
pub open spec fn claims_of<S: Scalar>(event: NodeEvent<S>) -> Seq<Claim<S>> {
    Seq::new(
        event.reservations@.len(),
        |i: int|
            Claim {
                key: event.node_path@[i],
                reservation: event.reservations@[i],
                open: true,
            },
    )
}

/// The visits that the events from number `k` on hold on one edge.
pub open spec fn owed_by_events<S: Scalar>(
    events: Seq<BackpropEvent<S>>,
    k: int,
    key: NodeKey,
    e: int,
) -> int
    decreases events.len() - k,
{
    if k >= events.len() {
        0
    } else {
        owed(claims_of(events[k].node), key, e) + owed_by_events(events, k + 1, key, e)
    }
}

/// Whether a claim was made on an edge that exists.
pub open spec fn is_placed<S: Scalar>(
    nodes: Map<NodeKey, NodeModel<S>>,
    claim: Claim<S>,
) -> bool {
    &&& nodes.contains_key(claim.key)
    &&& claim.reservation.edge < nodes[claim.key].edges.len()
    &&& nodes[claim.key].edges[claim.reservation.edge as int].mv == claim.reservation.mv
    &&& claim.reservation.visits > 0
}

/// Whether all claims are placed, and what is owed on every edge, with what others hold,
/// is under way there.
#[verifier::opaque]
pub open spec fn covered<S: Scalar>(
    nodes: Map<NodeKey, NodeModel<S>>,
    claims: Seq<Claim<S>>,
    others: spec_fn(NodeKey, int) -> int,
) -> bool {
    &&& forall|i: int| 0 <= i < claims.len() ==> is_placed(nodes, #[trigger] claims[i])
    &&& forall|key: NodeKey, e: int|
        nodes.contains_key(key) && 0 <= e < nodes[key].edges.len() ==> #[trigger] owed(
            claims,
            key,
            e,
        ) + others(key, e) <= nodes[key].edges[e].spec_in_flight()
}

/// Whether so many visits of an edge have been completed.
pub open spec fn has_gained<S: Scalar>(
    before: Seq<Edge<S>>,
    after: Seq<Edge<S>>,
    e: int,
    gained: int,
) -> bool {
    &&& after.len() == before.len()
    &&& after[e].started == before[e].started
    &&& after[e].completed.visits == before[e].completed.visits + gained
}

/// Whether exactly the visits of closed claims have been completed: on every edge as
/// many as are owed by all claims and no longer by the open ones.
#[verifier::opaque]
pub open spec fn advanced<S: Scalar>(
    nodes: Map<NodeKey, NodeModel<S>>,
    after: Map<NodeKey, NodeModel<S>>,
    all: Seq<Claim<S>>,
    claims: Seq<Claim<S>>,
) -> bool {
    &&& after.dom() == nodes.dom()
    &&& forall|key: NodeKey, e: int|
        nodes.contains_key(key) && 0 <= e < nodes[key].edges.len() ==> has_gained(
            nodes[key].edges,
            after[key].edges,
            e,
            owed(all, key, e) - #[trigger] owed(claims, key, e),
        )
}

/// Whether all nodes are consistent and all their visits can be counted.
pub open spec fn sound<S: Scalar>(nodes: Map<NodeKey, NodeModel<S>>) -> bool {
    forall|key: NodeKey| #[trigger]
        nodes.contains_key(key) ==> nodes[key].wf() && countable(nodes[key])
}

/// Whether two graphs have the same nodes with the same edges and evaluations.
pub open spec fn same_edges<S: Scalar>(
    a: Map<NodeKey, NodeModel<S>>,
    b: Map<NodeKey, NodeModel<S>>,
) -> bool {
    &&& a.dom() == b.dom()
    &&& forall|key: NodeKey| #[trigger]
        a.contains_key(key) ==> a[key].edges == b[key].edges && a[key].graph_value
            == b[key].graph_value
}

proof fn lemma_same_edges_covered<S: Scalar>(
    a: Map<NodeKey, NodeModel<S>>,
    b: Map<NodeKey, NodeModel<S>>,
    claims: Seq<Claim<S>>,
    others: spec_fn(NodeKey, int) -> int,
)
    requires
        same_edges(a, b),
        covered(a, claims, others),
    ensures
        covered(b, claims, others),
{
    reveal(covered);
    assert forall|key: NodeKey| b.contains_key(key) implies #[trigger] a.contains_key(key) by {
        assert(b.dom().contains(key));
    }
    assert forall|key: NodeKey| a.contains_key(key) implies #[trigger] b.contains_key(key) by {
        assert(a.dom().contains(key));
    }
    assert forall|i: int| 0 <= i < claims.len() implies is_placed(b, #[trigger] claims[i]) by {
        assert(is_placed(a, claims[i]));
    }
}

/// Closing a claim by completing or cancelling its visits keeps everything covered.
proof fn lemma_claim_closed<S: Scalar>(
    nodes: Map<NodeKey, NodeModel<S>>,
    after: Map<NodeKey, NodeModel<S>>,
    claims: Seq<Claim<S>>,
    i: int,
    edge: Edge<S>,
    others: spec_fn(NodeKey, int) -> int,
)
    requires
        0 <= i < claims.len(),
        claims[i].open,
        covered(nodes, claims, others),
        sound(nodes),
        forall|key: NodeKey, e: int| #[trigger] others(key, e) >= 0,
        ({
            let key = claims[i].key;
            let e = claims[i].reservation.edge as int;
            let old_edge = nodes[key].edges[e];
            &&& after == nodes.insert(
                key,
                NodeModel { edges: nodes[key].edges.update(e, edge), ..nodes[key] },
            )
            &&& edge.wf()
            &&& edge.mv == old_edge.mv
            &&& edge.started <= old_edge.started
            &&& edge.spec_in_flight() == old_edge.spec_in_flight() - claims[i].reservation.visits
        }),
    ensures
        covered(after, claims.update(i, Claim { open: false, ..claims[i] }), others),
        sound(after),
        after.dom() == nodes.dom(),
{
    reveal(covered);
    let key = claims[i].key;
    let e = claims[i].reservation.edge as int;
    let closed = claims.update(i, Claim { open: false, ..claims[i] });
    assert(is_placed(nodes, claims[i]));
    assert(after.dom() =~= nodes.dom());
    assert forall|j: int| 0 <= j < closed.len() implies is_placed(after, #[trigger] closed[j]) by {
        assert(is_placed(nodes, claims[j]));
    }
    assert forall|k: NodeKey, f: int|
        after.contains_key(k) && 0 <= f < after[k].edges.len() implies #[trigger] owed(
        closed,
        k,
        f,
    ) + others(k, f) <= after[k].edges[f].spec_in_flight() by {
        lemma_sum_update(
            claims,
            i,
            Claim { open: false, ..claims[i] },
            visits_on(k, f),
        );
        assert(owed(claims, k, f) + others(k, f) <= nodes[k].edges[f].spec_in_flight());
    }
    assert forall|k: NodeKey| #[trigger] after.contains_key(k) implies after[k].wf() && countable(
        after[k],
    ) by {
        assert(nodes.contains_key(k));
        assert(nodes[k].wf() && countable(nodes[k]));
        if k == key {
            let f = |edge: Edge<S>| edge.started as int;
            lemma_sum_update(nodes[k].edges, e, edge, f);
            assert forall|j: int| 0 <= j < after[k].edges.len() implies (
            #[trigger] after[k].edges[j]).wf() by {
                if j != e {
                    assert(nodes[k].edges[j].wf());
                }
            }
        }
    }
}

/// A claim that is covered fits the edge that it was made on.
proof fn lemma_claim_fits<S: Scalar>(
    nodes: Map<NodeKey, NodeModel<S>>,
    claims: Seq<Claim<S>>,
    i: int,
    others: spec_fn(NodeKey, int) -> int,
)
    requires
        0 <= i < claims.len(),
        claims[i].open,
        covered(nodes, claims, others),
        sound(nodes),
        forall|key: NodeKey, e: int| #[trigger] others(key, e) >= 0,
    ensures
        is_placed(nodes, claims[i]),
        claims[i].reservation.fits(
            nodes[claims[i].key].edges[claims[i].reservation.edge as int],
        ),
{
    reveal(covered);
    let key = claims[i].key;
    let e = claims[i].reservation.edge as int;
    assert(is_placed(nodes, claims[i]));
    assert(nodes[key].wf());
    assert(nodes[key].edges[e].wf());
    lemma_sum_bounds(claims, visits_on(key, e));
    assert(visits_on(key, e)(claims[i]) <= sum_by(claims, visits_on(key, e)));
    assert(owed(claims, key, e) + others(key, e) <= nodes[key].edges[e].spec_in_flight());
}

proof fn lemma_advanced_further<S: Scalar>(
    nodes: Map<NodeKey, NodeModel<S>>,
    before: Map<NodeKey, NodeModel<S>>,
    all: Seq<Claim<S>>,
    claims: Seq<Claim<S>>,
    i: int,
    leaf: Option<ValueDelta<S>>,
    others: spec_fn(NodeKey, int) -> int,
)
    requires
        advanced(nodes, before, all, claims),
        covered(before, claims, others),
        sound(before),
        0 <= i < claims.len(),
        claims[i].open,
        forall|key: NodeKey, e: int| #[trigger] others(key, e) >= 0,
    ensures
        advanced(
            nodes,
            edge_completed(before, claims[i].key, claims[i].reservation, leaf),
            all,
            claims.update(i, Claim { open: false, ..claims[i] }),
        ),
{
    reveal(advanced);
    lemma_claim_fits(before, claims, i, others);
    let after = edge_completed(before, claims[i].key, claims[i].reservation, leaf);
    let closed = claims.update(i, Claim { open: false, ..claims[i] });
    assert(after.dom() =~= before.dom());
    assert forall|key: NodeKey, e: int|
        nodes.contains_key(key) && 0 <= e < nodes[key].edges.len() implies has_gained(
        nodes[key].edges,
        after[key].edges,
        e,
        owed(all, key, e) - #[trigger] owed(closed, key, e),
    ) by {
        lemma_sum_update(
            claims,
            i,
            Claim { open: false, ..claims[i] },
            visits_on(key, e),
        );
        assert(has_gained(
            nodes[key].edges,
            before[key].edges,
            e,
            owed(all, key, e) - owed(claims, key, e),
        ));
    }
}

proof fn lemma_same_edges_advanced<S: Scalar>(
    nodes: Map<NodeKey, NodeModel<S>>,
    a: Map<NodeKey, NodeModel<S>>,
    b: Map<NodeKey, NodeModel<S>>,
    all: Seq<Claim<S>>,
    claims: Seq<Claim<S>>,
)
    requires
        advanced(nodes, a, all, claims),
        same_edges(a, b),
    ensures
        advanced(nodes, b, all, claims),
{
    reveal(advanced);
    assert forall|key: NodeKey, e: int|
        nodes.contains_key(key) && 0 <= e < nodes[key].edges.len() implies has_gained(
        nodes[key].edges,
        b[key].edges,
        e,
        owed(all, key, e) - #[trigger] owed(claims, key, e),
    ) by {
        assert(nodes.dom().contains(key));
        assert(a.contains_key(key));
        assert(has_gained(
            nodes[key].edges,
            a[key].edges,
            e,
            owed(all, key, e) - owed(claims, key, e),
        ));
    }
}

pub(crate) proof fn lemma_nodes_wf<S: Scalar>(repository: &NodeRepository<S>, key: NodeKey)
    requires
        repository.wf(),
        repository@.contains_key(key),
    ensures
        repository@[key].wf(),
{
    let slots = repository.slots@;
    let i = place_of(slots, key);
    assert(0 <= i < slots.len() && slots[i].key == key);
    assert(slots[i].node.wf());
}

proof fn lemma_refresh_keeps_edges<S: Scalar>(nodes: Map<NodeKey, NodeModel<S>>, key: NodeKey)
    ensures
        same_edges(nodes, recomputed_at(nodes, key)),
        same_edges(nodes, proven_at(nodes, key)),
{
    reveal(recomputed_at);
    reveal(proven_at);
    assert(recomputed_at(nodes, key).dom() =~= nodes.dom());
    assert(proven_at(nodes, key).dom() =~= nodes.dom());
}

proof fn lemma_same_edges_countable<S: Scalar>(
    a: Map<NodeKey, NodeModel<S>>,
    b: Map<NodeKey, NodeModel<S>>,
)
    requires
        same_edges(a, b),
        forall|key: NodeKey| #[trigger] a.contains_key(key) ==> countable(a[key]),
    ensures
        forall|key: NodeKey| #[trigger] b.contains_key(key) ==> countable(b[key]),
{
    assert forall|key: NodeKey| #[trigger] b.contains_key(key) implies countable(b[key]) by {
        assert(b.dom().contains(key));
        assert(a.contains_key(key));
    }
}

impl<S: Scalar> NodeRepository<S> {
    fn complete_edge(
        &mut self,
        key: NodeKey,
        reservation: EdgeReservation<S>,
        leaf: Option<ValueDelta<S>>,
    )
        requires
            old(self).wf(),
            old(self)@.contains_key(key),
            reservation.edge < old(self)@[key].edges.len(),
            reservation.fits(old(self)@[key].edges[reservation.edge as int]),
            leaf matches Some(value) ==> value.visits == reservation.visits,
        ensures
            final(self).wf(),
            final(self)@ == edge_completed(old(self)@, key, reservation, leaf),
            final(self).slots@.len() == old(self).slots@.len(),
    {
        let ghost nodes = self@;
        let node: &mut Node<S> = self.get_mut(key).unwrap();
        let edge: &mut Edge<S> = node.edge_mut(reservation.edge);
        match leaf {
            Some(value) => {
                reservation.complete_local_leaf(edge, value);
            },
            None => {
                reservation.complete(edge);
            },
        }
        proof {
            lemma_nodes_wf_after(nodes[key], node@, reservation.edge as int);
        }
    }

    fn cancel_edge(&mut self, key: NodeKey, reservation: EdgeReservation<S>)
        requires
            old(self).wf(),
            old(self)@.contains_key(key),
            reservation.edge < old(self)@[key].edges.len(),
            reservation.fits(old(self)@[key].edges[reservation.edge as int]),
        ensures
            final(self).wf(),
            final(self)@ == edge_cancelled(old(self)@, key, reservation),
            final(self).slots@.len() == old(self).slots@.len(),
    {
        let ghost nodes = self@;
        let node: &mut Node<S> = self.get_mut(key).unwrap();
        let edge: &mut Edge<S> = node.edge_mut(reservation.edge);
        reservation.cancel(edge);
        proof {
            lemma_nodes_wf_after(nodes[key], node@, reservation.edge as int);
        }
    }

    /// Brings the value of one node up to date and takes over its result, if it is known.
    fn refresh_one(&mut self, key: NodeKey)
        requires
            old(self).wf(),
            old(self)@.contains_key(key) ==> countable(old(self)@[key]),
        ensures
            final(self).wf(),
            final(self)@ == proven_at(recomputed_at(old(self)@, key), key),
            same_edges(old(self)@, final(self)@),
            final(self).slots@.len() == old(self).slots@.len(),
    {
        let ghost before = self@;
        self.recompute_graph_node(key);
        let _ = self.prove_terminal(key);
        proof {
            reveal(recomputed_at);
            reveal(proven_at);
            lemma_refresh_keeps_edges(before, key);
            lemma_refresh_keeps_edges(recomputed_at(before, key), key);
            lemma_same_edges_transitive(before, recomputed_at(before, key), self@);
        }
    }

    /// Brings the values of a path from number `from` on up to date, the last one first.
    fn refresh(&mut self, path: &Vec<NodeKey>, from: usize)
        requires
            old(self).wf(),
            forall|key: NodeKey| #[trigger]
                old(self)@.contains_key(key) ==> countable(old(self)@[key]),
        ensures
            final(self).wf(),
            final(self)@ == refreshed(old(self)@, path@, from as int),
            same_edges(old(self)@, final(self)@),
            final(self).slots@.len() == old(self).slots@.len(),
    {
        let ghost nodes = self@;
        let mut k: usize = path.len();
        if from >= k {
            return;
        }
        while k > from
            invariant
                from <= k <= path@.len(),
                self.wf(),
                nodes == old(self)@,
                self@ == refreshed(nodes, path@, k as int),
                same_edges(nodes, self@),
                self.slots@.len() == old(self).slots@.len(),
                forall|key: NodeKey| #[trigger] nodes.contains_key(key) ==> countable(nodes[key]),
            decreases k - from,
        {
            k = k - 1;
            let ghost before = self@;
            proof {
                lemma_same_edges_countable(nodes, before);
            }
            self.refresh_one(path[k]);
            proof {
                lemma_same_edges_transitive(nodes, before, self@);
            }
        }
    }
}

proof fn lemma_same_edges_transitive<S: Scalar>(
    a: Map<NodeKey, NodeModel<S>>,
    b: Map<NodeKey, NodeModel<S>>,
    c: Map<NodeKey, NodeModel<S>>,
)
    requires
        same_edges(a, b),
        same_edges(b, c),
    ensures
        same_edges(a, c),
{
    assert forall|key: NodeKey| #[trigger] a.contains_key(key) implies a[key].edges == c[key].edges
        && a[key].graph_value == c[key].graph_value by {
        assert(a.dom().contains(key));
        assert(b.contains_key(key));
    }
}

proof fn lemma_nodes_wf_after<S: Scalar>(before: NodeModel<S>, after: NodeModel<S>, e: int)
    requires
        before.wf(),
        0 <= e < before.edges.len(),
        after == (NodeModel { edges: before.edges.update(e, after.edges[e]), ..before }),
        after.edges[e].wf(),
    ensures
        after.wf(),
{
    assert forall|j: int| 0 <= j < after.edges.len() implies (#[trigger] after.edges[j]).wf() by {
        if j != e {
            assert(before.edges[j].wf());
        }
    }
}

impl<S: Scalar> BackpropEvent<S> {
    /// The claims once the edges from number `k` on are completed.
    spec fn claims_before(self, k: int) -> Seq<Claim<S>> {
        Seq::new(
            self.node.reservations@.len(),
            |i: int|
                Claim {
                    key: self.node.node_path@[i],
                    reservation: self.node.reservations@[i],
                    open: i < k || self.is_entry(i),
                },
        )
    }

    /// Whether one of the first `j` entries is move `i`.
    spec fn is_entry_before(self, j: int, i: int) -> bool {
        exists|l: int| 0 <= l < j && (#[trigger] self.node.tree_entries@[l]).0 == i
    }

    /// The claims once the entries from number `j` on are completed too.
    spec fn claims_of_entries(self, j: int) -> Seq<Claim<S>> {
        Seq::new(
            self.node.reservations@.len(),
            |i: int|
                Claim {
                    key: self.node.node_path@[i],
                    reservation: self.node.reservations@[i],
                    open: self.is_entry_before(j, i),
                },
        )
    }

    /// Completing entry number `j` closes the claim of its edge and no other.
    proof fn lemma_claims_of_entries(self, j: int)
        requires
            self.wf(),
            0 <= j < self.node.tree_entries@.len(),
        ensures
            self.claims_of_entries(j) == self.claims_of_entries(j + 1).update(
                self.node.tree_entries@[j].0 as int,
                Claim {
                    open: false,
                    ..self.claims_of_entries(j + 1)[self.node.tree_entries@[j].0 as int]
                },
            ),
    {
        let i = self.node.tree_entries@[j].0 as int;
        let claims = self.claims_of_entries(j + 1);
        assert(entry_fits(
            self.node.tree_entries@[j],
            self.node.node_path@,
            self.node.reservations@.len() as int,
        ));
        assert forall|m: int| m != i implies self.is_entry_before(j, m) == self.is_entry_before(
            j + 1,
            m,
        ) by {
            if self.is_entry_before(j + 1, m) {
                let l = choose|l: int|
                    0 <= l < j + 1 && (#[trigger] self.node.tree_entries@[l]).0 == m;
                assert(l != j);
            }
        }
        if self.is_entry_before(j, i) {
            let l = choose|l: int| 0 <= l < j && (#[trigger] self.node.tree_entries@[l]).0 == i;
            assert(self.node.tree_entries@[l].0 < self.node.tree_entries@[j].0);
        }
        assert(self.claims_of_entries(j) =~= claims.update(
            i,
            Claim { open: false, ..claims[i] },
        ));
    }

    fn has_entry(&self, i: usize) -> (r: bool)
        ensures
            r == self.is_entry(i as int),
    {
        let mut j: usize = 0;
        while j < self.node.tree_entries.len()
            invariant
                j <= self.node.tree_entries@.len(),
                forall|l: int| 0 <= l < j ==> (#[trigger] self.node.tree_entries@[l]).0 != i,
            decreases self.node.tree_entries@.len() - j,
        {
            if self.node.tree_entries[j].0 == i {
                assert(self.node.tree_entries@[j as int].0 == i);
                return true;
            }
            j += 1;
        }
        false
    }
}

/// Whether a graph can take an event, with what others hold.
pub open spec fn can_take<S: Scalar>(
    nodes: Map<NodeKey, NodeModel<S>>,
    event: NodeEvent<S>,
    others: spec_fn(NodeKey, int) -> int,
) -> bool {
    &&& covered(nodes, claims_of(event), others)
    &&& forall|i: int|
        0 <= i < event.node_path@.len() ==> nodes.contains_key(#[trigger] event.node_path@[i])
}

impl<S: Scalar> NodeRepository<S> {
    /// Completes the visits of one claim.
    fn close_claim(
        &mut self,
        key: NodeKey,
        reservation: EdgeReservation<S>,
        leaf: Option<ValueDelta<S>>,
        claims: Ghost<Seq<Claim<S>>>,
        i: Ghost<int>,
        others: Ghost<spec_fn(NodeKey, int) -> int>,
    )
        requires
            old(self).wf(),
            sound(old(self)@),
            covered(old(self)@, claims@, others@),
            0 <= i@ < claims@.len(),
            claims@[i@] == (Claim { key, reservation, open: true }),
            forall|key: NodeKey, e: int| #[trigger] (others@)(key, e) >= 0,
            leaf matches Some(value) ==> value.visits == reservation.visits,
        ensures
            final(self).wf(),
            final(self)@ == edge_completed(old(self)@, key, reservation, leaf),
            sound(final(self)@),
            final(self)@.dom() == old(self)@.dom(),
            covered(
                final(self)@,
                claims@.update(i@, Claim { key, reservation, open: false }),
                others@,
            ),
            final(self).slots@.len() == old(self).slots@.len(),
    {
        let ghost before = self@;
        proof {
            lemma_claim_fits(before, claims@, i@, others@);
        }
        self.complete_edge(key, reservation, leaf);
        proof {
            lemma_claim_closed(
                before,
                self@,
                claims@,
                i@,
                before[key].edges[reservation.edge as int].completed_with(
                    reservation.visits,
                    reservation.virtual_wl_sum,
                    leaf,
                ),
                others@,
            );
        }
    }

    /// Completes the edges of an event, but for those by which it left the shared graph.
    fn complete_edges(
        &mut self,
        event: &BackpropEvent<S>,
        others: Ghost<spec_fn(NodeKey, int) -> int>,
    )
        requires
            old(self).wf(),
            event.wf(),
            sound(old(self)@),
            can_take(old(self)@, event.node, others@),
            forall|key: NodeKey, e: int| #[trigger] (others@)(key, e) >= 0,
        ensures
            final(self).wf(),
            final(self)@ == event.edges_done(old(self)@, 0),
            sound(final(self)@),
            final(self)@.dom() == old(self)@.dom(),
            covered(final(self)@, event.claims_before(0), others@),
            advanced(
                old(self)@,
                final(self)@,
                claims_of(event.node),
                event.claims_before(0),
            ),
            final(self).slots@.len() == old(self).slots@.len(),
    {
        let ghost nodes = self@;
        let mut k: usize = event.node.reservations.len();
        assert(event.claims_before(k as int) =~= claims_of(event.node));
        assert(advanced(nodes, nodes, claims_of(event.node), claims_of(event.node))) by {
            reveal(advanced);
        }
        while k > 0
            invariant
                k <= event.node.reservations@.len(),
                self.wf(),
                event.wf(),
                nodes == old(self)@,
                self@ == event.edges_done(nodes, k as int),
                self@.dom() == nodes.dom(),
                sound(self@),
                covered(self@, event.claims_before(k as int), others@),
                advanced(nodes, self@, claims_of(event.node), event.claims_before(k as int)),
                forall|key: NodeKey, e: int| #[trigger] (others@)(key, e) >= 0,
                self.slots@.len() == old(self).slots@.len(),
            decreases k,
        {
            k = k - 1;
            let ghost claims = event.claims_before(k + 1);
            let ghost before = self@;
            if !event.has_entry(k) {
                let key: NodeKey = event.node.node_path[k];
                let reservation: EdgeReservation<S> = event.node.reservations[k];
                let leaf: Option<ValueDelta<S>> = if k == event.node.reservations.len() - 1 {
                    event.local_leaf
                } else {
                    None
                };
                assert(leaf == event.leaf_at(k as int));
                assert(claims[k as int].open);
                proof {
                    lemma_advanced_further(
                        nodes,
                        before,
                        claims_of(event.node),
                        claims,
                        k as int,
                        leaf,
                        others@,
                    );
                }
                self.close_claim(
                    key,
                    reservation,
                    leaf,
                    Ghost(claims),
                    Ghost(k as int),
                    others,
                );
                proof {
                    assert(event.claims_before(k as int) =~= claims.update(
                        k as int,
                        Claim { open: false, ..claims[k as int] },
                    ));
                }
            } else {
                assert(event.claims_before(k as int) =~= claims);
            }
        }
    }

    /// What the edge of entry number `j` learns: the value that belongs to the line alone, or
    /// the value of the tree behind it, brought up to date.
    fn entry_sample(
        &mut self,
        event: &BackpropEvent<S>,
        j: usize,
        start: Ghost<Map<NodeKey, NodeModel<S>>>,
        claims: Ghost<Seq<Claim<S>>>,
        others: Ghost<spec_fn(NodeKey, int) -> int>,
    ) -> (leaf: Option<ValueDelta<S>>)
        requires
            old(self).wf(),
            event.wf(),
            sound(old(self)@),
            j < event.node.tree_entries@.len(),
            covered(old(self)@, claims@, others@),
            advanced(start@, old(self)@, claims_of(event.node), claims@),
            forall|i: int|
                0 <= i < event.node.node_path@.len() ==> old(self)@.contains_key(
                    #[trigger] event.node.node_path@[i],
                ),
        ensures
            final(self).wf(),
            sound(final(self)@),
            final(self)@.dom() == old(self)@.dom(),
            covered(final(self)@, claims@, others@),
            advanced(start@, final(self)@, claims_of(event.node), claims@),
            final(self).slots@.len() == old(self).slots@.len(),
            event.leaf_at(event.node.tree_entries@[j as int].0 as int) is Some ==> final(self)@
                == old(self)@ && leaf == event.leaf_at(
                event.node.tree_entries@[j as int].0 as int,
            ),
            event.leaf_at(event.node.tree_entries@[j as int].0 as int) is None ==> final(self)@
                == refreshed(
                old(self)@,
                event.node.node_path@,
                event.node.tree_entries@[j as int].0 + 1,
            ) && leaf == Some(sample_of(final(self)@[event.node.tree_entries@[j as int].1])),
    {
        let ghost later = self@;
        let (i, root) = event.node.tree_entries[j];
        assert(entry_fits(
            event.node.tree_entries@[j as int],
            event.node.node_path@,
            event.node.reservations@.len() as int,
        ));
        let leaf: Option<ValueDelta<S>> = if i == event.node.reservations.len() - 1 {
            event.local_leaf
        } else {
            None
        };
        assert(leaf == event.leaf_at(i as int));
        if leaf.is_some() {
            return leaf;
        }
        self.refresh(&event.node.node_path, i + 1);
        proof {
            lemma_same_edges_covered(later, self@, claims@, others@);
            lemma_same_edges_advanced(start@, later, self@, claims_of(event.node), claims@);
            assert forall|key: NodeKey| #[trigger] self@.contains_key(key) implies self@[key].wf()
                && countable(self@[key]) by {
                assert(self@.dom().contains(key));
                assert(later.contains_key(key));
                lemma_nodes_wf(&*self, key);
            }
            assert(event.node.node_path@[i + 1] == root);
            assert(later.contains_key(event.node.node_path@[i + 1]));
            assert(later.dom().contains(root));
            assert(self@.dom().contains(root));
        }
        let (wl, draw, plies_left) = self.get(root).unwrap().value_snapshot();
        Some(
            ValueDelta {
                visits: 1,
                wl_sum: wl,
                wl_sq_sum: wl.times(wl),
                draw_sum: draw,
                m_sum: plies_left,
            },
        )
    }

    /// Completes the edges by which an event left the shared graph, the last one first.
    fn complete_entries(
        &mut self,
        event: &BackpropEvent<S>,
        start: Ghost<Map<NodeKey, NodeModel<S>>>,
        others: Ghost<spec_fn(NodeKey, int) -> int>,
    )
        requires
            old(self).wf(),
            event.wf(),
            sound(old(self)@),
            covered(old(self)@, event.claims_before(0), others@),
            advanced(start@, old(self)@, claims_of(event.node), event.claims_before(0)),
            forall|i: int|
                0 <= i < event.node.node_path@.len() ==> old(self)@.contains_key(
                    #[trigger] event.node.node_path@[i],
                ),
            forall|key: NodeKey, e: int| #[trigger] (others@)(key, e) >= 0,
        ensures
            final(self).wf(),
            final(self)@ == event.entries_done(old(self)@, 0),
            sound(final(self)@),
            final(self)@.dom() == old(self)@.dom(),
            covered(final(self)@, event.claims_of_entries(0), others@),
            advanced(start@, final(self)@, claims_of(event.node), event.claims_of_entries(0)),
            final(self).slots@.len() == old(self).slots@.len(),
    {
        let ghost nodes = self@;
        let mut j: usize = event.node.tree_entries.len();
        proof {
            assert forall|i: int| event.is_entry(i) == event.is_entry_before(j as int, i) by {}
            assert(event.claims_of_entries(j as int) =~= event.claims_before(0));
        }
        while j > 0
            invariant
                j <= event.node.tree_entries@.len(),
                self.wf(),
                event.wf(),
                nodes == old(self)@,
                self@ == event.entries_done(nodes, j as int),
                self@.dom() == nodes.dom(),
                sound(self@),
                covered(self@, event.claims_of_entries(j as int), others@),
                advanced(
                    start@,
                    self@,
                    claims_of(event.node),
                    event.claims_of_entries(j as int),
                ),
                forall|i: int|
                    0 <= i < event.node.node_path@.len() ==> nodes.contains_key(
                        #[trigger] event.node.node_path@[i],
                    ),
                forall|key: NodeKey, e: int| #[trigger] (others@)(key, e) >= 0,
                self.slots@.len() == old(self).slots@.len(),
            decreases j,
        {
            j = j - 1;
            let (i, root) = event.node.tree_entries[j];
            let ghost claims = event.claims_of_entries(j + 1);
            let ghost later = self@;
            proof {
                assert(event.node.tree_entries@[j as int].0 == i);
                assert(entry_fits(
                    event.node.tree_entries@[j as int],
                    event.node.node_path@,
                    event.node.reservations@.len() as int,
                ));
                assert(event.is_entry_before(j + 1, i as int));
                assert(claims[i as int].open);
            }
            let key: NodeKey = event.node.node_path[i];
            let reservation: EdgeReservation<S> = event.node.reservations[i];
            let leaf: Option<ValueDelta<S>> = self.entry_sample(
                event,
                j,
                start,
                Ghost(claims),
                others,
            );
            proof {
                lemma_advanced_further(
                    start@,
                    self@,
                    claims_of(event.node),
                    claims,
                    i as int,
                    leaf,
                    others@,
                );
            }
            self.close_claim(key, reservation, leaf, Ghost(claims), Ghost(i as int), others);
            proof {
                event.lemma_claims_of_entries(j as int);
            }
        }
    }

    /// Completes one event.
    fn complete_event(
        &mut self,
        event: &BackpropEvent<S>,
        others: Ghost<spec_fn(NodeKey, int) -> int>,
    )
        requires
            old(self).wf(),
            event.wf(),
            sound(old(self)@),
            can_take(old(self)@, event.node, others@),
            forall|key: NodeKey, e: int| #[trigger] (others@)(key, e) >= 0,
        ensures
            final(self).wf(),
            final(self)@ == event.applied(old(self)@),
            sound(final(self)@),
            final(self)@.dom() == old(self)@.dom(),
            covered(final(self)@, event.claims_of_entries(0), others@),
            advanced(
                old(self)@,
                final(self)@,
                claims_of(event.node),
                event.claims_of_entries(0),
            ),
            final(self).slots@.len() == old(self).slots@.len(),
    {
        let ghost nodes = self@;
        self.complete_edges(event, others);
        proof {
            assert forall|i: int| 0 <= i < event.node.node_path@.len() implies self@.contains_key(
                #[trigger] event.node.node_path@[i],
            ) by {
                assert(nodes.dom().contains(event.node.node_path@[i]));
                assert(self@.dom().contains(event.node.node_path@[i]));
            }
        }
        self.complete_entries(event, Ghost(nodes), others);
        let ghost done = self@;
        if event.node.node_path.len() > 0 {
            self.refresh(&event.node.node_path, 1);
            let ghost fresh = self@;
            let root: NodeKey = event.node.node_path[0];
            proof {
                lemma_same_edges_countable(done, fresh);
                lemma_refresh_keeps_edges(fresh, root);
            }
            self.recompute_graph_node(root);
            proof {
                reveal(recomputed_at);
                lemma_same_edges_transitive(done, fresh, self@);
                lemma_same_edges_covered(done, self@, event.claims_of_entries(0), others@);
                lemma_same_edges_advanced(
                    nodes,
                    done,
                    self@,
                    claims_of(event.node),
                    event.claims_of_entries(0),
                );
                lemma_same_edges_countable(done, self@);
                assert forall|key: NodeKey| #[trigger] self@.contains_key(key) implies self@[key].wf()
                    && countable(self@[key]) by {
                    lemma_nodes_wf(&*self, key);
                }
            }
        }
    }
}

/// The nodes once the first `k` events of a batch are completed.
pub open spec fn batch_applied<S: Scalar>(
    nodes: Map<NodeKey, NodeModel<S>>,
    events: Seq<BackpropEvent<S>>,
    k: int,
) -> Map<NodeKey, NodeModel<S>>
    decreases k,
{
    if k <= 0 {
        nodes
    } else {
        events[k - 1].applied(batch_applied(nodes, events, k - 1))
    }
}

/// The depth of an event's leaf; the root has depth one.
pub open spec fn depth_of<S: Scalar>(event: BackpropEvent<S>) -> int {
    event.count() + 1
}

/// The sum of the depths of the first `k` events.
pub open spec fn depth_sum<S: Scalar>(events: Seq<BackpropEvent<S>>, k: int) -> int
    decreases k,
{
    if k <= 0 {
        0
    } else {
        depth_sum(events, k - 1) + depth_of(events[k - 1])
    }
}

/// The largest depth of the first `k` events.
pub open spec fn depth_max<S: Scalar>(events: Seq<BackpropEvent<S>>, k: int) -> int
    decreases k,
{
    if k <= 0 {
        0
    } else if depth_of(events[k - 1]) > depth_max(events, k - 1) {
        depth_of(events[k - 1])
    } else {
        depth_max(events, k - 1)
    }
}

/// Whether a graph can take all events of a batch: their nodes are there, and all their
/// visits together are under way.
pub open spec fn can_take_all<S: Scalar>(
    nodes: Map<NodeKey, NodeModel<S>>,
    events: Seq<BackpropEvent<S>>,
    k: int,
) -> bool {
    &&& forall|j: int| k <= j < events.len() ==> (#[trigger] events[j]).wf()
    &&& forall|j: int, i: int|
        k <= j < events.len() && 0 <= i < events[j].node.node_path@.len() ==> nodes.contains_key(
            #[trigger] events[j].node.node_path@[i],
        )
    &&& forall|j: int, i: int|
        k <= j < events.len() && 0 <= i < events[j].node.reservations@.len() ==> is_placed(
            nodes,
            #[trigger] claims_of(events[j].node)[i],
        )
    &&& forall|key: NodeKey, e: int|
        nodes.contains_key(key) && 0 <= e < nodes[key].edges.len() ==> #[trigger] owed_by_events(
            events,
            k,
            key,
            e,
        ) <= nodes[key].edges[e].spec_in_flight()
}

proof fn lemma_owed_not_negative<S: Scalar>(
    events: Seq<BackpropEvent<S>>,
    k: int,
    key: NodeKey,
    e: int,
)
    ensures
        owed_by_events(events, k, key, e) >= 0,
    decreases events.len() - k,
{
    if k < events.len() {
        lemma_owed_not_negative(events, k + 1, key, e);
        lemma_sum_bounds(claims_of(events[k].node), visits_on(key, e));
    }
}

proof fn lemma_nothing_owed<S: Scalar>(claims: Seq<Claim<S>>, key: NodeKey, e: int)
    requires
        forall|i: int| 0 <= i < claims.len() ==> !(#[trigger] claims[i]).open,
    ensures
        owed(claims, key, e) == 0,
    decreases claims.len(),
{
    if claims.len() > 0 {
        let rest = claims.drop_last();
        assert forall|i: int| 0 <= i < rest.len() implies !(#[trigger] rest[i]).open by {
            assert(rest[i] == claims[i]);
        }
        lemma_nothing_owed(rest, key, e);
        assert(!claims[claims.len() - 1].open);
    }
}

/// Whether two graphs have the same nodes, with edges for the same moves.
spec fn same_moves<S: Scalar>(
    a: Map<NodeKey, NodeModel<S>>,
    b: Map<NodeKey, NodeModel<S>>,
) -> bool {
    &&& a.dom() == b.dom()
    &&& forall|key: NodeKey| #[trigger]
        a.contains_key(key) ==> offered_moves(a[key].edges) == offered_moves(b[key].edges)
}

spec fn offered_moves<S>(edges: Seq<Edge<S>>) -> Seq<crate::position::Move> {
    edges.map_values(|edge: Edge<S>| edge.mv)
}

/// Whether exactly the visits that the events from number `k` on hold have been
/// completed.
pub open spec fn visits_completed<S: Scalar>(
    before: Map<NodeKey, NodeModel<S>>,
    after: Map<NodeKey, NodeModel<S>>,
    events: Seq<BackpropEvent<S>>,
    k: int,
) -> bool {
    &&& after.dom() == before.dom()
    &&& forall|key: NodeKey, e: int|
        before.contains_key(key) && 0 <= e < before[key].edges.len() ==> has_gained(
            before[key].edges,
            after[key].edges,
            e,
            #[trigger] owed_by_events(events, k, key, e),
        )
}

impl<S: Scalar> BackpropEvent<S> {
    /// Completes a batch of events, one after the other. On every edge exactly the visits
    /// that the batch holds are completed.
    pub fn complete_batch(events: &Vec<Self>, repository: &mut NodeRepository<S>) -> (r:
        BackpropResult)
        requires
            old(repository).wf(),
            sound(old(repository)@),
            can_take_all(old(repository)@, events@, 0),
            events@.len() <= u32::MAX,
            depth_sum(events@, events@.len() as int) <= u64::MAX,
        ensures
            final(repository).wf(),
            final(repository)@ == batch_applied(
                old(repository)@,
                events@,
                events@.len() as int,
            ),
            sound(final(repository)@),
            final(repository).slots@.len() == old(repository).slots@.len(),
            visits_completed(old(repository)@, final(repository)@, events@, 0),
            r.completed_playouts == events@.len(),
            r.completed_depth == depth_sum(events@, events@.len() as int),
            r.max_depth == depth_max(events@, events@.len() as int),
    {
        let ghost nodes = repository@;
        let mut result: BackpropResult = BackpropResult::default();
        let mut k: usize = 0;
        while k < events.len()
            invariant
                k <= events@.len(),
                events@.len() <= u32::MAX,
                depth_sum(events@, events@.len() as int) <= u64::MAX,
                repository.wf(),
                nodes == old(repository)@,
                repository@ == batch_applied(nodes, events@, k as int),
                sound(repository@),
                can_take_all(repository@, events@, k as int),
                forall|key: NodeKey, e: int|
                    nodes.contains_key(key) && 0 <= e < nodes[key].edges.len() ==> has_gained(
                        nodes[key].edges,
                        repository@[key].edges,
                        e,
                        owed_by_events(events@, 0, key, e) - #[trigger] owed_by_events(
                            events@,
                            k as int,
                            key,
                            e,
                        ),
                    ),
                repository@.dom() == nodes.dom(),
                repository.slots@.len() == old(repository).slots@.len(),
                result.completed_playouts == k,
                result.completed_depth == depth_sum(events@, k as int),
                result.max_depth == depth_max(events@, k as int),
            decreases events@.len() - k,
        {
            let ghost before = repository@;
            let ghost others = |key: NodeKey, e: int| owed_by_events(events@, k + 1, key, e);
            let event: &BackpropEvent<S> = &events[k];
            proof {
                lemma_depths_grow(events@, k + 1);
                assert forall|key: NodeKey, e: int| #[trigger] others(key, e) >= 0 by {
                    lemma_owed_not_negative(events@, k + 1, key, e);
                }
                assert(covered(before, claims_of(event.node), others)) by {
                    reveal(covered);
                    assert forall|i: int| 0 <= i < claims_of(event.node).len() implies is_placed(
                        before,
                        #[trigger] claims_of(event.node)[i],
                    ) by {
                        assert(is_placed(before, claims_of(events@[k as int].node)[i]));
                    }
                    assert forall|key: NodeKey, e: int|
                        before.contains_key(key) && 0 <= e < before[key].edges.len() implies #[trigger] owed(
                        claims_of(event.node),
                        key,
                        e,
                    ) + others(key, e) <= before[key].edges[e].spec_in_flight() by {
                        assert(owed_by_events(events@, k as int, key, e)
                            <= before[key].edges[e].spec_in_flight());
                    }
                }
                assert forall|i: int| 0 <= i < event.node.node_path@.len() implies before.contains_key(
                    #[trigger] event.node.node_path@[i],
                ) by {
                    assert(before.contains_key(events@[k as int].node.node_path@[i]));
                }
                assert(can_take(before, event.node, others));
                assert(event.wf());
            }
            repository.complete_event(event, Ghost(others));
            let depth: u64 = event.node.reservations.len() as u64 + 1;
            result.completed_playouts = result.completed_playouts + 1;
            result.completed_depth = result.completed_depth + depth;
            if depth > result.max_depth {
                result.max_depth = depth;
            }
            proof {
                reveal(covered);
                let after = repository@;
                let closed = event.claims_of_entries(0);
                assert forall|key: NodeKey, e: int|
                    after.contains_key(key) && 0 <= e < after[key].edges.len() implies #[trigger] owed_by_events(
                    events@,
                    k + 1,
                    key,
                    e,
                ) <= after[key].edges[e].spec_in_flight() by {
                    assert(owed(closed, key, e) + others(key, e)
                        <= after[key].edges[e].spec_in_flight());
                    lemma_nothing_owed(closed, key, e);
                }
                lemma_applied_keeps_moves(*event, before);
                reveal(advanced);
                assert forall|key: NodeKey, e: int|
                    nodes.contains_key(key) && 0 <= e < nodes[key].edges.len() implies has_gained(
                    nodes[key].edges,
                    after[key].edges,
                    e,
                    owed_by_events(events@, 0, key, e) - #[trigger] owed_by_events(
                        events@,
                        k + 1,
                        key,
                        e,
                    ),
                ) by {
                    assert(nodes.dom().contains(key));
                    assert(before.contains_key(key));
                    assert(has_gained(
                        nodes[key].edges,
                        before[key].edges,
                        e,
                        owed_by_events(events@, 0, key, e) - owed_by_events(
                            events@,
                            k as int,
                            key,
                            e,
                        ),
                    ));
                    assert(has_gained(
                        before[key].edges,
                        after[key].edges,
                        e,
                        owed(claims_of(event.node), key, e) - owed(closed, key, e),
                    ));
                    lemma_nothing_owed(closed, key, e);
                    assert(owed(closed, key, e) == 0);
                }
                assert forall|j: int, i: int|
                    k + 1 <= j < events@.len() && 0 <= i
                        < events@[j].node.node_path@.len() implies after.contains_key(
                    #[trigger] events@[j].node.node_path@[i],
                ) by {
                    assert(before.dom().contains(events@[j].node.node_path@[i]));
                    assert(after.dom().contains(events@[j].node.node_path@[i]));
                }
                assert forall|j: int, i: int|
                    k + 1 <= j < events@.len() && 0 <= i
                        < events@[j].node.reservations@.len() implies is_placed(
                    after,
                    #[trigger] claims_of(events@[j].node)[i],
                ) by {
                    let claim = claims_of(events@[j].node)[i];
                    assert(is_placed(before, claim));
                    lemma_same_moves_placed(before, after, claim);
                }
            }
            k += 1;
        }
        proof {
            assert forall|key: NodeKey, e: int|
                nodes.contains_key(key) && 0 <= e < nodes[key].edges.len() implies has_gained(
                nodes[key].edges,
                repository@[key].edges,
                e,
                #[trigger] owed_by_events(events@, 0, key, e),
            ) by {
                assert(owed_by_events(events@, k as int, key, e) == 0);
            }
        }
        result
    }
}

proof fn lemma_depths_grow<S: Scalar>(events: Seq<BackpropEvent<S>>, k: int)
    requires
        0 <= k <= events.len(),
    ensures
        0 <= depth_sum(events, k) <= depth_sum(events, events.len() as int),
    decreases events.len() - k,
{
    if k < events.len() {
        lemma_depths_grow(events, k + 1);
    }
    lemma_depths_positive(events, k);
}

proof fn lemma_depths_positive<S: Scalar>(events: Seq<BackpropEvent<S>>, k: int)
    ensures
        depth_sum(events, k) >= 0,
    decreases k,
{
    if k > 0 {
        lemma_depths_positive(events, k - 1);
    }
}

proof fn lemma_same_moves_placed<S: Scalar>(
    a: Map<NodeKey, NodeModel<S>>,
    b: Map<NodeKey, NodeModel<S>>,
    claim: Claim<S>,
)
    requires
        same_moves(a, b),
        is_placed(a, claim),
    ensures
        is_placed(b, claim),
{
    assert(a.dom().contains(claim.key));
    assert(b.dom().contains(claim.key));
    let e = claim.reservation.edge as int;
    assert(offered_moves(a[claim.key].edges)[e] == a[claim.key].edges[e].mv);
    assert(offered_moves(b[claim.key].edges).len() == b[claim.key].edges.len());
    assert(offered_moves(b[claim.key].edges)[e] == b[claim.key].edges[e].mv);
}

proof fn lemma_same_moves_transitive<S: Scalar>(
    a: Map<NodeKey, NodeModel<S>>,
    b: Map<NodeKey, NodeModel<S>>,
    c: Map<NodeKey, NodeModel<S>>,
)
    requires
        same_moves(a, b),
        same_moves(b, c),
    ensures
        same_moves(a, c),
{
    assert forall|key: NodeKey| #[trigger] a.contains_key(key) implies offered_moves(a[key].edges)
        == offered_moves(c[key].edges) by {
        assert(a.dom().contains(key));
        assert(b.contains_key(key));
    }
}

proof fn lemma_completing_keeps_moves<S: Scalar>(
    nodes: Map<NodeKey, NodeModel<S>>,
    key: NodeKey,
    reservation: EdgeReservation<S>,
    leaf: Option<ValueDelta<S>>,
)
    requires
        nodes.contains_key(key),
        reservation.edge < nodes[key].edges.len(),
    ensures
        same_moves(nodes, edge_completed(nodes, key, reservation, leaf)),
        same_moves(nodes, edge_cancelled(nodes, key, reservation)),
{
    let done = edge_completed(nodes, key, reservation, leaf);
    let back = edge_cancelled(nodes, key, reservation);
    assert(done.dom() =~= nodes.dom());
    assert(back.dom() =~= nodes.dom());
    assert(offered_moves(done[key].edges) =~= offered_moves(nodes[key].edges));
    assert(offered_moves(back[key].edges) =~= offered_moves(nodes[key].edges));
}

proof fn lemma_refreshing_keeps_moves<S: Scalar>(
    nodes: Map<NodeKey, NodeModel<S>>,
    path: Seq<NodeKey>,
    k: int,
)
    ensures
        same_moves(nodes, refreshed(nodes, path, k)),
    decreases path.len() - k,
{
    if k < path.len() {
        lemma_refreshing_keeps_moves(nodes, path, k + 1);
        let later = refreshed(nodes, path, k + 1);
        lemma_refresh_keeps_edges(later, path[k]);
        lemma_refresh_keeps_edges(recomputed_at(later, path[k]), path[k]);
        assert(same_moves(later, recomputed_at(later, path[k])));
        lemma_same_moves_transitive(nodes, later, recomputed_at(later, path[k]));
        assert(same_moves(recomputed_at(later, path[k]), refreshed(nodes, path, k)));
        lemma_same_moves_transitive(
            nodes,
            recomputed_at(later, path[k]),
            refreshed(nodes, path, k),
        );
    }
}

/// An event changes no node's moves.
proof fn lemma_applied_keeps_moves<S: Scalar>(
    event: BackpropEvent<S>,
    nodes: Map<NodeKey, NodeModel<S>>,
)
    requires
        event.wf(),
        forall|i: int|
            0 <= i < event.node.reservations@.len() ==> is_placed(
                nodes,
                #[trigger] claims_of(event.node)[i],
            ),
    ensures
        same_moves(nodes, event.applied(nodes)),
{
    lemma_edges_keep_moves(event, nodes, 0);
    let edges = event.edges_done(nodes, 0);
    assert forall|i: int| 0 <= i < event.node.reservations@.len() implies is_placed(
        edges,
        #[trigger] claims_of(event.node)[i],
    ) by {
        lemma_same_moves_placed(nodes, edges, claims_of(event.node)[i]);
    }
    lemma_entries_keep_moves(event, edges, 0);
    let done = event.entries_done(edges, 0);
    lemma_same_moves_transitive(nodes, edges, done);
    let path = event.node.node_path@;
    if path.len() > 0 {
        lemma_refreshing_keeps_moves(done, path, 1);
        let fresh = refreshed(done, path, 1);
        lemma_same_moves_transitive(nodes, done, fresh);
        lemma_refresh_keeps_edges(fresh, path[0]);
        assert(same_moves(fresh, recomputed_at(fresh, path[0])));
        lemma_same_moves_transitive(nodes, fresh, recomputed_at(fresh, path[0]));
    }
}

proof fn lemma_edges_keep_moves<S: Scalar>(
    event: BackpropEvent<S>,
    nodes: Map<NodeKey, NodeModel<S>>,
    k: int,
)
    requires
        event.wf(),
        0 <= k,
        forall|i: int|
            0 <= i < event.node.reservations@.len() ==> is_placed(
                nodes,
                #[trigger] claims_of(event.node)[i],
            ),
    ensures
        same_moves(nodes, event.edges_done(nodes, k)),
    decreases event.count() - k,
{
    if k < event.count() {
        lemma_edges_keep_moves(event, nodes, k + 1);
        let later = event.edges_done(nodes, k + 1);
        let claim = claims_of(event.node)[k];
        assert(is_placed(nodes, claim));
        lemma_same_moves_placed(nodes, later, claim);
        lemma_completing_keeps_moves(
            later,
            event.node.node_path@[k],
            event.node.reservations@[k],
            event.leaf_at(k),
        );
        if !event.is_entry(k) {
            lemma_same_moves_transitive(nodes, later, event.edges_done(nodes, k));
        }
    }
}

proof fn lemma_entries_keep_moves<S: Scalar>(
    event: BackpropEvent<S>,
    nodes: Map<NodeKey, NodeModel<S>>,
    j: int,
)
    requires
        event.wf(),
        0 <= j,
        forall|i: int|
            0 <= i < event.node.reservations@.len() ==> is_placed(
                nodes,
                #[trigger] claims_of(event.node)[i],
            ),
    ensures
        same_moves(nodes, event.entries_done(nodes, j)),
    decreases event.node.tree_entries@.len() - j,
{
    if j < event.node.tree_entries@.len() {
        lemma_entries_keep_moves(event, nodes, j + 1);
        let later = event.entries_done(nodes, j + 1);
        let entry = event.node.tree_entries@[j];
        let i = entry.0 as int;
        assert(entry_fits(
            event.node.tree_entries@[j],
            event.node.node_path@,
            event.node.reservations@.len() as int,
        ));
        let claim = claims_of(event.node)[i];
        assert(is_placed(nodes, claim));
        lemma_refreshing_keeps_moves(later, event.node.node_path@, i + 1);
        let fresh = refreshed(later, event.node.node_path@, i + 1);
        lemma_same_moves_transitive(nodes, later, fresh);
        lemma_same_moves_placed(nodes, later, claim);
        lemma_same_moves_placed(nodes, fresh, claim);
        lemma_completing_keeps_moves(
            later,
            event.node.node_path@[i],
            event.node.reservations@[i],
            event.leaf_at(i),
        );
        lemma_completing_keeps_moves(
            fresh,
            event.node.node_path@[i],
            event.node.reservations@[i],
            Some(sample_of(fresh[entry.1])),
        );
        if event.leaf_at(i) is Some {
            lemma_same_moves_transitive(nodes, later, event.entries_done(nodes, j));
        } else {
            lemma_same_moves_transitive(nodes, fresh, event.entries_done(nodes, j));
        }
    }
}

/// The nodes once the visits of an event from number `k` on are given back, the last
/// ones first.
pub open spec fn given_back<S: Scalar>(
    nodes: Map<NodeKey, NodeModel<S>>,
    event: NodeEvent<S>,
    k: int,
) -> Map<NodeKey, NodeModel<S>>
    decreases event.reservations@.len() - k,
{
    if k >= event.reservations@.len() {
        nodes
    } else {
        edge_cancelled(
            given_back(nodes, event, k + 1),
            event.node_path@[k],
            event.reservations@[k],
        )
    }
}

/// Whether all visits of an event are under way.
pub open spec fn can_cancel<S: Scalar>(
    nodes: Map<NodeKey, NodeModel<S>>,
    event: NodeEvent<S>,
) -> bool {
    &&& forall|i: int|
        0 <= i < event.reservations@.len() ==> is_placed(nodes, #[trigger] claims_of(event)[i])
    &&& forall|key: NodeKey, e: int|
        nodes.contains_key(key) && 0 <= e < nodes[key].edges.len() ==> #[trigger] owed(
            claims_of(event),
            key,
            e,
        ) <= nodes[key].edges[e].spec_in_flight()
}

/// Whether so many visits of an edge have been given back.
pub open spec fn has_lost<S: Scalar>(
    before: Seq<Edge<S>>,
    after: Seq<Edge<S>>,
    e: int,
    lost: int,
) -> bool {
    &&& after.len() == before.len()
    &&& after[e].started == before[e].started - lost
    &&& after[e].completed.visits == before[e].completed.visits
}

/// Whether on every edge as many visits have been given back as are owed less than before.
#[verifier::opaque]
spec fn lost_between<S: Scalar>(
    nodes: Map<NodeKey, NodeModel<S>>,
    after: Map<NodeKey, NodeModel<S>>,
    all: Seq<Claim<S>>,
    left: Seq<Claim<S>>,
) -> bool {
    forall|key: NodeKey, e: int|
        nodes.contains_key(key) && 0 <= e < nodes[key].edges.len() ==> has_lost(
            nodes[key].edges,
            after[key].edges,
            e,
            owed(all, key, e) - #[trigger] owed(left, key, e),
        )
}

/// Giving the visits of one claim back closes it and touches no other edge.
proof fn lemma_claim_cancelled<S: Scalar>(
    nodes: Map<NodeKey, NodeModel<S>>,
    before: Map<NodeKey, NodeModel<S>>,
    all: Seq<Claim<S>>,
    claims: Seq<Claim<S>>,
    k: int,
    others: spec_fn(NodeKey, int) -> int,
)
    requires
        0 <= k < claims.len(),
        claims[k].open,
        covered(before, claims, others),
        sound(before),
        before.dom() == nodes.dom(),
        lost_between(nodes, before, all, claims),
        forall|key: NodeKey, e: int| #[trigger] others(key, e) >= 0,
    ensures
        ({
            let after = edge_cancelled(before, claims[k].key, claims[k].reservation);
            let closed = claims.update(k, Claim { open: false, ..claims[k] });
            &&& covered(after, closed, others)
            &&& sound(after)
            &&& after.dom() == before.dom()
            &&& lost_between(nodes, after, all, closed)
        }),
{
    let key = claims[k].key;
    let reservation = claims[k].reservation;
    let e = reservation.edge as int;
    let after = edge_cancelled(before, key, reservation);
    let gone = Claim { open: false, ..claims[k] };
    let closed = claims.update(k, gone);
    let edge = before[key].edges[e].cancelled(reservation.visits, reservation.virtual_wl_sum);
    lemma_claim_fits(before, claims, k, others);
    lemma_claim_closed(before, after, claims, k, edge, others);
    reveal(lost_between);
    assert forall|other: NodeKey, f: int|
        nodes.contains_key(other) && 0 <= f < nodes[other].edges.len() implies has_lost(
        nodes[other].edges,
        after[other].edges,
        f,
        owed(all, other, f) - #[trigger] owed(closed, other, f),
    ) by {
        lemma_sum_update(claims, k, gone, visits_on(other, f));
        assert(has_lost(
            nodes[other].edges,
            before[other].edges,
            f,
            owed(all, other, f) - owed(claims, other, f),
        ));
    }
}

/// The claims of an event of which those from number `k` on are closed.
spec fn claims_up_to<S: Scalar>(event: NodeEvent<S>, k: int) -> Seq<Claim<S>> {
    Seq::new(
        event.reservations@.len(),
        |i: int|
            Claim {
                key: event.node_path@[i],
                reservation: event.reservations@[i],
                open: i < k,
            },
    )
}

impl<S: Scalar> NodeEvent<S> {
    /// Gives all visits of the event back. On every edge as many are given back as the
    /// event holds there, and no more are completed.
    pub fn cancel(&self, repository: &mut NodeRepository<S>)
        requires
            old(repository).wf(),
            sound(old(repository)@),
            self.wf(),
            can_cancel(old(repository)@, *self),
        ensures
            final(repository).wf(),
            sound(final(repository)@),
            final(repository)@ == given_back(old(repository)@, *self, 0),
            final(repository)@.dom() == old(repository)@.dom(),
            final(repository).slots@.len() == old(repository).slots@.len(),
            forall|key: NodeKey, e: int|
                old(repository)@.contains_key(key) && 0 <= e < old(repository)@[key].edges.len() ==> has_lost(
                    old(repository)@[key].edges,
                    final(repository)@[key].edges,
                    e,
                    #[trigger] owed(claims_of(*self), key, e),
                ),
    {
        let ghost nodes = repository@;
        let ghost others = |key: NodeKey, e: int| 0int;
        let mut k: usize = self.reservations.len();
        proof {
            assert(claims_up_to(*self, k as int) =~= claims_of(*self));
            assert(covered(nodes, claims_of(*self), others)) by {
                reveal(covered);
                assert forall|i: int| 0 <= i < claims_of(*self).len() implies is_placed(
                    nodes,
                    #[trigger] claims_of(*self)[i],
                ) by {}
            }
            assert(lost_between(nodes, nodes, claims_of(*self), claims_of(*self))) by {
                reveal(lost_between);
            }
        }
        while k > 0
            invariant
                k <= self.reservations@.len(),
                self.wf(),
                nodes == old(repository)@,
                others == (|key: NodeKey, e: int| 0int),
                repository.wf(),
                sound(repository@),
                repository@ == given_back(nodes, *self, k as int),
                repository@.dom() == nodes.dom(),
                repository.slots@.len() == old(repository).slots@.len(),
                covered(repository@, claims_up_to(*self, k as int), others),
                lost_between(nodes, repository@, claims_of(*self), claims_up_to(*self, k as int)),
            decreases k,
        {
            k = k - 1;
            let ghost claims = claims_up_to(*self, k + 1);
            let ghost before = repository@;
            let key: NodeKey = self.node_path[k];
            let reservation: EdgeReservation<S> = self.reservations[k];
            proof {
                assert(claims[k as int].open);
                lemma_claim_fits(before, claims, k as int, others);
            }
            repository.cancel_edge(key, reservation);
            proof {
                lemma_claim_cancelled(
                    nodes,
                    before,
                    claims_of(*self),
                    claims,
                    k as int,
                    others,
                );
                assert(claims_up_to(*self, k as int) =~= claims.update(
                    k as int,
                    Claim { open: false, ..claims[k as int] },
                ));
            }
        }
        proof {
            assert forall|key: NodeKey, e: int|
                nodes.contains_key(key) && 0 <= e < nodes[key].edges.len() implies has_lost(
                nodes[key].edges,
                repository@[key].edges,
                e,
                #[trigger] owed(claims_of(*self), key, e),
            ) by {
                reveal(lost_between);
                lemma_nothing_owed(claims_up_to(*self, 0), key, e);
                assert(owed(claims_up_to(*self, 0), key, e) == 0);
            }
        }
    }
}

impl<S: Scalar> BackpropEvent<S> {
    /// Gives all visits of the event back.
    pub fn cancel(&self, repository: &mut NodeRepository<S>)
        requires
            old(repository).wf(),
            sound(old(repository)@),
            self.node.wf(),
            can_cancel(old(repository)@, self.node),
        ensures
            final(repository).wf(),
            sound(final(repository)@),
            final(repository)@ == given_back(old(repository)@, self.node, 0),
    {
        self.node.cancel(repository);
    }
}

} // verus!
