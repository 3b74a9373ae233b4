//! Recomputing the value of a node from its own evaluation and its edges.
use vstd::prelude::*;

use crate::exact::is_unrounded;
use crate::graph::edge::{Edge, EdgeStats};
use crate::graph::key::NodeKey;
use crate::graph::node::{ExpansionState, Node, NodeModel};
use crate::graph::proof_bounds::{
    bounds_from_replies, draw_of, left_by_replies, proven_draw, proven_plies, spec_proven_plies,
    Bounds, Reply,
};
use crate::graph::repository::NodeRepository;
use crate::graph::value::ValueDelta;
use crate::scalar::Scalar;
use crate::sums::{lemma_sum_bounds, sum_by};

verus! {

/// The visits begun on edges.
pub open spec fn started_visits<S: Scalar>(edges: Seq<Edge<S>>) -> int {
    sum_by(edges, |edge: Edge<S>| edge.started as int)
}

/// The visits of a node's own evaluation.
pub open spec fn own_visits<S: Scalar>(node: NodeModel<S>) -> int {
    match node.graph_value {
        Some(value) => value.visits as int,
        None => 0,
    }
}

/// Whether all visits of a node can be counted.
pub open spec fn countable<S: Scalar>(node: NodeModel<S>) -> bool {
    own_visits(node) + started_visits(node.edges) <= u32::MAX
}

/// Sums with the results of one edge added. Results of the line count as they are, all
/// other visits as the child's present mean; the other side sees the value, and each
/// game is one ply longer.
pub open spec fn with_edge<S: Scalar>(
    total: ValueDelta<S>,
    edge: Edge<S>,
    nodes: Map<NodeKey, NodeModel<S>>,
) -> ValueDelta<S> {
    let visits = edge.completed.visits;
    let local = edge.completed.local_leaf;
    if visits == 0 {
        total
    } else {
        let counted = ValueDelta {
            visits: (total.visits + visits) as u32,
            wl_sum: total.wl_sum.spec_minus(local.wl_sum),
            wl_sq_sum: total.wl_sq_sum.spec_plus(local.wl_sq_sum),
            draw_sum: total.draw_sum.spec_plus(local.draw_sum),
            m_sum: total.m_sum.spec_plus(local.m_sum.spec_plus(S::spec_count(local.visits))),
        };
        match edge.child_key {
            Some(child) => if visits > local.visits && nodes.contains_key(child) {
                let weight = S::spec_count((visits - local.visits) as u32);
                let (q, draw, m, q_sq) = nodes[child].spec_moments();
                ValueDelta {
                    visits: counted.visits,
                    wl_sum: counted.wl_sum.spec_minus(q.spec_times(weight)),
                    wl_sq_sum: counted.wl_sq_sum.spec_plus(q_sq.spec_times(weight)),
                    draw_sum: counted.draw_sum.spec_plus(draw.spec_times(weight)),
                    m_sum: counted.m_sum.spec_plus(
                        m.spec_plus(S::spec_one()).spec_times(weight),
                    ),
                }
            } else {
                counted
            },
            None => counted,
        }
    }
}

/// Sums with the results of the first `k` edges added.
pub open spec fn with_edges<S: Scalar>(
    base: ValueDelta<S>,
    edges: Seq<Edge<S>>,
    k: int,
    nodes: Map<NodeKey, NodeModel<S>>,
) -> ValueDelta<S>
    decreases k,
{
    if k <= 0 {
        base
    } else {
        with_edge(with_edges(base, edges, k - 1, nodes), edges[k - 1], nodes)
    }
}

/// A node with its sums recomputed. Nothing is known before it has been evaluated.
pub open spec fn recomputed<S: Scalar>(node: NodeModel<S>, nodes: Map<NodeKey, NodeModel<S>>) -> NodeModel<S> {
    match node.graph_value {
        Some(base) => NodeModel {
            stats: with_edges(base, node.edges, node.edges.len() as int, nodes),
            ..node
        },
        None => node,
    }
}

proof fn lemma_visits_countable<S: Scalar>(
    base: ValueDelta<S>,
    edges: Seq<Edge<S>>,
    k: int,
    nodes: Map<NodeKey, NodeModel<S>>,
)
    requires
        0 <= k <= edges.len(),
        forall|i: int| 0 <= i < edges.len() ==> (#[trigger] edges[i]).wf(),
        base.visits + started_visits(edges) <= u32::MAX,
    ensures
        with_edges(base, edges, k, nodes).visits <= base.visits + started_visits(edges.take(k)),
        started_visits(edges.take(k)) <= started_visits(edges),
    decreases k,
{
    lemma_prefix_started(edges, k);
    if k > 0 {
        lemma_visits_countable(base, edges, k - 1, nodes);
        assert(edges.take(k).drop_last() =~= edges.take(k - 1));
        assert(edges.take(k).last() == edges[k - 1]);
        assert(edges[k - 1].wf());
    }
}

pub(crate) proof fn lemma_prefix_started<S: Scalar>(edges: Seq<Edge<S>>, k: int)
    requires
        0 <= k <= edges.len(),
    ensures
        0 <= started_visits(edges.take(k)) <= started_visits(edges),
    decreases edges.len(),
{
    if k < edges.len() {
        lemma_prefix_started(edges.drop_last(), k);
        assert(edges.drop_last().take(k) =~= edges.take(k));
    } else {
        assert(edges.take(k) =~= edges);
        lemma_sum_bounds(edges, |edge: Edge<S>| edge.started as int);
    }
}

impl<S: Scalar> NodeRepository<S> {
    /// Recomputes the sums of a node from its own evaluation, the visits of its edges and
    /// the present means of its children. Nothing else changes, so that recomputing twice
    /// is recomputing once.
    pub fn recompute_graph_node(&mut self, key: NodeKey)
        requires
            old(self).wf(),
            old(self)@.contains_key(key) ==> countable(old(self)@[key]),
        ensures
            final(self).wf(),
            final(self).slots@.len() == old(self).slots@.len(),
            final(self)@ == (if old(self)@.contains_key(key) {
                old(self)@.insert(key, recomputed(old(self)@[key], old(self)@))
            } else {
                old(self)@
            }),
    {
        let ghost nodes = self@;
        let i: usize = match self.find(key) {
            Some(i) => i,
            None => {
                return;
            },
        };
        let ghost node = self.slots@[i as int].node@;
        assert(node.wf());
        let base: ValueDelta<S> = match self.slots[i].node.graph_value {
            Some(base) => base,
            None => {
                assert(nodes =~= nodes.insert(key, recomputed(nodes[key], nodes)));
                return;
            },
        };
        let mut total: ValueDelta<S> = base;
        let edge_count: usize = self.slots[i].node.edges.len();
        let mut e: usize = 0;
        while e < edge_count
            invariant
                self.wf(),
                *self == *old(self),
                nodes == self@,
                i < self.slots@.len(),
                node == self.slots@[i as int].node@,
                node.wf(),
                countable(node),
                node.graph_value == Some(base),
                edge_count == node.edges.len(),
                e <= edge_count,
                total == with_edges(base, node.edges, e as int, nodes),
            decreases edge_count - e,
        {
            let edge: Edge<S> = self.slots[i].node.edges[e];
            let stats: EdgeStats<S> = edge.stats();
            proof {
                assert(node.edges[e as int] == edge);
                assert(edge.wf());
                lemma_visits_countable(base, node.edges, e as int, nodes);
                lemma_prefix_started(node.edges, e + 1);
                assert(node.edges.take(e + 1).drop_last() =~= node.edges.take(e as int));
                assert(node.edges.take(e + 1).last() == edge);
            }
            let visits: u32 = stats.visits;
            if visits > 0 {
                let local: ValueDelta<S> = stats.local_leaf;
                total.visits = total.visits + visits;
                total.wl_sum = total.wl_sum.minus(local.wl_sum);
                total.wl_sq_sum = total.wl_sq_sum.plus(local.wl_sq_sum);
                total.draw_sum = total.draw_sum.plus(local.draw_sum);
                total.m_sum = total.m_sum.plus(local.m_sum.plus(S::count(local.visits)));
                if visits > local.visits {
                    match edge.child_key() {
                        Some(child) => {
                            match self.get(child) {
                                Some(node) => {
                                    let weight: S = S::count(visits - local.visits);
                                    let (q, draw, m, q_sq) = node.value_moments_snapshot();
                                    total.wl_sum = total.wl_sum.minus(q.times(weight));
                                    total.wl_sq_sum = total.wl_sq_sum.plus(q_sq.times(weight));
                                    total.draw_sum = total.draw_sum.plus(draw.times(weight));
                                    total.m_sum = total.m_sum.plus(
                                        m.plus(S::one()).times(weight),
                                    );
                                },
                                None => {},
                            }
                        },
                        None => {},
                    }
                }
            }
            e += 1;
        }
        let place: &mut Node<S> = self.get_mut(key).unwrap();
        place.stats = total;
        assert(place@ == recomputed(nodes[key], nodes));
    }
}

/// What is known of the position behind an edge: its result, or nothing.
pub open spec fn reply_of<S: Scalar>(edge: Edge<S>, nodes: Map<NodeKey, NodeModel<S>>) -> Reply<S> {
    let unknown = Reply { bounds: Bounds::spec_open(), plies_left: None };
    match edge.child_key {
        Some(child) => if nodes.contains_key(child) {
            match nodes[child].terminal {
                Some(result) => Reply {
                    bounds: Bounds::spec_exactly(result.0),
                    plies_left: Some(result.2),
                },
                None => unknown,
            }
        } else {
            unknown
        },
        None => unknown,
    }
}

/// What is known of the positions behind a node's edges.
pub open spec fn replies_of<S: Scalar>(node: NodeModel<S>, nodes: Map<NodeKey, NodeModel<S>>) -> Seq<
    Reply<S>,
> {
    node.edges.map_values(|edge: Edge<S>| reply_of(edge, nodes))
}

/// The result of a node: that of a finished game, or the one that the results of the
/// replies prove.
pub open spec fn proven_result<S: Scalar>(node: NodeModel<S>, nodes: Map<NodeKey, NodeModel<S>>) -> Option<
    (S, S, S),
> {
    let replies = replies_of(node, nodes);
    let bounds = left_by_replies(replies);
    if node.terminal is Some {
        node.terminal
    } else if node.expansion == ExpansionState::Expanded && replies.len() > 0
        && bounds.spec_is_exact() {
        Some((bounds.lower, draw_of(bounds.lower), spec_proven_plies(replies, bounds.lower)))
    } else {
        None
    }
}

/// A node whose result is known: all its visits count as that result.
pub open spec fn settled_by<S: Scalar>(node: NodeModel<S>, result: (S, S, S)) -> NodeModel<S> {
    NodeModel {
        expansion: ExpansionState::Terminal,
        terminal: Some(result),
        bounds: Bounds::spec_exactly(result.0),
        stats: ValueDelta::spec_with_plies_left(result.0, result.1, result.2).spec_repeated(
            node.stats.visits,
        ),
        ..node
    }
}

impl<S: Scalar> NodeRepository<S> {
    fn replies(&self, i: usize) -> (r: Vec<Reply<S>>)
        requires
            self.wf(),
            i < self.slots@.len(),
        ensures
            r@ == replies_of(self.slots@[i as int].node@, self@),
    {
        let mut replies: Vec<Reply<S>> = Vec::new();
        let edge_count: usize = self.slots[i].node.edges.len();
        let ghost node = self.slots@[i as int].node@;
        let mut e: usize = 0;
        while e < edge_count
            invariant
                self.wf(),
                i < self.slots@.len(),
                node == self.slots@[i as int].node@,
                edge_count == node.edges.len(),
                e <= edge_count,
                replies@.len() == e,
                forall|j: int|
                    0 <= j < e ==> #[trigger] replies@[j] == reply_of(node.edges[j], self@),
            decreases edge_count - e,
        {
            let mut reply: Reply<S> = Reply { bounds: Bounds::default(), plies_left: None };
            match self.slots[i].node.edges[e].child_key() {
                Some(child) => {
                    match self.get(child) {
                        Some(child_node) => {
                            match child_node.terminal_value() {
                                Some((wl, _, plies_left)) => {
                                    reply = Reply {
                                        bounds: Bounds::exactly(wl),
                                        plies_left: Some(plies_left),
                                    };
                                },
                                None => {},
                            }
                        },
                        None => {},
                    }
                },
                None => {},
            }
            replies.push(reply);
            e += 1;
        }
        assert(replies@ =~= replies_of(node, self@));
        replies
    }

    /// Takes over the result of a node that is finished or that its replies prove: the
    /// node becomes terminal, and its visits count as the result. Says whether there is
    /// one.
    pub fn prove_terminal(&mut self, key: NodeKey) -> (r: bool)
        requires
            old(self).wf(),
        ensures
            final(self).wf(),
            final(self).slots@.len() == old(self).slots@.len(),
            r == (old(self)@.contains_key(key) && proven_result(old(self)@[key], old(self)@) is Some),
            final(self)@ == (if r {
                old(self)@.insert(
                    key,
                    settled_by(
                        old(self)@[key],
                        proven_result(old(self)@[key], old(self)@)->Some_0,
                    ),
                )
            } else {
                old(self)@
            }),
    {
        let ghost nodes = self@;
        let i: usize = match self.find(key) {
            Some(i) => i,
            None => {
                return false;
            },
        };
        let ghost node = self.slots@[i as int].node@;
        let mut result: Option<(S, S, S)> = self.slots[i].node.terminal_value();
        if result.is_none() {
            if self.slots[i].node.expansion_state() != ExpansionState::Expanded {
                return false;
            }
            let replies: Vec<Reply<S>> = self.replies(i);
            let bounds: Bounds<S> = bounds_from_replies(&replies);
            if replies.is_empty() || !bounds.is_exact() {
                return false;
            }
            result = Some(
                (
                    bounds.lower,
                    proven_draw(bounds.lower),
                    proven_plies(&replies, bounds.lower),
                ),
            );
        }
        assert(result == proven_result(node, nodes));
        let (wl, draw, plies_left) = result.unwrap();
        let place: &mut Node<S> = self.get_mut(key).unwrap();
        let visits: u32 = place.stats.visits;
        let times: S = S::count(visits);
        place.stats = ValueDelta {
            visits,
            wl_sum: wl.times(times),
            wl_sq_sum: wl.times(wl).times(times),
            draw_sum: draw.times(times),
            m_sum: plies_left.times(times),
        };
        place.terminal = Some((wl, draw, plies_left));
        place.bounds = Bounds::exactly(wl);
        place.expansion = ExpansionState::Terminal;
        assert(place@ == settled_by(nodes[key], (wl, draw, plies_left)));
        true
    }
}

/// Recomputing twice is recomputing once, where no edge leads back to the node.
pub proof fn law_recomputing_is_idempotent<S: Scalar>(
    nodes: Map<NodeKey, NodeModel<S>>,
    key: NodeKey,
)
    requires
        nodes.contains_key(key),
        forall|e: int|
            0 <= e < nodes[key].edges.len() ==> (#[trigger] nodes[key].edges[e]).child_key != Some(
                key,
            ),
    ensures
        ({
            let once = recomputed(nodes[key], nodes);
            recomputed(once, nodes.insert(key, once)) == once
        }),
{
    let once = recomputed(nodes[key], nodes);
    if let Some(base) = nodes[key].graph_value {
        lemma_others_decide(
            base,
            nodes[key].edges,
            nodes[key].edges.len() as int,
            nodes,
            key,
            once,
        );
    }
}

proof fn lemma_others_decide<S: Scalar>(
    base: ValueDelta<S>,
    edges: Seq<Edge<S>>,
    k: int,
    nodes: Map<NodeKey, NodeModel<S>>,
    key: NodeKey,
    node: NodeModel<S>,
)
    requires
        0 <= k <= edges.len(),
        nodes.contains_key(key),
        forall|e: int| 0 <= e < edges.len() ==> (#[trigger] edges[e]).child_key != Some(key),
    ensures
        with_edges(base, edges, k, nodes.insert(key, node)) == with_edges(base, edges, k, nodes),
    decreases k,
{
    if k > 0 {
        lemma_others_decide(base, edges, k - 1, nodes, key, node);
        assert(edges[k - 1].child_key != Some(key));
    }
}

/// A recomputed node changes no count of its edges, and no other node.
pub proof fn law_recomputing_is_local<S: Scalar>(
    nodes: Map<NodeKey, NodeModel<S>>,
    key: NodeKey,
    other: NodeKey,
)
    requires
        nodes.contains_key(key),
        nodes.contains_key(other),
    ensures
        ({
            let after = nodes.insert(key, recomputed(nodes[key], nodes));
            &&& after[other].edges == nodes[other].edges
            &&& other != key ==> after[other] == nodes[other]
            &&& after[key].graph_value == nodes[key].graph_value
        }),
{
}

/// What the first `k` edges are worth to the side that plays them, added up as real numbers:
/// the results of lines that ended behind each edge, and the child's present mean for each
/// other visit.
pub open spec fn worth_of_edges<S: Scalar>(
    value: spec_fn(S) -> real,
    nodes: Map<NodeKey, NodeModel<S>>,
    edges: Seq<Edge<S>>,
    k: int,
) -> real
    decreases k,
{
    if k <= 0 {
        0real
    } else {
        let stats = edges[k - 1].completed;
        worth_of_edges(value, nodes, edges, k - 1) + (if stats.visits == 0 {
            0real
        } else {
            value(stats.local_leaf.wl_sum) + (if stats.visits > stats.local_leaf.visits && (
            edges[k - 1].child_key matches Some(child) && nodes.contains_key(child)) {
                value(nodes[edges[k - 1].child_key->Some_0].spec_q()) * ((stats.visits
                    - stats.local_leaf.visits) as real)
            } else {
                0real
            })
        })
    }
}

/// The visits completed on the first `k` edges.
pub open spec fn completed_on_edges<S: Scalar>(edges: Seq<Edge<S>>, k: int) -> int
    decreases k,
{
    if k <= 0 {
        0
    } else {
        completed_on_edges(edges, k - 1) + edges[k - 1].completed.visits
    }
}

proof fn lemma_worth_of_edges<S: Scalar>(
    value: spec_fn(S) -> real,
    nodes: Map<NodeKey, NodeModel<S>>,
    base: ValueDelta<S>,
    edges: Seq<Edge<S>>,
    k: int,
)
    requires
        is_unrounded(value),
        0 <= k <= edges.len(),
        forall|i: int| 0 <= i < edges.len() ==> (#[trigger] edges[i]).wf(),
        base.visits + started_visits(edges) <= u32::MAX,
    ensures
        value(with_edges(base, edges, k, nodes).wl_sum) == value(base.wl_sum) - worth_of_edges(
            value,
            nodes,
            edges,
            k,
        ),
        with_edges(base, edges, k, nodes).visits == base.visits + completed_on_edges(edges, k),
        completed_on_edges(edges, k) <= started_visits(edges.take(k)),
    decreases k,
{
    lemma_prefix_started(edges, k);
    if k > 0 {
        lemma_worth_of_edges(value, nodes, base, edges, k - 1);
        lemma_prefix_started(edges, k - 1);
        assert(edges.take(k).drop_last() =~= edges.take(k - 1));
        assert(edges.take(k).last() == edges[k - 1]);
        assert(edges[k - 1].wf());
    }
}

/// Where nothing is rounded, a recomputed node holds its own evaluation, less what its edges
/// are worth to the side that plays them: what is good for the one is bad for the other. It
/// has the visits of the evaluation and those completed on its edges. No other node changes.
pub proof fn law_recomputed_value_is_set_against_the_replies<S: Scalar>(
    value: spec_fn(S) -> real,
    repository: &mut NodeRepository<S>,
    key: NodeKey,
    other: NodeKey,
)
    requires
        is_unrounded(value),
        old(repository).wf(),
        old(repository)@.contains_key(key),
        old(repository)@[key].wf(),
        countable(old(repository)@[key]),
        old(repository)@[key].graph_value is Some,
        call_ensures(NodeRepository::<S>::recompute_graph_node, (repository, key), ()),
    ensures
        ({
            let nodes = old(repository)@;
            let node = nodes[key];
            let after = final(repository)@[key];
            let n = node.edges.len() as int;
            &&& value(after.stats.wl_sum) == value(node.graph_value->Some_0.wl_sum)
                - worth_of_edges(value, nodes, node.edges, n)
            &&& after.stats.visits == node.graph_value->Some_0.visits + completed_on_edges(
                node.edges,
                n,
            )
            &&& after.edges == node.edges
            &&& other != key && nodes.contains_key(other) ==> final(repository)@[other]
                == nodes[other]
        }),
{
    let nodes = old(repository)@;
    let node = nodes[key];
    lemma_worth_of_edges(
        value,
        nodes,
        node.graph_value->Some_0,
        node.edges,
        node.edges.len() as int,
    );
}

} // verus!
