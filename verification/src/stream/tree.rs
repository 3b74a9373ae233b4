//! The tree: nodes, their edges and the visits reserved on them.
use vstd::prelude::*;

use crate::position::Move;
use crate::scalar::{larger, max_of, Scalar};
use crate::sorting::{ranked_by, sort_by, Comparison};
use crate::stream::value::ValueDelta;

verus! {

/// The place of a node in its arena.
pub type NodeId = usize;

/// How far a node has been expanded.
#[derive(Clone, Copy, Debug, PartialEq, Eq, Structural)]
pub enum ExpansionState {
    Unexpanded,
    /// One task has claimed the node and will publish its edges or its result.
    Claimed,
    Expanded,
    Terminal,
}

/// What the completed visits of an edge brought, seen by the side that moves along it.
#[derive(Clone, Copy, Debug)]
pub struct EdgeStats<S> {
    pub visits: u32,
    pub wl_sum: S,
    pub wl_sq_sum: S,
    /// The sum of the values assumed for visits under way.
    pub virtual_wl_sum: S,
}

impl<S: Scalar> EdgeStats<S> {
    pub open spec fn spec_empty() -> Self {
        EdgeStats {
            visits: 0,
            wl_sum: S::spec_zero(),
            wl_sq_sum: S::spec_zero(),
            virtual_wl_sum: S::spec_zero(),
        }
    }

    pub open spec fn spec_q(self) -> S {
        if self.visits == 0 {
            S::spec_zero()
        } else {
            self.wl_sum.spec_over(S::spec_count(self.visits))
        }
    }

    /// The spread of the results, never negative; none is known from fewer than two.
    pub open spec fn spec_variance(self) -> S {
        if self.visits < 2 {
            S::spec_zero()
        } else {
            larger(
                self.wl_sq_sum.spec_over(S::spec_count(self.visits)).spec_minus(
                    self.spec_q().spec_times(self.spec_q()),
                ),
                S::spec_zero(),
            )
        }
    }

    pub open spec fn spec_standard_error(self) -> S {
        if self.visits < 2 {
            S::spec_zero()
        } else {
            self.spec_variance().spec_over(S::spec_count(self.visits)).spec_root()
        }
    }

    /// The mean value, 0 without visits.
    pub fn q(&self) -> (r: S)
        ensures
            r == self.spec_q(),
    {
        if self.visits == 0 {
            S::zero()
        } else {
            self.wl_sum.over(S::count(self.visits))
        }
    }

    /// The spread of the results.
    pub fn variance(&self) -> (r: S)
        ensures
            r == self.spec_variance(),
    {
        if self.visits < 2 {
            S::zero()
        } else {
            let q: S = self.q();
            max_of(self.wl_sq_sum.over(S::count(self.visits)).minus(q.times(q)), S::zero())
        }
    }

    /// How far the mean may be off.
    pub fn standard_error(&self) -> (r: S)
        ensures
            r == self.spec_standard_error(),
    {
        if self.visits < 2 {
            S::zero()
        } else {
            self.variance().over(S::count(self.visits)).root()
        }
    }
}

/// A legal move of a node.
#[derive(Clone, Copy, Debug)]
pub struct Edge<S> {
    pub mv: Move,
    pub prior: S,
    pub child: Option<NodeId>,
    /// Visits begun, completed or not.
    pub started: u32,
    pub stats: EdgeStats<S>,
}

impl<S: Scalar> Edge<S> {
    /// No more visits are completed than were begun.
    pub open spec fn wf(self) -> bool {
        self.stats.visits <= self.started
    }

    pub open spec fn spec_new(mv: Move, prior: S) -> Self {
        Edge { mv, prior, child: None, started: 0, stats: EdgeStats::spec_empty() }
    }

    /// An edge that has not been visited.
    pub fn new(mv: Move, prior: S) -> (r: Self)
        ensures
            r == Self::spec_new(mv, prior),
            r.wf(),
    {
        Edge {
            mv,
            prior,
            child: None,
            started: 0,
            stats: EdgeStats {
                visits: 0,
                wl_sum: S::zero(),
                wl_sq_sum: S::zero(),
                virtual_wl_sum: S::zero(),
            },
        }
    }

    pub fn mv(&self) -> (r: Move)
        ensures
            r == self.mv,
    {
        self.mv
    }

    pub fn prior(&self) -> (r: S)
        ensures
            r == self.prior,
    {
        self.prior
    }

    pub fn child(&self) -> (r: Option<NodeId>)
        ensures
            r == self.child,
    {
        self.child
    }

    /// Visits begun, completed or not.
    pub fn visits(&self) -> (r: u32)
        ensures
            r == self.started,
    {
        self.started
    }

    pub fn completed_visits(&self) -> (r: u32)
        ensures
            r == self.stats.visits,
    {
        self.stats.visits
    }

    pub fn stats(&self) -> (r: EdgeStats<S>)
        ensures
            r == self.stats,
    {
        self.stats
    }

    /// The completed visits and the number begun.
    pub fn selection_snapshot(&self) -> (r: (EdgeStats<S>, u32))
        ensures
            r == (self.stats, self.started),
    {
        (self.stats, self.started)
    }

    /// The mean value, 0 without visits.
    pub fn q(&self) -> (r: S)
        ensures
            r == self.stats.spec_q(),
    {
        self.stats.q()
    }

    pub open spec fn spec_in_flight(self) -> int {
        if self.started > self.stats.visits {
            self.started - self.stats.visits
        } else {
            0
        }
    }

    /// Visits begun and not yet completed.
    pub fn in_flight_visits(&self) -> (r: u32)
        ensures
            r == self.spec_in_flight(),
    {
        if self.started > self.stats.visits {
            self.started - self.stats.visits
        } else {
            0
        }
    }

    /// The edge with one visit reserved.
    pub open spec fn reserved(self, virtual_mean: S) -> Self {
        Edge {
            started: (self.started + 1) as u32,
            stats: EdgeStats {
                virtual_wl_sum: self.stats.virtual_wl_sum.spec_plus(virtual_mean),
                ..self.stats
            },
            ..self
        }
    }

    /// The edge with a reserved visit given back. Where none is left under way, no value
    /// is assumed any more.
    pub open spec fn cancelled(self, virtual_mean: S) -> Self {
        let started = (self.started - 1) as u32;
        Edge {
            started,
            stats: EdgeStats {
                virtual_wl_sum: if started == self.stats.visits {
                    S::spec_zero()
                } else {
                    self.stats.virtual_wl_sum.spec_minus(virtual_mean)
                },
                ..self.stats
            },
            ..self
        }
    }

    /// The edge with a reserved visit completed by a value.
    pub open spec fn completed_with(self, virtual_mean: S, wl: S) -> Self {
        let visits = (self.stats.visits + 1) as u32;
        Edge {
            stats: EdgeStats {
                visits,
                wl_sum: self.stats.wl_sum.spec_plus(wl),
                wl_sq_sum: self.stats.wl_sq_sum.spec_plus(wl.spec_times(wl)),
                virtual_wl_sum: if self.started == visits {
                    S::spec_zero()
                } else {
                    self.stats.virtual_wl_sum.spec_minus(virtual_mean)
                },
            },
            ..self
        }
    }

    fn cancel(&mut self, virtual_mean: S)
        requires
            old(self).spec_in_flight() > 0,
        ensures
            *final(self) == old(self).cancelled(virtual_mean),
            old(self).wf() ==> final(self).wf(),
    {
        self.stats.virtual_wl_sum = self.stats.virtual_wl_sum.minus(virtual_mean);
        self.started = self.started - 1;
        if self.started == self.stats.visits {
            self.stats.virtual_wl_sum = S::zero();
        }
    }

    fn complete(&mut self, virtual_mean: S, wl: S)
        requires
            old(self).spec_in_flight() > 0,
        ensures
            *final(self) == old(self).completed_with(virtual_mean, wl),
            old(self).wf() ==> final(self).wf(),
    {
        self.stats.virtual_wl_sum = self.stats.virtual_wl_sum.minus(virtual_mean);
        self.stats.visits = self.stats.visits + 1;
        if self.started == self.stats.visits {
            self.stats.virtual_wl_sum = S::zero();
        }
        self.stats.wl_sum = self.stats.wl_sum.plus(wl);
        self.stats.wl_sq_sum = self.stats.wl_sq_sum.plus(wl.times(wl));
    }
}

/// A visit that was begun on an edge. It is either completed or cancelled.
#[derive(Clone, Copy, Debug)]
pub struct EdgeReservation<S> {
    /// The number of the edge in its node.
    pub edge: usize,
    pub mv: Move,
    /// The value assumed for the visit.
    pub virtual_mean: S,
}

impl<S: Scalar> EdgeReservation<S> {
    pub fn mv(&self) -> (r: Move)
        ensures
            r == self.mv,
    {
        self.mv
    }

    /// Completes the visit with a value.
    pub fn complete(self, node: &mut Node<S>, wl: S)
        requires
            self.edge < old(node).edges@.len(),
            old(node).edges@[self.edge as int].spec_in_flight() > 0,
        ensures
            final(node)@ == old(node)@.with_edge(
                self.edge as int,
                old(node).edges@[self.edge as int].completed_with(self.virtual_mean, wl),
            ),
            old(node).wf() ==> final(node).wf(),
    {
        node.edges[self.edge].complete(self.virtual_mean, wl);
    }

    /// Gives the visit back.
    pub fn cancel(self, node: &mut Node<S>)
        requires
            self.edge < old(node).edges@.len(),
            old(node).edges@[self.edge as int].spec_in_flight() > 0,
        ensures
            final(node)@ == old(node)@.with_edge(
                self.edge as int,
                old(node).edges@[self.edge as int].cancelled(self.virtual_mean),
            ),
            old(node).wf() ==> final(node).wf(),
    {
        node.edges[self.edge].cancel(self.virtual_mean);
    }
}

/// A position of the tree. Values are seen by the side that moved into it.
#[derive(Debug)]
pub struct Node<S> {
    pub state: ExpansionState,
    pub edges: Vec<Edge<S>>,
    /// The sums of the completed visits.
    pub stats: ValueDelta<S>,
    /// The value, draw share and plies to the end, once the result is known.
    pub terminal: Option<(S, S, S)>,
}

/// A node as a value.
pub ghost struct NodeModel<S> {
    pub state: ExpansionState,
    pub edges: Seq<Edge<S>>,
    pub stats: ValueDelta<S>,
    pub terminal: Option<(S, S, S)>,
}

impl<S: Scalar> NodeModel<S> {
    /// The edges are consistent, and exactly a terminal node has a result.
    pub open spec fn wf(self) -> bool {
        &&& forall|i: int| 0 <= i < self.edges.len() ==> (#[trigger] self.edges[i]).wf()
        &&& (self.terminal is Some <==> self.state == ExpansionState::Terminal)
        &&& (self.state == ExpansionState::Unexpanded || self.state == ExpansionState::Claimed
            ==> self.edges.len() == 0)
    }

    pub open spec fn spec_fresh() -> Self {
        NodeModel {
            state: ExpansionState::Unexpanded,
            edges: Seq::empty(),
            stats: ValueDelta::spec_empty(),
            terminal: None,
        }
    }

    /// The node with another edge in a place.
    pub open spec fn with_edge(self, i: int, edge: Edge<S>) -> Self {
        NodeModel { edges: self.edges.update(i, edge), ..self }
    }

    /// The mean of a sum over the visits, 0 without any.
    pub open spec fn mean(self, sum: S) -> S {
        if self.stats.visits == 0 {
            S::spec_zero()
        } else {
            sum.spec_over(S::spec_count(self.stats.visits))
        }
    }

    pub open spec fn spec_q(self) -> S {
        self.mean(self.stats.wl_sum)
    }
}

struct ByPrior {}

impl<S: Scalar> Comparison<(Move, S)> for ByPrior {
    open spec fn can_compare(&self, a: (Move, S), b: (Move, S)) -> bool {
        true
    }

    open spec fn spec_is_better(&self, a: (Move, S), b: (Move, S)) -> bool {
        a.1.spec_total_key() > b.1.spec_total_key()
    }

    fn is_better(&self, a: (Move, S), b: (Move, S)) -> (r: bool) {
        a.1.total_key() > b.1.total_key()
    }
}

/// The moves and priors of edges.
pub open spec fn offers<S>(edges: Seq<Edge<S>>) -> Seq<(Move, S)> {
    edges.map_values(|edge: Edge<S>| (edge.mv, edge.prior))
}

/// Whether edges are fresh ones for the given moves, the likeliest first.
pub open spec fn published<S: Scalar>(edges: Seq<Edge<S>>, given: Seq<(Move, S)>) -> bool {
    &&& edges.len() == given.len()
    &&& offers(edges).to_multiset() == given.to_multiset()
    &&& forall|i: int|
        0 <= i < edges.len() ==> #[trigger] edges[i] == Edge::spec_new(edges[i].mv, edges[i].prior)
    &&& forall|i: int, j: int|
        0 <= i < j < edges.len() ==> (#[trigger] edges[i]).prior.spec_total_key() >= (
        #[trigger] edges[j]).prior.spec_total_key()
}

proof fn lemma_ranked_priors<S: Scalar>(order: Seq<(Move, S)>, i: int, j: int)
    requires
        ranked_by(
            order,
            |a: (Move, S), b: (Move, S)| a.1.spec_total_key() > b.1.spec_total_key(),
        ),
        0 <= i < j < order.len(),
    ensures
        order[i].1.spec_total_key() >= order[j].1.spec_total_key(),
    decreases j - i,
{
    if i + 1 < j {
        lemma_ranked_priors(order, i + 1, j);
    }
    let better = |a: (Move, S), b: (Move, S)| a.1.spec_total_key() > b.1.spec_total_key();
    assert(better(order[i], order[i + 1]) || !better(order[i + 1], order[i]));
}

impl<S: Scalar> Node<S> {
    /// The node as a value.
    pub open spec fn view(&self) -> NodeModel<S> {
        NodeModel {
            state: self.state,
            edges: self.edges@,
            stats: self.stats,
            terminal: self.terminal,
        }
    }

    pub open spec fn wf(self) -> bool {
        self@.wf()
    }

    pub fn expansion_state(&self) -> (r: ExpansionState)
        ensures
            r == self.state,
    {
        self.state
    }

    pub fn edges(&self) -> (r: &Vec<Edge<S>>)
        ensures
            r@ == self.edges@,
    {
        &self.edges
    }

    pub fn completed_visits(&self) -> (r: u32)
        ensures
            r == self.stats.visits,
    {
        self.stats.visits
    }

    pub fn q(&self) -> (r: S)
        ensures
            r == self@.spec_q(),
    {
        self.stats.q()
    }

    pub fn draw(&self) -> (r: S)
        ensures
            r == self@.mean(self.stats.draw_sum),
    {
        if self.stats.visits == 0 {
            S::zero()
        } else {
            self.stats.draw_sum.over(S::count(self.stats.visits))
        }
    }

    pub fn m(&self) -> (r: S)
        ensures
            r == self@.mean(self.stats.m_sum),
    {
        if self.stats.visits == 0 {
            S::zero()
        } else {
            self.stats.m_sum.over(S::count(self.stats.visits))
        }
    }

    /// The result of a node, once it is known.
    pub fn terminal_value(&self) -> (r: Option<(S, S, S)>)
        ensures
            r == self.terminal,
    {
        self.terminal
    }

    /// Claims the node; only the first claim succeeds.
    pub fn try_claim(&mut self) -> (r: bool)
        ensures
            r == (old(self).state == ExpansionState::Unexpanded),
            *final(self) == (if r {
                Node { state: ExpansionState::Claimed, ..*old(self) }
            } else {
                *old(self)
            }),
            old(self).wf() ==> final(self).wf(),
    {
        if self.state == ExpansionState::Unexpanded {
            self.state = ExpansionState::Claimed;
            true
        } else {
            false
        }
    }

    /// Gives a claim back, so that the node can be claimed again.
    pub fn abort_claim(&mut self)
        requires
            old(self).state == ExpansionState::Claimed,
        ensures
            *final(self) == (Node { state: ExpansionState::Unexpanded, ..*old(self) }),
            old(self).wf() ==> final(self).wf(),
    {
        self.state = ExpansionState::Unexpanded;
    }

    /// Publishes the edges of a claimed node, the likeliest first.
    pub fn publish_edges(&mut self, edges: &Vec<(Move, S)>)
        requires
            old(self).state == ExpansionState::Claimed,
        ensures
            published(final(self).edges@, edges@),
            *final(self) == (Node {
                state: ExpansionState::Expanded,
                edges: final(self).edges,
                ..*old(self)
            }),
            old(self).wf() ==> final(self).wf(),
    {
        let order: Vec<(Move, S)> = sort_by(edges, &ByPrior {  });
        let mut fresh: Vec<Edge<S>> = Vec::new();
        let mut i: usize = 0;
        while i < order.len()
            invariant
                i <= order@.len(),
                fresh@.len() == i,
                forall|j: int|
                    0 <= j < i ==> #[trigger] fresh@[j] == Edge::spec_new(
                        order@[j].0,
                        order@[j].1,
                    ),
            decreases order@.len() - i,
        {
            let (mv, prior) = order[i];
            fresh.push(Edge::new(mv, prior));
            i += 1;
        }
        proof {
            assert(offers(fresh@) =~= order@);
            assert((|a: (Move, S), b: (Move, S)| (ByPrior {  }).spec_is_better(a, b)) =~= (|
                a: (Move, S),
                b: (Move, S),
            | a.1.spec_total_key() > b.1.spec_total_key()));
            assert forall|a: int, b: int| 0 <= a < b < fresh@.len() implies (
            #[trigger] fresh@[a]).prior.spec_total_key() >= (
            #[trigger] fresh@[b]).prior.spec_total_key() by {
                lemma_ranked_priors(order@, a, b);
            }
        }
        self.edges = fresh;
        self.state = ExpansionState::Expanded;
    }

    /// Notes that the game is over at a claimed node.
    pub fn mark_terminal(&mut self, wl: S, draw: S, plies_left: S)
        requires
            old(self).state == ExpansionState::Claimed,
        ensures
            *final(self) == (Node {
                state: ExpansionState::Terminal,
                terminal: Some((wl, draw, plies_left)),
                ..*old(self)
            }),
            old(self).wf() ==> final(self).wf(),
    {
        self.terminal = Some((wl, draw, plies_left));
        self.state = ExpansionState::Terminal;
    }

    /// Adds results to the sums.
    pub fn add_delta(&mut self, delta: ValueDelta<S>)
        requires
            old(self).stats.visits + delta.visits <= u32::MAX,
        ensures
            *final(self) == (Node { stats: old(self).stats.spec_merge(delta), ..*old(self) }),
            old(self).wf() ==> final(self).wf(),
    {
        self.stats = self.stats.merge(delta);
        assert(self@ == (NodeModel { stats: self.stats, ..old(self)@ }));
    }

    /// Reserves one visit on an edge, if the node has it.
    pub fn reserve_edge(&mut self, edge_index: usize, virtual_mean: S) -> (r: Option<
        EdgeReservation<S>,
    >)
        requires
            edge_index < old(self).edges@.len() ==> old(self).edges@[edge_index as int].started
                < u32::MAX,
        ensures
            r is Some == (edge_index < old(self).edges@.len()),
            r is None ==> *final(self) == *old(self),
            r matches Some(reservation) ==> {
                let edge = old(self).edges@[edge_index as int];
                &&& reservation == (EdgeReservation { edge: edge_index, mv: edge.mv, virtual_mean })
                &&& final(self)@ == old(self)@.with_edge(
                    edge_index as int,
                    edge.reserved(virtual_mean),
                )
            },
            old(self).wf() ==> final(self).wf(),
    {
        if edge_index < self.edges.len() {
            let mut edge: Edge<S> = self.edges[edge_index];
            edge.started = edge.started + 1;
            edge.stats.virtual_wl_sum = edge.stats.virtual_wl_sum.plus(virtual_mean);
            self.edges[edge_index] = edge;
            Some(EdgeReservation { edge: edge_index, mv: edge.mv, virtual_mean })
        } else {
            None
        }
    }
}

impl<S: Scalar> Default for Node<S> {
    fn default() -> (r: Self)
        ensures
            r@ == NodeModel::<S>::spec_fresh(),
            r.wf(),
    {
        let node: Node<S> = Node {
            state: ExpansionState::Unexpanded,
            edges: Vec::new(),
            stats: ValueDelta::default(),
            terminal: None,
        };
        assert(node.edges@ =~= Seq::empty());
        node
    }
}

/// All nodes of a tree. A child stands behind its parent, and has only one.
#[derive(Debug)]
pub struct NodeArena<S> {
    pub nodes: Vec<Node<S>>,
}

/// Nodes as values.
pub open spec fn models<S: Scalar>(nodes: Seq<Node<S>>) -> Seq<NodeModel<S>> {
    nodes.map_values(|node: Node<S>| node@)
}

/// Whether each edge leads to a node further behind.
pub open spec fn leads_forward<S: Scalar>(nodes: Seq<NodeModel<S>>) -> bool {
    forall|i: int, e: int|
        0 <= i < nodes.len() && 0 <= e < nodes[i].edges.len() ==> (
        (#[trigger] nodes[i].edges[e]).child matches Some(c) ==> i < c < nodes.len())
}

/// The same nodes with one changed.
pub open spec fn with_node<S>(nodes: Seq<NodeModel<S>>, i: int, node: NodeModel<S>) -> Seq<
    NodeModel<S>,
> {
    nodes.update(i, node)
}

impl<S: Scalar> NodeArena<S> {
    /// The nodes as values.
    pub open spec fn view(&self) -> Seq<NodeModel<S>> {
        models(self.nodes@)
    }

    pub open spec fn wf(&self) -> bool {
        &&& forall|i: int| 0 <= i < self@.len() ==> (#[trigger] self@[i]).wf()
        &&& leads_forward(self@)
    }

    /// An arena without nodes.
    pub fn new() -> (r: Self)
        ensures
            r.wf(),
            r@.len() == 0,
    {
        NodeArena { nodes: Vec::new() }
    }

    pub fn len(&self) -> (r: usize)
        ensures
            r == self@.len(),
    {
        self.nodes.len()
    }

    /// Adds a node that nothing is known about.
    pub fn allocate(&mut self) -> (r: NodeId)
        requires
            old(self).wf(),
        ensures
            final(self).wf(),
            r == old(self)@.len(),
            final(self)@ == old(self)@.push(NodeModel::spec_fresh()),
    {
        let ghost before = self@;
        let id: NodeId = self.nodes.len();
        self.nodes.push(Node::default());
        proof {
            assert(self@ =~= before.push(NodeModel::spec_fresh()));
            assert forall|i: int| 0 <= i < self@.len() implies (#[trigger] self@[i]).wf() by {
                if i < before.len() {
                    assert(before[i].wf());
                }
            }
            assert forall|i: int, e: int|
                0 <= i < self@.len() && 0 <= e < self@[i].edges.len() implies ((
            #[trigger] self@[i].edges[e]).child matches Some(c) ==> i < c < self@.len()) by {
                assert(i < before.len());
                assert(before[i].edges[e] == self@[i].edges[e]);
            }
        }
        id
    }

    /// The node with a number.
    pub fn get(&self, id: NodeId) -> (r: Option<&Node<S>>)
        ensures
            r is Some == (id < self@.len()),
            r matches Some(node) ==> node@ == self@[id as int],
    {
        if id < self.nodes.len() {
            Some(&self.nodes[id])
        } else {
            None
        }
    }

    /// Gives access to a node.
    pub fn node_mut(&mut self, id: NodeId) -> (r: &mut Node<S>)
        requires
            id < old(self)@.len(),
        ensures
            r@ == old(self)@[id as int],
            final(self)@ == with_node(old(self)@, id as int, final(r)@),
    {
        let ghost before = self.nodes@;
        proof {
            assert forall|after: Seq<Node<S>>|
                #![trigger models(after)]
                after.len() == before.len() && after == before.update(
                    id as int,
                    after[id as int],
                ) implies models(after) == with_node(
                models(before),
                id as int,
                after[id as int]@,
            ) by {
                assert(models(after) =~= models(before).update(id as int, after[id as int]@));
            }
        }
        &mut self.nodes[id]
    }

    /// The node behind an edge, which is made where there is none.
    pub fn child_or_create(&mut self, id: NodeId, edge_index: usize) -> (r: NodeId)
        requires
            old(self).wf(),
            id < old(self)@.len(),
            edge_index < old(self)@[id as int].edges.len(),
        ensures
            final(self).wf(),
            id < r < final(self)@.len(),
            ({
                let edge = old(self)@[id as int].edges[edge_index as int];
                match edge.child {
                    Some(child) => r == child && *final(self) == *old(self),
                    None => {
                        &&& r == old(self)@.len()
                        &&& final(self)@ == with_node(
                            old(self)@,
                            id as int,
                            old(self)@[id as int].with_edge(
                                edge_index as int,
                                Edge { child: Some(r), ..edge },
                            ),
                        ).push(NodeModel::spec_fresh())
                    },
                }
            }),
    {
        let ghost before = self@;
        let mut edge: Edge<S> = self.nodes[id].edges[edge_index];
        assert(before[id as int].edges[edge_index as int] == edge);
        match edge.child() {
            Some(child) => child,
            None => {
                let child: NodeId = self.allocate();
                let ghost grown = self@;
                edge.child = Some(child);
                let node: &mut Node<S> = self.node_mut(id);
                node.edges[edge_index] = edge;
                proof {
                    let changed = before[id as int].with_edge(edge_index as int, edge);
                    assert(self@ =~= with_node(before, id as int, changed).push(
                        NodeModel::spec_fresh(),
                    ));
                    assert forall|i: int| 0 <= i < self@.len() implies (#[trigger] self@[i]).wf() by {
                        assert(grown[i].wf());
                        if i == id {
                            assert forall|j: int| 0 <= j < changed.edges.len() implies (
                            #[trigger] changed.edges[j]).wf() by {
                                assert(before[id as int].edges[j].wf());
                            }
                        }
                    }
                    assert forall|i: int, e: int|
                        0 <= i < self@.len() && 0 <= e < self@[i].edges.len() implies ((
                    #[trigger] self@[i].edges[e]).child matches Some(c) ==> i < c < self@.len()) by {
                        if i == id && e == edge_index {
                        } else {
                            assert(i < before.len());
                            assert(before[i].edges[e] == self@[i].edges[e]);
                        }
                    }
                }
                child
            },
        }
    }
}

impl<S: Scalar> Default for NodeArena<S> {
    fn default() -> (r: Self)
        ensures
            r.wf(),
            r@.len() == 0,
    {
        NodeArena::new()
    }
}

/// Reserving and cancelling leaves the counts of an edge as they were, and where nothing
/// else was under way, the edge itself.
pub proof fn law_cancel_undoes_reserve<S: Scalar>(edge: Edge<S>, virtual_mean: S)
    requires
        edge.wf(),
        edge.started < u32::MAX,
    ensures
        ({
            let after = edge.reserved(virtual_mean).cancelled(virtual_mean);
            &&& after.started == edge.started
            &&& after.stats.visits == edge.stats.visits
            &&& after.stats.spec_q() == edge.stats.spec_q()
            &&& edge.started == edge.stats.visits && edge.stats.virtual_wl_sum == S::spec_zero()
                ==> after == edge
        }),
{
}

} // verus!
