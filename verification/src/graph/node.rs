//! Nodes of the graph: their expansion, their edges and their values.
use vstd::prelude::*;

use crate::graph::edge::{Edge, EdgeReservation};
use crate::graph::proof_bounds::Bounds;
use crate::graph::value::{is_share, is_value, ValueDelta};
use crate::position::Move;
use crate::scalar::{at_most, Scalar};
use crate::sorting::{ranked_by, sort_by, Comparison};

verus! {

/// How far a node has been expanded.
#[derive(Clone, Copy, Debug, PartialEq, Eq, Structural)]
pub enum ExpansionState {
    Unexpanded,
    /// One worker has claimed the node and will publish its edges or its result.
    Evaluating,
    Expanded,
    Terminal,
}

impl ExpansionState {
    /// The number that stands for a state.
    pub open spec fn spec_raw(self) -> u8 {
        match self {
            ExpansionState::Unexpanded => 0,
            ExpansionState::Evaluating => 1,
            ExpansionState::Expanded => 2,
            ExpansionState::Terminal => 3,
        }
    }

    /// The state that a number stands for.
    pub fn from_raw(raw: u8) -> (r: Self)
        requires
            raw < 4,
        ensures
            r.spec_raw() == raw,
    {
        match raw {
            0 => ExpansionState::Unexpanded,
            1 => ExpansionState::Evaluating,
            2 => ExpansionState::Expanded,
            _ => ExpansionState::Terminal,
        }
    }
}

impl Default for ExpansionState {
    fn default() -> (r: Self)
        ensures
            r == ExpansionState::Unexpanded,
    {
        ExpansionState::Unexpanded
    }
}

/// A position of the graph. Values are seen by the side that moved into it.
#[derive(Debug)]
pub struct Node<S> {
    pub expansion: ExpansionState,
    pub edges: Vec<Edge<S>>,
    /// The sums of the completed visits.
    pub stats: ValueDelta<S>,
    /// The node's own evaluation, from which the sums are recomputed.
    pub graph_value: Option<ValueDelta<S>>,
    /// The value, draw share and plies to the end of a finished game.
    pub terminal: Option<(S, S, S)>,
    /// The values that the position may still turn out to have.
    pub bounds: Bounds<S>,
}

/// A node as a value.
pub ghost struct NodeModel<S> {
    pub expansion: ExpansionState,
    pub edges: Seq<Edge<S>>,
    pub stats: ValueDelta<S>,
    pub graph_value: Option<ValueDelta<S>>,
    pub terminal: Option<(S, S, S)>,
    pub bounds: Bounds<S>,
}

impl<S: Scalar> NodeModel<S> {
    /// The edges are consistent, only an expanded node has any, and exactly a finished
    /// game has a result.
    pub open spec fn wf(self) -> bool {
        &&& forall|i: int| 0 <= i < self.edges.len() ==> (#[trigger] self.edges[i]).wf()
        &&& (self.terminal is Some <==> self.expansion == ExpansionState::Terminal)
        &&& (self.expansion == ExpansionState::Unexpanded || self.expansion
            == ExpansionState::Evaluating ==> self.edges.len() == 0)
        &&& (self.graph_value matches Some(value) ==> value.visits > 0)
    }

    /// A node that nothing is known about.
    pub open spec fn is_fresh(self) -> bool {
        &&& self.expansion == ExpansionState::Unexpanded
        &&& self.edges.len() == 0
        &&& self.stats == ValueDelta::<S>::spec_empty()
        &&& self.graph_value is None
        &&& self.terminal is None
        &&& self.bounds == Bounds::<S>::spec_open()
    }

    /// The mean of a sum over the visits, 0 without any.
    pub open spec fn mean(self, sum: S) -> S {
        if self.stats.visits == 0 {
            S::spec_zero()
        } else {
            sum.spec_over(S::spec_count(self.stats.visits))
        }
    }

    pub open spec fn spec_q(self) -> S {
        self.mean(self.stats.wl_sum)
    }

    /// The means of the value, the draws, the plies and the squared value.
    pub open spec fn spec_moments(self) -> (S, S, S, S) {
        (
            self.mean(self.stats.wl_sum),
            self.mean(self.stats.draw_sum),
            self.mean(self.stats.m_sum),
            self.mean(self.stats.wl_sq_sum),
        )
    }

    /// Whether no visit is under way on any edge.
    pub open spec fn settled(self) -> bool {
        forall|i: int|
            0 <= i < self.edges.len() ==> (#[trigger] self.edges[i]).started
                == self.edges[i].completed.visits
    }
}

/// A comparison of moves by prior.
struct ByPrior {}

impl<S: Scalar> Comparison<(Move, S)> for ByPrior {
    open spec fn can_compare(&self, a: (Move, S), b: (Move, S)) -> bool {
        true
    }

    open spec fn spec_is_better(&self, a: (Move, S), b: (Move, S)) -> bool {
        a.1.spec_total_key() > b.1.spec_total_key()
    }

    fn is_better(&self, a: (Move, S), b: (Move, S)) -> (r: bool) {
        a.1.total_key() > b.1.total_key()
    }
}

/// The moves and priors of edges.
pub open spec fn offers<S>(edges: Seq<Edge<S>>) -> Seq<(Move, S)> {
    edges.map_values(|edge: Edge<S>| (edge.mv, edge.prior))
}

/// Whether edges are fresh ones for the given moves, the likeliest first.
pub open spec fn published<S: Scalar>(edges: Seq<Edge<S>>, given: Seq<(Move, S)>) -> bool {
    &&& edges.len() == given.len()
    &&& offers(edges).to_multiset() == given.to_multiset()
    &&& forall|i: int|
        0 <= i < edges.len() ==> #[trigger] edges[i] == Edge::spec_new(edges[i].mv, edges[i].prior)
    &&& forall|i: int, j: int|
        0 <= i < j < edges.len() ==> (#[trigger] edges[i]).prior.spec_total_key() >= (
        #[trigger] edges[j]).prior.spec_total_key()
}

proof fn lemma_ranked_priors<S: Scalar>(order: Seq<(Move, S)>, i: int, j: int)
    requires
        ranked_by(
            order,
            |a: (Move, S), b: (Move, S)| a.1.spec_total_key() > b.1.spec_total_key(),
        ),
        0 <= i < j < order.len(),
    ensures
        order[i].1.spec_total_key() >= order[j].1.spec_total_key(),
    decreases j - i,
{
    if i + 1 < j {
        lemma_ranked_priors(order, i + 1, j);
    }
    let better = |a: (Move, S), b: (Move, S)| a.1.spec_total_key() > b.1.spec_total_key();
    assert(better(order[i], order[i + 1]) || !better(order[i + 1], order[i]));
}

impl<S: Scalar> Node<S> {
    /// The node as a value.
    pub open spec fn view(&self) -> NodeModel<S> {
        NodeModel {
            expansion: self.expansion,
            edges: self.edges@,
            stats: self.stats,
            graph_value: self.graph_value,
            terminal: self.terminal,
            bounds: self.bounds,
        }
    }

    pub open spec fn wf(self) -> bool {
        self@.wf()
    }

    pub fn expansion_state(&self) -> (r: ExpansionState)
        ensures
            r == self.expansion,
    {
        self.expansion
    }

    pub fn edges(&self) -> (r: &Vec<Edge<S>>)
        ensures
            r@ == self.edges@,
    {
        &self.edges
    }

    pub fn completed_visits(&self) -> (r: u32)
        ensures
            r == self.stats.visits,
    {
        self.stats.visits
    }

    /// The means of the value, the draws, the plies and the squared value.
    pub fn value_moments_snapshot(&self) -> (r: (S, S, S, S))
        ensures
            r == self@.spec_moments(),
    {
        if self.stats.visits == 0 {
            return (S::zero(), S::zero(), S::zero(), S::zero());
        }
        let visits: S = S::count(self.stats.visits);
        (
            self.stats.wl_sum.over(visits),
            self.stats.draw_sum.over(visits),
            self.stats.m_sum.over(visits),
            self.stats.wl_sq_sum.over(visits),
        )
    }

    /// The means of the value, the draws and the plies.
    pub fn value_snapshot(&self) -> (r: (S, S, S))
        ensures
            r == (
                self@.mean(self.stats.wl_sum),
                self@.mean(self.stats.draw_sum),
                self@.mean(self.stats.m_sum),
            ),
    {
        let (wl, draw, m, _) = self.value_moments_snapshot();
        (wl, draw, m)
    }

    pub fn q(&self) -> (r: S)
        ensures
            r == self@.spec_q(),
    {
        self.value_snapshot().0
    }

    pub fn draw(&self) -> (r: S)
        ensures
            r == self@.mean(self.stats.draw_sum),
    {
        self.value_snapshot().1
    }

    pub fn m(&self) -> (r: S)
        ensures
            r == self@.mean(self.stats.m_sum),
    {
        self.value_snapshot().2
    }

    /// Sets the node's own evaluation, which stays the same for good.
    pub fn set_graph_value(&mut self, value: ValueDelta<S>)
        requires
            value.visits > 0,
            old(self).graph_value matches Some(existing) ==> existing == value,
        ensures
            *final(self) == (Node { graph_value: Some(value), ..*old(self) }),
    {
        self.graph_value = Some(value);
    }

    /// Claims the node for evaluation; only the first claim succeeds.
    pub fn try_begin_evaluation(&mut self) -> (r: bool)
        ensures
            r == (old(self).expansion == ExpansionState::Unexpanded),
            *final(self) == (if r {
                Node { expansion: ExpansionState::Evaluating, ..*old(self) }
            } else {
                *old(self)
            }),
            old(self).wf() ==> final(self).wf(),
    {
        if self.expansion == ExpansionState::Unexpanded {
            self.expansion = ExpansionState::Evaluating;
            true
        } else {
            false
        }
    }

    /// Gives a claim back, so that the node can be claimed again.
    pub fn abort_evaluation(&mut self)
        requires
            old(self).expansion == ExpansionState::Evaluating,
        ensures
            *final(self) == (Node { expansion: ExpansionState::Unexpanded, ..*old(self) }),
            old(self).wf() ==> final(self).wf(),
    {
        self.expansion = ExpansionState::Unexpanded;
    }

    /// Publishes the edges of a claimed node, the likeliest first.
    pub fn publish_edges(&mut self, edges: &Vec<(Move, S)>)
        requires
            old(self).expansion == ExpansionState::Evaluating,
            forall|i: int| 0 <= i < edges@.len() ==> is_share((#[trigger] edges@[i]).1),
        ensures
            published(final(self).edges@, edges@),
            *final(self) == (Node {
                expansion: ExpansionState::Expanded,
                edges: final(self).edges,
                ..*old(self)
            }),
            old(self).wf() ==> final(self).wf(),
    {
        let order: Vec<(Move, S)> = sort_by(edges, &ByPrior {  });
        let mut fresh: Vec<Edge<S>> = Vec::new();
        let mut i: usize = 0;
        proof {
            assert forall|j: int| 0 <= j < order@.len() implies is_share(
                (#[trigger] order@[j]).1,
            ) by {
                assert(order@.contains(order@[j]));
                let k = choose|k: int| 0 <= k < edges@.len() && edges@[k] == order@[j];
                assert(is_share(edges@[k].1));
            }
        }
        while i < order.len()
            invariant
                i <= order@.len(),
                fresh@.len() == i,
                forall|j: int| 0 <= j < order@.len() ==> is_share((#[trigger] order@[j]).1),
                forall|j: int|
                    0 <= j < i ==> #[trigger] fresh@[j] == Edge::spec_new(
                        order@[j].0,
                        order@[j].1,
                    ),
            decreases order@.len() - i,
        {
            let (mv, prior) = order[i];
            assert(is_share(order@[i as int].1));
            fresh.push(Edge::new(mv, prior));
            i += 1;
        }
        proof {
            assert(offers(fresh@) =~= order@);
            assert((|a: (Move, S), b: (Move, S)| (ByPrior {  }).spec_is_better(a, b)) =~= (|
                a: (Move, S),
                b: (Move, S),
            | a.1.spec_total_key() > b.1.spec_total_key()));
            assert forall|a: int, b: int| 0 <= a < b < fresh@.len() implies (
            #[trigger] fresh@[a]).prior.spec_total_key() >= (
            #[trigger] fresh@[b]).prior.spec_total_key() by {
                lemma_ranked_priors(order@, a, b);
            }
        }
        self.edges = fresh;
        self.expansion = ExpansionState::Expanded;
    }

    /// The node once its game has been found to be over.
    pub open spec fn ended(self, wl: S, draw: S, plies_left: S, value: ValueDelta<S>) -> Self {
        Node {
            expansion: ExpansionState::Terminal,
            terminal: Some((wl, draw, plies_left)),
            graph_value: Some(value),
            bounds: Bounds::spec_exactly(wl),
            ..self
        }
    }

    /// Notes that the game is over at a claimed node.
    pub fn mark_terminal(&mut self, wl: S, draw: S, plies_left: S)
        requires
            old(self).expansion == ExpansionState::Evaluating,
            old(self).graph_value is None,
            is_value(wl),
            is_share(draw),
            at_most(S::spec_zero(), plies_left),
        ensures
            *final(self) == old(self).ended(
                wl,
                draw,
                plies_left,
                ValueDelta::spec_with_plies_left(wl, draw, plies_left),
            ),
            old(self).wf() ==> final(self).wf(),
    {
        self.terminal = Some((wl, draw, plies_left));
        self.bounds = Bounds::exactly(wl);
        self.set_graph_value(ValueDelta::with_plies_left(wl, draw, plies_left));
        self.expansion = ExpansionState::Terminal;
    }

    /// Notes that the game is over at a claimed node, reached by several visits.
    pub fn set_terminal_value_weighted(&mut self, wl: S, draw: S, plies_left: S, visits: u32)
        requires
            old(self).expansion == ExpansionState::Evaluating,
            old(self).graph_value is None,
            is_value(wl),
            is_share(draw),
            at_most(S::spec_zero(), plies_left),
            visits > 0,
        ensures
            *final(self) == old(self).ended(
                wl,
                draw,
                plies_left,
                ValueDelta::spec_with_plies_left(wl, draw, plies_left).spec_repeated(visits),
            ),
            old(self).wf() ==> final(self).wf(),
    {
        self.terminal = Some((wl, draw, plies_left));
        self.bounds = Bounds::exactly(wl);
        self.set_graph_value(ValueDelta::with_plies_left(wl, draw, plies_left).repeated(visits));
        self.expansion = ExpansionState::Terminal;
    }

    /// The value and draw share of a finished game.
    pub fn terminal_wl(&self) -> (r: Option<(S, S)>)
        ensures
            r == (match self.terminal {
                Some(result) => Some((result.0, result.1)),
                None => None,
            }),
    {
        match self.terminal {
            Some((wl, draw, _)) => Some((wl, draw)),
            None => None,
        }
    }

    /// The result of a finished game.
    pub fn terminal_value(&self) -> (r: Option<(S, S, S)>)
        ensures
            r == self.terminal,
    {
        self.terminal
    }

    /// The plies to the end of a finished game.
    pub fn terminal_plies_left(&self) -> (r: Option<S>)
        ensures
            r == (match self.terminal {
                Some(result) => Some(result.2),
                None => None,
            }),
    {
        match self.terminal {
            Some((_, _, plies)) => Some(plies),
            None => None,
        }
    }

    /// Reserves one visit on an edge, if the node has it.
    pub fn reserve_edge(&mut self, edge_index: usize) -> (r: Option<EdgeReservation<S>>)
        requires
            edge_index < old(self).edges@.len() ==> old(self).edges@[edge_index as int].started
                < u32::MAX,
        ensures
            r is Some == (edge_index < old(self).edges@.len()),
            r is None ==> *final(self) == *old(self),
            r matches Some(reservation) ==> old(self).has_reserved(
                *final(self),
                edge_index,
                1,
                None,
                reservation,
            ),
            old(self).wf() ==> final(self).wf(),
    {
        self.reserve_edge_visits(edge_index, 1, None)
    }

    /// Whether `after` is this node with visits reserved on an edge.
    pub open spec fn has_reserved(
        self,
        after: Self,
        edge_index: usize,
        visits: u32,
        virtual_mean: Option<S>,
        reservation: EdgeReservation<S>,
    ) -> bool {
        let edge = self.edges@[edge_index as int];
        &&& reservation == (EdgeReservation {
            edge: edge_index,
            mv: edge.mv,
            visits,
            virtual_wl_sum: (match virtual_mean {
                Some(mean) => mean,
                None => S::spec_zero(),
            }).spec_times(S::spec_count(visits)),
        })
        &&& after.edges@ == self.edges@.update(
            edge_index as int,
            edge.reserved(visits, reservation.virtual_wl_sum),
        )
        &&& after == (Node { edges: after.edges, ..self })
    }

    /// Reserves visits on an edge, if the node has it.
    pub fn reserve_edge_visits(
        &mut self,
        edge_index: usize,
        visits: u32,
        virtual_mean: Option<S>,
    ) -> (r: Option<EdgeReservation<S>>)
        requires
            visits > 0,
            edge_index < old(self).edges@.len() ==> old(self).edges@[edge_index as int].started
                + visits <= u32::MAX,
        ensures
            r is Some == (edge_index < old(self).edges@.len()),
            r is None ==> *final(self) == *old(self),
            r matches Some(reservation) ==> old(self).has_reserved(
                *final(self),
                edge_index,
                visits,
                virtual_mean,
                reservation,
            ),
            old(self).wf() ==> final(self).wf(),
    {
        if edge_index < self.edges.len() {
            let reservation = self.edges[edge_index].reserve(edge_index, visits, virtual_mean);
            Some(reservation)
        } else {
            None
        }
    }

    /// Gives access to one edge.
    pub fn edge_mut(&mut self, edge_index: usize) -> (r: &mut Edge<S>)
        requires
            edge_index < old(self).edges@.len(),
        ensures
            *r == old(self).edges@[edge_index as int],
            final(self).edges@ == old(self).edges@.update(edge_index as int, *final(r)),
            *final(self) == (Node { edges: final(self).edges, ..*old(self) }),
    {
        &mut self.edges[edge_index]
    }

    /// Whether no visit is under way on any edge.
    pub fn is_settled(&self) -> (r: bool)
        ensures
            r == self@.settled(),
    {
        let mut i: usize = 0;
        while i < self.edges.len()
            invariant
                i <= self.edges@.len(),
                forall|j: int|
                    0 <= j < i ==> (#[trigger] self.edges@[j]).started
                        == self.edges@[j].completed.visits,
            decreases self.edges@.len() - i,
        {
            if self.edges[i].visits() != self.edges[i].completed_visits() {
                assert(self.edges@[i as int].started != self.edges@[i as int].completed.visits);
                return false;
            }
            i += 1;
        }
        true
    }
}

impl<S: Scalar> Default for Node<S> {
    fn default() -> (r: Self)
        ensures
            r@.is_fresh(),
            r.wf(),
    {
        Node {
            expansion: ExpansionState::Unexpanded,
            edges: Vec::new(),
            stats: ValueDelta::default(),
            graph_value: None,
            terminal: None,
            bounds: Bounds::default(),
        }
    }
}

/// A node is claimed at most once until the claim is given back, and giving it back
/// makes it claimable again.
pub proof fn law_claims_are_exclusive<S: Scalar>(before: Node<S>, claimed: Node<S>, back: Node<S>)
    requires
        before.expansion == ExpansionState::Unexpanded,
        claimed == (Node { expansion: ExpansionState::Evaluating, ..before }),
        back == (Node { expansion: ExpansionState::Unexpanded, ..claimed }),
    ensures
        claimed.expansion != ExpansionState::Unexpanded,
        back == before,
{
}

} // verus!
