//! Edges of the graph and the visits that are reserved on them.
use vstd::prelude::*;

use crate::graph::key::NodeKey;
use crate::graph::value::{is_share, ValueDelta};
use crate::position::Move;
use crate::scalar::Scalar;
use crate::sums::sum_by;

verus! {

/// What the completed visits of an edge brought.
#[derive(Clone, Copy, Debug)]
pub struct EdgeStats<S> {
    pub visits: u32,
    /// Leaves that were really reached; one leaf may count for several visits.
    pub observations: u32,
    /// The sum of the squares of the leaves' weights.
    pub observation_weight_sq_sum: u64,
    /// Results that hold for the line only and are not shared with the child.
    pub local_leaf: ValueDelta<S>,
    /// The sum of the values assumed for visits under way.
    pub virtual_wl_sum: S,
}

impl<S: Scalar> Default for EdgeStats<S> {
    fn default() -> (r: Self)
        ensures
            r == Self::spec_empty(),
    {
        EdgeStats {
            visits: 0,
            observations: 0,
            observation_weight_sq_sum: 0,
            local_leaf: ValueDelta::default(),
            virtual_wl_sum: S::zero(),
        }
    }
}

impl<S: Scalar> EdgeStats<S> {
    pub open spec fn spec_empty() -> Self {
        EdgeStats {
            visits: 0,
            observations: 0,
            observation_weight_sq_sum: 0,
            local_leaf: ValueDelta::spec_empty(),
            virtual_wl_sum: S::spec_zero(),
        }
    }
}

/// A legal move of a node.
#[derive(Clone, Copy, Debug)]
pub struct Edge<S> {
    pub mv: Move,
    /// The node that the edge leads to, once it is bound.
    pub child_key: Option<NodeKey>,
    /// Whether the edge would close a cycle and is left out for good.
    pub topology_pruned: bool,
    pub prior: S,
    /// Visits begun, completed or not.
    pub started: u32,
    pub completed: EdgeStats<S>,
}

/// The square of a weight, added to a sum that saturates.
pub open spec fn square_added(sum: u64, weight: u32) -> u64 {
    if sum + weight * weight > u64::MAX {
        u64::MAX
    } else {
        (sum + weight * weight) as u64
    }
}

fn add_square(sum: u64, weight: u32) -> (r: u64)
    ensures
        r == square_added(sum, weight),
{
    let w: u64 = weight as u64;
    proof {
        assert(weight * weight <= u32::MAX * u32::MAX) by (nonlinear_arith)
            requires
                0 <= weight <= u32::MAX,
        ;
    }
    let square: u64 = w * w;
    if sum > u64::MAX - square {
        u64::MAX
    } else {
        sum + square
    }
}

impl<S: Scalar> Edge<S> {
    /// No more visits are completed than were begun, and a pruned edge leads nowhere.
    pub open spec fn wf(self) -> bool {
        &&& self.completed.visits <= self.started
        &&& self.completed.local_leaf.visits <= self.completed.visits
        &&& self.completed.observations <= self.completed.visits
        &&& !(self.topology_pruned && self.child_key is Some)
    }

    /// An edge that has not been visited.
    pub fn new(mv: Move, prior: S) -> (r: Self)
        requires
            is_share(prior),
        ensures
            r == Self::spec_new(mv, prior),
            r.wf(),
    {
        Edge {
            mv,
            child_key: None,
            topology_pruned: false,
            prior,
            started: 0,
            completed: EdgeStats::default(),
        }
    }

    pub open spec fn spec_new(mv: Move, prior: S) -> Self {
        Edge {
            mv,
            child_key: None,
            topology_pruned: false,
            prior,
            started: 0,
            completed: EdgeStats::spec_empty(),
        }
    }

    pub fn mv(&self) -> (r: Move)
        ensures
            r == self.mv,
    {
        self.mv
    }

    pub fn prior(&self) -> (r: S)
        ensures
            r == self.prior,
    {
        self.prior
    }

    /// Visits begun, completed or not.
    pub fn visits(&self) -> (r: u32)
        ensures
            r == self.started,
    {
        self.started
    }

    pub fn completed_visits(&self) -> (r: u32)
        ensures
            r == self.completed.visits,
    {
        self.completed.visits
    }

    pub fn stats(&self) -> (r: EdgeStats<S>)
        ensures
            r == self.completed,
    {
        self.completed
    }

    /// The completed visits and the number begun.
    pub fn selection_snapshot(&self) -> (r: (EdgeStats<S>, u32))
        ensures
            r == (self.completed, self.started),
    {
        (self.completed, self.started)
    }

    pub open spec fn spec_in_flight(self) -> int {
        if self.started > self.completed.visits {
            self.started - self.completed.visits
        } else {
            0
        }
    }

    /// Visits begun and not yet completed.
    pub fn in_flight_visits(&self) -> (r: u32)
        ensures
            r == self.spec_in_flight(),
    {
        if self.started > self.completed.visits {
            self.started - self.completed.visits
        } else {
            0
        }
    }

    pub fn child_key(&self) -> (r: Option<NodeKey>)
        ensures
            r == self.child_key,
    {
        self.child_key
    }

    pub fn topology_pruned(&self) -> (r: bool)
        ensures
            r == self.topology_pruned,
    {
        self.topology_pruned
    }

    /// Binds the edge to a node. An edge leads to one node for good.
    pub fn bind_child_key(&mut self, key: NodeKey)
        requires
            !old(self).topology_pruned,
            old(self).child_key matches Some(existing) ==> existing == key,
        ensures
            *final(self) == (Edge { child_key: Some(key), ..*old(self) }),
    {
        self.child_key = Some(key);
    }

    /// The edge with some visits reserved.
    pub open spec fn reserved(self, visits: u32, virtual_wl_sum: S) -> Self {
        Edge {
            started: (self.started + visits) as u32,
            completed: EdgeStats {
                virtual_wl_sum: self.completed.virtual_wl_sum.spec_plus(virtual_wl_sum),
                ..self.completed
            },
            ..self
        }
    }

    /// The edge with reserved visits given back. Where none is left under way, no value
    /// is assumed any more.
    pub open spec fn cancelled(self, visits: u32, virtual_wl_sum: S) -> Self {
        let started = (self.started - visits) as u32;
        Edge {
            started,
            completed: EdgeStats {
                virtual_wl_sum: if started == self.completed.visits {
                    S::spec_zero()
                } else {
                    self.completed.virtual_wl_sum.spec_minus(virtual_wl_sum)
                },
                ..self.completed
            },
            ..self
        }
    }

    /// The edge with reserved visits completed by one leaf.
    pub open spec fn completed_with(
        self,
        visits: u32,
        virtual_wl_sum: S,
        local_leaf: Option<ValueDelta<S>>,
    ) -> Self {
        let total = (self.completed.visits + visits) as u32;
        Edge {
            completed: EdgeStats {
                visits: total,
                observations: (self.completed.observations + 1) as u32,
                observation_weight_sq_sum: square_added(
                    self.completed.observation_weight_sq_sum,
                    visits,
                ),
                local_leaf: match local_leaf {
                    Some(value) => self.completed.local_leaf.spec_merge(value),
                    None => self.completed.local_leaf,
                },
                virtual_wl_sum: if self.started == total {
                    S::spec_zero()
                } else {
                    self.completed.virtual_wl_sum.spec_minus(virtual_wl_sum)
                },
            },
            ..self
        }
    }

    /// Reserves visits on the edge, which is number `index` of its node.
    pub fn reserve(&mut self, index: usize, visits: u32, virtual_mean: Option<S>) -> (r:
        EdgeReservation<S>)
        requires
            visits > 0,
            old(self).started + visits <= u32::MAX,
        ensures
            r == (EdgeReservation {
                edge: index,
                mv: old(self).mv,
                visits,
                virtual_wl_sum: (match virtual_mean {
                    Some(mean) => mean,
                    None => S::spec_zero(),
                }).spec_times(S::spec_count(visits)),
            }),
            *final(self) == old(self).reserved(visits, r.virtual_wl_sum),
            old(self).wf() ==> final(self).wf(),
    {
        let mean: S = match virtual_mean {
            Some(mean) => mean,
            None => S::zero(),
        };
        let virtual_wl_sum: S = mean.times(S::count(visits));
        self.started = self.started + visits;
        self.completed.virtual_wl_sum = self.completed.virtual_wl_sum.plus(virtual_wl_sum);
        EdgeReservation { edge: index, mv: self.mv, visits, virtual_wl_sum }
    }

    fn cancel(&mut self, visits: u32, virtual_wl_sum: S)
        requires
            old(self).spec_in_flight() >= visits,
        ensures
            *final(self) == old(self).cancelled(visits, virtual_wl_sum),
            old(self).wf() ==> final(self).wf(),
    {
        self.completed.virtual_wl_sum = self.completed.virtual_wl_sum.minus(virtual_wl_sum);
        self.started = self.started - visits;
        if self.started == self.completed.visits {
            self.completed.virtual_wl_sum = S::zero();
        }
    }

    fn complete(&mut self, visits: u32, virtual_wl_sum: S, local_leaf: Option<ValueDelta<S>>)
        requires
            old(self).wf(),
            visits > 0,
            old(self).spec_in_flight() >= visits,
            local_leaf matches Some(value) ==> value.visits == visits,
        ensures
            *final(self) == old(self).completed_with(visits, virtual_wl_sum, local_leaf),
            final(self).wf(),
    {
        self.completed.virtual_wl_sum = self.completed.virtual_wl_sum.minus(virtual_wl_sum);
        self.completed.visits = self.completed.visits + visits;
        if self.started == self.completed.visits {
            self.completed.virtual_wl_sum = S::zero();
        }
        self.completed.observations = self.completed.observations + 1;
        self.completed.observation_weight_sq_sum = add_square(
            self.completed.observation_weight_sq_sum,
            visits,
        );
        match local_leaf {
            Some(value) => {
                self.completed.local_leaf = self.completed.local_leaf.merge(value);
            },
            None => {},
        }
    }
}

/// Visits that were begun on an edge. Each is either completed or cancelled.
#[derive(Clone, Copy, Debug)]
pub struct EdgeReservation<S> {
    /// The number of the edge in its node.
    pub edge: usize,
    pub mv: Move,
    pub visits: u32,
    /// The sum of the values assumed for the visits.
    pub virtual_wl_sum: S,
}

/// The visits of several reservations.
pub open spec fn reserved_visits<S>(parts: Seq<EdgeReservation<S>>) -> int {
    sum_by(parts, |part: EdgeReservation<S>| part.visits as int)
}

/// The sum of weights.
pub open spec fn total_weight(weights: Seq<u32>) -> int {
    sum_by(weights, |weight: u32| weight as int)
}

/// The assumed values of the first `k` reservations, added up in order.
pub open spec fn assumed_values<S: Scalar>(parts: Seq<EdgeReservation<S>>, k: int) -> S
    decreases k,
{
    if k <= 0 {
        S::spec_zero()
    } else {
        assumed_values(parts, k - 1).spec_plus(parts[k - 1].virtual_wl_sum)
    }
}

impl<S: Scalar> EdgeReservation<S> {
    /// Whether the reservation was made on an edge and is still under way there.
    pub open spec fn fits(self, edge: Edge<S>) -> bool {
        &&& edge.wf()
        &&& edge.mv == self.mv
        &&& self.visits > 0
        &&& edge.spec_in_flight() >= self.visits
    }

    pub fn mv(&self) -> (r: Move)
        ensures
            r == self.mv,
    {
        self.mv
    }

    pub fn visits(&self) -> (r: u32)
        ensures
            r == self.visits,
    {
        self.visits
    }

    /// Completes the visits with the value of the child.
    pub fn complete(self, edge: &mut Edge<S>)
        requires
            self.fits(*old(edge)),
        ensures
            *final(edge) == old(edge).completed_with(self.visits, self.virtual_wl_sum, None),
            final(edge).wf(),
    {
        edge.complete(self.visits, self.virtual_wl_sum, None);
    }

    /// Completes the visits with a result that holds for the line only.
    pub fn complete_local_leaf(self, edge: &mut Edge<S>, value: ValueDelta<S>)
        requires
            self.fits(*old(edge)),
            value.visits == self.visits,
        ensures
            *final(edge) == old(edge).completed_with(
                self.visits,
                self.virtual_wl_sum,
                Some(value),
            ),
            final(edge).wf(),
    {
        edge.complete(self.visits, self.virtual_wl_sum, Some(value));
    }

    /// Gives the visits back.
    pub fn cancel(self, edge: &mut Edge<S>)
        requires
            self.fits(*old(edge)),
        ensures
            *final(edge) == old(edge).cancelled(self.visits, self.virtual_wl_sum),
            final(edge).wf(),
    {
        edge.cancel(self.visits, self.virtual_wl_sum);
    }

    /// Splits the visits by weight; the edge itself does not change.
    pub fn split(self, weights: &Vec<u32>) -> (r: Vec<Self>)
        requires
            total_weight(weights@) == self.visits,
        ensures
            r@.len() == weights@.len(),
            forall|i: int|
                0 <= i < r@.len() ==> #[trigger] r@[i] == (EdgeReservation {
                    visits: weights@[i],
                    virtual_wl_sum: self.virtual_wl_sum.spec_times(
                        S::spec_count(weights@[i]),
                    ).spec_over(S::spec_count(self.visits)),
                    ..self
                }),
            reserved_visits(r@) == self.visits,
    {
        let mut parts: Vec<Self> = Vec::new();
        let mut i: usize = 0;
        while i < weights.len()
            invariant
                i <= weights@.len(),
                parts@.len() == i,
                forall|j: int|
                    0 <= j < i ==> #[trigger] parts@[j] == (EdgeReservation {
                        visits: weights@[j],
                        virtual_wl_sum: self.virtual_wl_sum.spec_times(
                            S::spec_count(weights@[j]),
                        ).spec_over(S::spec_count(self.visits)),
                        ..self
                    }),
            decreases weights@.len() - i,
        {
            let visits: u32 = weights[i];
            parts.push(
                EdgeReservation {
                    visits,
                    virtual_wl_sum: self.virtual_wl_sum.times(S::count(visits)).over(
                        S::count(self.visits),
                    ),
                    ..self
                },
            );
            i += 1;
        }
        proof {
            lemma_weights_of_parts(parts@, weights@);
        }
        parts
    }

    /// Joins reservations of one edge.
    pub fn merge(parts: &Vec<Self>) -> (r: Self)
        requires
            parts@.len() > 0,
            forall|i: int|
                0 <= i < parts@.len() ==> (#[trigger] parts@[i]).edge == parts@[0].edge && parts@[i].mv
                    == parts@[0].mv,
            reserved_visits(parts@) <= u32::MAX,
        ensures
            r.edge == parts@[0].edge,
            r.mv == parts@[0].mv,
            r.visits == reserved_visits(parts@),
            r.virtual_wl_sum == assumed_values(parts@, parts@.len() as int),
    {
        let mut visits: u32 = 0;
        let mut virtual_wl_sum: S = S::zero();
        let mut i: usize = 0;
        proof {
            assert(parts@.take(0) =~= Seq::empty());
        }
        while i < parts.len()
            invariant
                i <= parts@.len(),
                reserved_visits(parts@) <= u32::MAX,
                visits == reserved_visits(parts@.take(i as int)),
                virtual_wl_sum == assumed_values(parts@, i as int),
            decreases parts@.len() - i,
        {
            let part: Self = parts[i];
            proof {
                assert(parts@.take(i + 1).drop_last() =~= parts@.take(i as int));
                lemma_visits_grow(parts@, i + 1);
            }
            visits = visits + part.visits;
            virtual_wl_sum = virtual_wl_sum.plus(part.virtual_wl_sum);
            i += 1;
        }
        assert(parts@.take(i as int) =~= parts@);
        EdgeReservation { edge: parts[0].edge, mv: parts[0].mv, visits, virtual_wl_sum }
    }
}

proof fn lemma_weights_of_parts<S>(parts: Seq<EdgeReservation<S>>, weights: Seq<u32>)
    requires
        parts.len() == weights.len(),
        forall|i: int| 0 <= i < parts.len() ==> (#[trigger] parts[i]).visits == weights[i],
    ensures
        reserved_visits(parts) == total_weight(weights),
    decreases parts.len(),
{
    if parts.len() > 0 {
        lemma_weights_of_parts(parts.drop_last(), weights.drop_last());
    }
}

proof fn lemma_visits_grow<S>(parts: Seq<EdgeReservation<S>>, k: int)
    requires
        0 <= k <= parts.len(),
    ensures
        0 <= reserved_visits(parts.take(k)) <= reserved_visits(parts),
    decreases parts.len(),
{
    if k < parts.len() {
        lemma_visits_grow(parts.drop_last(), k);
        assert(parts.drop_last().take(k) =~= parts.take(k));
    } else {
        assert(parts.take(k) =~= parts);
        if parts.len() > 0 {
            assert(parts.drop_last().take(k - 1) =~= parts.drop_last());
            lemma_visits_grow(parts.drop_last(), k - 1);
        }
    }
}

/// Reserving and cancelling leaves the counts of an edge as they were, and where
/// nothing else was under way, the edge itself.
pub proof fn law_cancel_undoes_reserve<S: Scalar>(edge: Edge<S>, visits: u32, virtual_wl_sum: S)
    requires
        edge.wf(),
        edge.started + visits <= u32::MAX,
    ensures
        ({
            let after = edge.reserved(visits, virtual_wl_sum).cancelled(visits, virtual_wl_sum);
            &&& after.started == edge.started
            &&& after.completed.visits == edge.completed.visits
            &&& after.spec_in_flight() == edge.spec_in_flight()
            &&& edge.started == edge.completed.visits && edge.completed.virtual_wl_sum
                == S::spec_zero() ==> after == edge
        }),
{
}

/// Every reserved visit is either given back or completed: what was begun and is not
/// completed is exactly what is still reserved.
pub proof fn law_reservations_balance<S: Scalar>(
    edge: Edge<S>,
    visits: u32,
    virtual_wl_sum: S,
    local_leaf: Option<ValueDelta<S>>,
)
    requires
        edge.wf(),
        0 < visits <= edge.spec_in_flight(),
    ensures
        edge.cancelled(visits, virtual_wl_sum).spec_in_flight() == edge.spec_in_flight() - visits,
        edge.completed_with(visits, virtual_wl_sum, local_leaf).spec_in_flight()
            == edge.spec_in_flight() - visits,
        edge.cancelled(visits, virtual_wl_sum).completed.visits == edge.completed.visits,
        edge.completed_with(visits, virtual_wl_sum, local_leaf).started == edge.started,
{
}

/// Once the last visit under way is completed or given back, no value is assumed.
pub proof fn law_no_assumed_value_at_rest<S: Scalar>(
    edge: Edge<S>,
    visits: u32,
    virtual_wl_sum: S,
    local_leaf: Option<ValueDelta<S>>,
)
    requires
        edge.wf(),
        edge.spec_in_flight() == visits,
        visits > 0,
    ensures
        edge.cancelled(visits, virtual_wl_sum).completed.virtual_wl_sum == S::spec_zero(),
        edge.completed_with(visits, virtual_wl_sum, local_leaf).completed.virtual_wl_sum
            == S::spec_zero(),
{
}

} // verus!
