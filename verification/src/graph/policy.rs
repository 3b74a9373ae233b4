//! Which edge of a node a visit follows.
use vstd::prelude::*;

use crate::exact::{
    is_unrounded, lemma_counts, lemma_growing_weight, lemma_quotient, lemma_scaling_keeps_order,
    lemma_scaling_keeps_sign, rounds_by,
};
use crate::graph::edge::{Edge, EdgeStats};
use crate::graph::key::NodeKey;
use crate::graph::node::NodeModel;
use crate::graph::recompute::{lemma_prefix_started, started_visits};
use crate::graph::repository::NodeRepository;
use crate::position::{contains_move, Move};
use crate::scalar::{at_most, is_at_most, within, Scalar};

verus! {

/// The parameters of selection.
#[derive(Clone, Copy, Debug)]
pub struct SearchParams<S> {
    pub cpuct: S,
    /// From how many visits on exploration grows.
    pub cpuct_base: S,
    /// By how much exploration grows.
    pub cpuct_factor: S,
    /// How much less an edge without a value is assumed to be worth.
    pub fpu_reduction: S,
    /// The share of the assumed value that visits under way count as, if they count.
    pub virtual_mean_fpu_scale: Option<S>,
    /// The width of the confidence bound that decides at the root; 0 switches it off.
    pub lcb_stdevs: S,
    /// The share of the most visited edge's visits that a candidate needs.
    pub lcb_min_visit_fraction: S,
}

/// Whether a number is finite: it can be taken from itself.
pub open spec fn finite<S: Scalar>(x: S) -> bool {
    x.spec_minus(x).spec_same(S::spec_zero())
}

/// Whether a number is finite.
pub fn is_finite<S: Scalar>(x: S) -> (r: bool)
    ensures
        r == finite(x),
{
    x.minus(x).same(S::zero())
}

/// Whether a number is finite and not negative.
pub open spec fn finite_from_zero<S: Scalar>(x: S) -> bool {
    finite(x) && at_most(S::spec_zero(), x)
}

/// Whether a number is finite and not negative.
pub fn is_finite_from_zero<S: Scalar>(x: S) -> (r: bool)
    ensures
        r == finite_from_zero(x),
{
    is_finite(x) && is_at_most(S::zero(), x)
}

impl<S: Scalar> SearchParams<S> {
    /// What is wrong with the parameters, if anything is.
    pub open spec fn fault(self) -> Option<&'static str> {
        if !finite_from_zero(self.cpuct) {
            Some("stream cpuct must be finite and non-negative")
        } else if !(finite(self.cpuct_base) && self.cpuct_base.spec_above(S::spec_zero())) {
            Some("stream cpuct base must be finite and positive")
        } else if !finite_from_zero(self.cpuct_factor) {
            Some("stream cpuct factor must be finite and non-negative")
        } else if !finite_from_zero(self.fpu_reduction) {
            Some("stream FPU reduction must be finite and non-negative")
        } else if self.virtual_mean_fpu_scale is Some && !finite_from_zero(
            self.virtual_mean_fpu_scale->Some_0,
        ) {
            Some("stream virtual mean FPU scale must be finite and non-negative")
        } else if !finite_from_zero(self.lcb_stdevs) {
            Some("stream LCB stdevs must be finite and non-negative")
        } else if !(finite(self.lcb_min_visit_fraction) && within(
            S::spec_zero(),
            self.lcb_min_visit_fraction,
            S::spec_one(),
        )) {
            Some("stream LCB minimum visit fraction must be within [0, 1]")
        } else {
            None
        }
    }

    /// Says what is wrong with the parameters, if anything is.
    pub fn validate(self) -> (r: Result<(), &'static str>)
        ensures
            r is Ok == self.fault() is None,
            r matches Err(fault) ==> Some(fault) == self.fault(),
    {
        if !is_finite_from_zero(self.cpuct) {
            return Err("stream cpuct must be finite and non-negative");
        }
        if !(is_finite(self.cpuct_base) && self.cpuct_base.above(S::zero())) {
            return Err("stream cpuct base must be finite and positive");
        }
        if !is_finite_from_zero(self.cpuct_factor) {
            return Err("stream cpuct factor must be finite and non-negative");
        }
        if !is_finite_from_zero(self.fpu_reduction) {
            return Err("stream FPU reduction must be finite and non-negative");
        }
        match self.virtual_mean_fpu_scale {
            Some(scale) => {
                if !is_finite_from_zero(scale) {
                    return Err("stream virtual mean FPU scale must be finite and non-negative");
                }
            },
            None => {},
        }
        if !is_finite_from_zero(self.lcb_stdevs) {
            return Err("stream LCB stdevs must be finite and non-negative");
        }
        if !(is_finite(self.lcb_min_visit_fraction) && is_at_most(
            S::zero(),
            self.lcb_min_visit_fraction,
        ) && is_at_most(self.lcb_min_visit_fraction, S::one())) {
            return Err("stream LCB minimum visit fraction must be within [0, 1]");
        }
        Ok(())
    }
}

/// A fraction of two counts.
pub open spec fn fraction<S: Scalar>(a: u32, b: u32) -> S {
    S::spec_count(a).spec_over(S::spec_count(b))
}

impl<S: Scalar> SearchParams<S> {
    pub open spec fn spec_default() -> Self {
        SearchParams {
            cpuct: fraction(175, 100),
            cpuct_base: S::spec_count(40_000),
            cpuct_factor: S::spec_count(4),
            fpu_reduction: fraction(200, 1000),
            virtual_mean_fpu_scale: None,
            lcb_stdevs: S::spec_count(5),
            lcb_min_visit_fraction: fraction(15, 100),
        }
    }
}

impl<S: Scalar> Default for SearchParams<S> {
    fn default() -> (r: Self)
        ensures
            r == Self::spec_default(),
    {
        SearchParams {
            cpuct: S::count(175).over(S::count(100)),
            cpuct_base: S::count(40_000),
            cpuct_factor: S::count(4),
            fpu_reduction: S::count(200).over(S::count(1000)),
            virtual_mean_fpu_scale: None,
            lcb_stdevs: S::count(5),
            lcb_min_visit_fraction: S::count(15).over(S::count(100)),
        }
    }
}

pub open spec fn spec_cpuct<S: Scalar>(params: SearchParams<S>, visits: u32) -> S {
    params.cpuct.spec_plus(
        params.cpuct_factor.spec_times(
            S::spec_count(visits).spec_plus(params.cpuct_base).spec_over(
                params.cpuct_base,
            ).spec_log(),
        ),
    )
}

/// How much a node explores: a constant, and more with the logarithm of its visits.
pub fn compute_cpuct<S: Scalar>(params: &SearchParams<S>, visits: u32) -> (r: S)
    ensures
        r == spec_cpuct(*params, visits),
{
    params.cpuct.plus(
        params.cpuct_factor.times(
            S::count(visits).plus(params.cpuct_base).over(params.cpuct_base).log(),
        ),
    )
}

/// Whether an edge has a value: a completed visit, or a child with one.
pub open spec fn has_value<S: Scalar>(nodes: Map<NodeKey, NodeModel<S>>, edge: Edge<S>) -> bool {
    edge.completed.visits > 0 || child_has_value(nodes, edge)
}

/// Whether the node behind an edge has a completed visit.
pub open spec fn child_has_value<S: Scalar>(
    nodes: Map<NodeKey, NodeModel<S>>,
    edge: Edge<S>,
) -> bool {
    edge.child_key is Some && nodes.contains_key(edge.child_key->Some_0)
        && nodes[edge.child_key->Some_0].stats.visits > 0
}

/// The sum of the priors of those of the first `k` edges that have a value.
pub open spec fn valued_policy<S: Scalar>(
    nodes: Map<NodeKey, NodeModel<S>>,
    edges: Seq<Edge<S>>,
    k: int,
) -> S
    decreases k,
{
    if k <= 0 {
        S::spec_zero()
    } else {
        let before = valued_policy(nodes, edges, k - 1);
        if has_value(nodes, edges[k - 1]) {
            before.spec_plus(edges[k - 1].prior)
        } else {
            before
        }
    }
}

/// The sum of the priors of the edges that have a value.
pub fn visited_policy<S: Scalar>(repository: &NodeRepository<S>, edges: &Vec<Edge<S>>) -> (r: S)
    requires
        repository.wf(),
    ensures
        r == valued_policy(repository@, edges@, edges@.len() as int),
{
    let mut sum: S = S::zero();
    let mut k: usize = 0;
    while k < edges.len()
        invariant
            repository.wf(),
            k <= edges@.len(),
            sum == valued_policy(repository@, edges@, k as int),
        decreases edges@.len() - k,
    {
        let mut valued: bool = edges[k].completed_visits() > 0;
        if !valued {
            match edges[k].child_key() {
                Some(child) => {
                    match repository.get(child) {
                        Some(node) => {
                            valued = node.completed_visits() > 0;
                        },
                        None => {},
                    }
                },
                None => {},
            }
        }
        if valued {
            sum = sum.plus(edges[k].prior());
        }
        k += 1;
    }
    sum
}

pub open spec fn spec_fpu<S: Scalar>(
    nodes: Map<NodeKey, NodeModel<S>>,
    params: SearchParams<S>,
    parent_q: S,
    edges: Seq<Edge<S>>,
) -> S {
    parent_q.spec_negated().spec_minus(
        params.fpu_reduction.spec_times(
            valued_policy(nodes, edges, edges.len() as int).spec_root(),
        ),
    )
}

/// What an edge without a value is assumed to be worth: less than the node itself, the
/// more so the more of its policy has values.
pub fn get_fpu<S: Scalar>(
    repository: &NodeRepository<S>,
    params: &SearchParams<S>,
    parent_q: S,
    edges: &Vec<Edge<S>>,
) -> (r: S)
    requires
        repository.wf(),
    ensures
        r == spec_fpu(repository@, *params, parent_q, edges@),
{
    parent_q.negated().minus(params.fpu_reduction.times(visited_policy(repository, edges).root()))
}

/// The mean of an edge's completed visits. Without any it is that of the child, which
/// other lines may have visited; without that either, the assumed value.
pub open spec fn completed_q<S: Scalar>(
    nodes: Map<NodeKey, NodeModel<S>>,
    edge: Edge<S>,
    fpu: S,
) -> S {
    let stats = edge.completed;
    let visits = S::spec_count(stats.visits);
    if stats.visits == 0 {
        if child_has_value(nodes, edge) {
            nodes[edge.child_key->Some_0].spec_q()
        } else {
            fpu
        }
    } else if stats.visits <= stats.local_leaf.visits {
        stats.local_leaf.wl_sum.spec_over(visits)
    } else if edge.child_key is Some && nodes.contains_key(edge.child_key->Some_0) {
        stats.local_leaf.wl_sum.spec_plus(
            nodes[edge.child_key->Some_0].spec_q().spec_times(
                S::spec_count((stats.visits - stats.local_leaf.visits) as u32),
            ),
        ).spec_over(visits)
    } else {
        fpu
    }
}

/// The value of an edge, in which visits under way count as assumed where that is asked
/// for.
pub open spec fn spec_edge_utility<S: Scalar>(
    nodes: Map<NodeKey, NodeModel<S>>,
    edge: Edge<S>,
    fpu: S,
    use_virtual_mean: bool,
) -> S {
    let q = completed_q(nodes, edge, fpu);
    if !use_virtual_mean || edge.spec_in_flight() == 0 {
        q
    } else {
        q.spec_times(S::spec_count(edge.completed.visits)).spec_plus(
            edge.completed.virtual_wl_sum,
        ).spec_over(S::spec_count(edge.started))
    }
}

/// The value of an edge, in which visits under way count as assumed where that is asked
/// for.
pub fn edge_utility<S: Scalar>(
    repository: &NodeRepository<S>,
    edge: &Edge<S>,
    fpu: S,
    use_virtual_mean: bool,
) -> (r: S)
    requires
        repository.wf(),
    ensures
        r == spec_edge_utility(repository@, *edge, fpu, use_virtual_mean),
{
    let (stats, started_visits): (EdgeStats<S>, u32) = edge.selection_snapshot();
    let mut child_q: Option<S> = None;
    let mut child_visits: u32 = 0;
    match edge.child_key() {
        Some(key) => {
            match repository.get(key) {
                Some(node) => {
                    child_q = Some(node.q());
                    child_visits = node.completed_visits();
                },
                None => {},
            }
        },
        None => {},
    }
    let completed: S = if stats.visits == 0 {
        match child_q {
            Some(q) => if child_visits > 0 {
                q
            } else {
                fpu
            },
            None => fpu,
        }
    } else if stats.visits <= stats.local_leaf.visits {
        stats.local_leaf.wl_sum.over(S::count(stats.visits))
    } else {
        match child_q {
            Some(q) => stats.local_leaf.wl_sum.plus(
                q.times(S::count(stats.visits - stats.local_leaf.visits)),
            ).over(S::count(stats.visits)),
            None => fpu,
        }
    };
    if !use_virtual_mean || started_visits <= stats.visits {
        completed
    } else {
        completed.times(S::count(stats.visits)).plus(stats.virtual_wl_sum).over(
            S::count(started_visits),
        )
    }
}

/// The visits begun on edges, as far as they can be counted.
pub open spec fn counted_visits<S: Scalar>(edges: Seq<Edge<S>>) -> u32 {
    if started_visits(edges) > u32::MAX {
        u32::MAX
    } else {
        started_visits(edges) as u32
    }
}

fn children_visits<S: Scalar>(edges: &Vec<Edge<S>>) -> (r: u32)
    ensures
        r == counted_visits(edges@),
{
    let mut total: u32 = 0;
    let mut k: usize = 0;
    assert(edges@.take(0) =~= Seq::empty());
    while k < edges.len()
        invariant
            k <= edges@.len(),
            total == counted_visits(edges@.take(k as int)),
        decreases edges@.len() - k,
    {
        proof {
            lemma_prefix_started(edges@, k as int);
            assert(edges@.take(k + 1).drop_last() =~= edges@.take(k as int));
            assert(edges@.take(k + 1).last() == edges@[k as int]);
        }
        let visits: u32 = edges[k].visits();
        total = if total > u32::MAX - visits {
            u32::MAX
        } else {
            total + visits
        };
        k += 1;
    }
    assert(edges@.take(k as int) =~= edges@);
    total
}

/// What a visit to a node reads of it.
pub ghost struct Selection<S> {
    pub nodes: Map<NodeKey, NodeModel<S>>,
    pub edges: Seq<Edge<S>>,
    pub parent_completed_visits: u32,
    pub parent_q: S,
    pub is_root: bool,
    pub params: SearchParams<S>,
    pub filter: Seq<Move>,
}

impl<S: Scalar> Selection<S> {
    /// Whether an edge may be followed: it closes no cycle, and at the root the filter
    /// lets it pass.
    pub open spec fn admits(self, e: int) -> bool {
        &&& !self.edges[e].topology_pruned
        &&& (self.is_root && self.filter.len() > 0 ==> self.filter.contains(self.edges[e].mv))
    }

    pub open spec fn fpu(self) -> S {
        spec_fpu(self.nodes, self.params, self.parent_q, self.edges)
    }

    /// How much a prior weighs.
    pub open spec fn weight(self) -> S {
        let visits = counted_visits(self.edges);
        spec_cpuct(self.params, self.parent_completed_visits).spec_times(
            S::spec_count(
                if visits > 1 {
                    visits
                } else {
                    1
                },
            ).spec_root(),
        )
    }

    /// The score of an edge: its value and a bonus for its prior, which wears off with
    /// the visits begun.
    pub open spec fn score(self, e: int) -> S {
        let edge = self.edges[e];
        spec_edge_utility(
            self.nodes,
            edge,
            self.fpu(),
            self.params.virtual_mean_fpu_scale is Some,
        ).spec_plus(
            self.weight().spec_times(edge.prior).spec_over(
                S::spec_count((1 + edge.started) as u32),
            ),
        )
    }

    /// The first of the best among the first `k` edges.
    pub open spec fn best(self, k: int) -> Option<int>
        decreases k,
    {
        if k <= 0 {
            None
        } else {
            let before = self.best(k - 1);
            if !self.admits(k - 1) {
                before
            } else {
                match before {
                    Some(e) => if self.score(k - 1).spec_above(self.score(e)) {
                        Some(k - 1)
                    } else {
                        Some(e)
                    },
                    None => Some(k - 1),
                }
            }
        }
    }
}

/// Selects the edge with the highest score, the first of them where there are several,
/// and says what an edge without a value was assumed to be worth.
pub fn select_edge<S: Scalar>(
    repository: &NodeRepository<S>,
    edges: &Vec<Edge<S>>,
    parent_completed_visits: u32,
    parent_q: S,
    depth: usize,
    params: &SearchParams<S>,
    root_move_filter: &Vec<Move>,
) -> (r: Option<(usize, S)>)
    requires
        repository.wf(),
        forall|i: int| 0 <= i < edges@.len() ==> (#[trigger] edges@[i]).started < u32::MAX,
    ensures
        ({
            let selection = Selection {
                nodes: repository@,
                edges: edges@,
                parent_completed_visits,
                parent_q,
                is_root: depth == 0,
                params: *params,
                filter: root_move_filter@,
            };
            let best = selection.best(edges@.len() as int);
            &&& r is Some == best is Some
            &&& (r matches Some(chosen) ==> Some(chosen.0 as int) == best && chosen.1
                == selection.fpu() && chosen.0 < edges@.len() && selection.admits(
                chosen.0 as int,
            ))
        }),
{
    let ghost selection = Selection {
        nodes: repository@,
        edges: edges@,
        parent_completed_visits,
        parent_q,
        is_root: depth == 0,
        params: *params,
        filter: root_move_filter@,
    };
    if edges.is_empty() {
        return None;
    }
    let visits: u32 = children_visits(edges);
    let visits: u32 = if visits > 1 {
        visits
    } else {
        1
    };
    let weight: S = compute_cpuct(params, parent_completed_visits).times(S::count(visits).root());
    let fpu: S = get_fpu(repository, params, parent_q, edges);
    let use_virtual_mean: bool = params.virtual_mean_fpu_scale.is_some();
    let filters: bool = depth == 0 && !root_move_filter.is_empty();
    let mut best: Option<usize> = None;
    let mut best_score: S = S::zero();
    let mut k: usize = 0;
    while k < edges.len()
        invariant
            repository.wf(),
            k <= edges@.len(),
            forall|i: int| 0 <= i < edges@.len() ==> (#[trigger] edges@[i]).started < u32::MAX,
            selection == (Selection {
                nodes: repository@,
                edges: edges@,
                parent_completed_visits,
                parent_q,
                is_root: depth == 0,
                params: *params,
                filter: root_move_filter@,
            }),
            weight == selection.weight(),
            fpu == selection.fpu(),
            use_virtual_mean == (params.virtual_mean_fpu_scale is Some),
            filters == (depth == 0 && root_move_filter@.len() > 0),
            best is Some == selection.best(k as int) is Some,
            best matches Some(e) ==> Some(e as int) == selection.best(k as int) && best_score
                == selection.score(e as int) && e < edges@.len() && selection.admits(e as int),
        decreases edges@.len() - k,
    {
        let edge: &Edge<S> = &edges[k];
        assert(edges@[k as int].started < u32::MAX);
        if !edge.topology_pruned() && (!filters || contains_move(root_move_filter, edge.mv())) {
            let q: S = edge_utility(repository, edge, fpu, use_virtual_mean);
            let score: S = q.plus(
                weight.times(edge.prior()).over(S::count(1 + edge.visits())),
            );
            assert(score == selection.score(k as int));
            let better: bool = match best {
                Some(_) => score.above(best_score),
                None => true,
            };
            if better {
                best = Some(k);
                best_score = score;
            }
        }
        k += 1;
    }
    match best {
        Some(e) => Some((e, fpu)),
        None => None,
    }
}

/// Where scores are ordered, no admissible edge has a higher score than the selected
/// one, and where an edge is admissible one is selected.
pub proof fn law_selection_is_best<S: Scalar>(selection: Selection<S>, k: int, e: int)
    requires
        0 <= e < k <= selection.edges.len(),
        selection.admits(e),
        forall|a: S, b: S, c: S|
            !#[trigger] b.spec_above(a) && !#[trigger] c.spec_above(b) ==> !c.spec_above(a),
        forall|a: S, b: S| #[trigger] a.spec_above(b) ==> !b.spec_above(a),
        forall|a: S| !#[trigger] a.spec_above(a),
    ensures
        selection.best(k) is Some,
        0 <= selection.best(k)->Some_0 < k,
        selection.admits(selection.best(k)->Some_0),
        !selection.score(e).spec_above(selection.score(selection.best(k)->Some_0)),
    decreases k,
{
    lemma_best_in_range(selection, k);
    if e < k - 1 {
        law_selection_is_best(selection, k - 1, e);
        let before = selection.best(k - 1)->Some_0;
        if selection.admits(k - 1) && selection.score(k - 1).spec_above(
            selection.score(before),
        ) {
            assert(!selection.score(before).spec_above(selection.score(k - 1)));
        }
    }
}

proof fn lemma_best_in_range<S: Scalar>(selection: Selection<S>, k: int)
    requires
        0 <= k <= selection.edges.len(),
    ensures
        selection.best(k) matches Some(e) ==> 0 <= e < k && selection.admits(e),
    decreases k,
{
    if k > 0 {
        lemma_best_in_range(selection, k - 1);
    }
}

/// The best among the first edges has a higher score than all before it, and none after it
/// has a higher one.
proof fn lemma_best_is_first_highest<S: Scalar>(
    value: spec_fn(S) -> real,
    selection: Selection<S>,
    k: int,
)
    requires
        forall|a: S, b: S| #[trigger] a.spec_above(b) <==> value(a) > value(b),
        0 <= k <= selection.edges.len(),
    ensures
        selection.best(k) is None ==> forall|j: int| 0 <= j < k ==> !selection.admits(j),
        selection.best(k) matches Some(e) ==> {
            &&& 0 <= e < k
            &&& selection.admits(e)
            &&& forall|j: int|
                0 <= j < e && selection.admits(j) ==> value(#[trigger] selection.score(j)) < value(
                    selection.score(e),
                )
            &&& forall|j: int|
                e < j < k && selection.admits(j) ==> value(#[trigger] selection.score(j)) <= value(
                    selection.score(e),
                )
        },
    decreases k,
{
    if k > 0 {
        lemma_best_is_first_highest(value, selection, k - 1);
    }
}

/// The policy that has values is no less than 0, and 0 where no edge has one.
proof fn lemma_valued_policy_sign<S: Scalar>(
    value: spec_fn(S) -> real,
    round: spec_fn(real) -> real,
    nodes: Map<NodeKey, NodeModel<S>>,
    edges: Seq<Edge<S>>,
    k: int,
)
    requires
        rounds_by(value, round),
        0 <= k <= edges.len(),
        forall|i: int| 0 <= i < edges.len() ==> value((#[trigger] edges[i]).prior) >= 0real,
    ensures
        value(valued_policy(nodes, edges, k)) >= 0real,
        (forall|i: int| 0 <= i < k ==> !has_value(nodes, #[trigger] edges[i])) ==> valued_policy(
            nodes,
            edges,
            k,
        ) == S::spec_zero(),
    decreases k,
{
    if k > 0 {
        lemma_valued_policy_sign(value, round, nodes, edges, k - 1);
        let before = valued_policy(nodes, edges, k - 1);
        let zero = value(S::spec_zero());
        assert(value(edges[k - 1].prior) >= 0real);
        assert(round(zero) <= round(value(before) + value(edges[k - 1].prior)));
    }
}

/// What an edge without a value is assumed to be worth is no more than the opposite of the
/// node's own value, and just that where no edge has a value.
pub proof fn law_assumed_value_is_at_most_the_parents<S: Scalar>(
    value: spec_fn(S) -> real,
    round: spec_fn(real) -> real,
    repository: NodeRepository<S>,
    edges: Vec<Edge<S>>,
    parent_completed_visits: u32,
    parent_q: S,
    depth: usize,
    params: SearchParams<S>,
    root_move_filter: Vec<Move>,
    chosen: usize,
    assumed: S,
)
    requires
        rounds_by(value, round),
        value(params.fpu_reduction) >= 0real,
        forall|i: int| 0 <= i < edges@.len() ==> value((#[trigger] edges@[i]).prior) >= 0real,
        call_ensures(
            select_edge::<S>,
            (
                &repository,
                &edges,
                parent_completed_visits,
                parent_q,
                depth,
                &params,
                &root_move_filter,
            ),
            Some((chosen, assumed)),
        ),
    ensures
        value(assumed) <= value(parent_q.spec_negated()),
        (forall|i: int|
            0 <= i < edges@.len() ==> (#[trigger] edges@[i]).completed.visits == 0 && (
            edges@[i].child_key matches Some(child) ==> repository@.contains_key(child)
                ==> repository@[child].stats.visits == 0)) ==> value(assumed) == value(
            parent_q.spec_negated(),
        ),
{
    let policy = valued_policy(repository@, edges@, edges@.len() as int);
    let cut = params.fpu_reduction.spec_times(policy.spec_root());
    let opposite = parent_q.spec_negated();
    lemma_valued_policy_sign(value, round, repository@, edges@, edges@.len() as int);
    lemma_scaling_keeps_sign(value, round, policy.spec_root(), params.fpu_reduction);
    assert(round(value(opposite) - value(cut)) <= round(value(opposite)));
    if value(policy) == 0real {
        assert(value(cut) == 0real);
        assert(value(opposite) - value(cut) == value(opposite));
    }
}

/// Raising a node's value never raises what its edges without a value are assumed to be
/// worth.
pub proof fn law_raising_the_parent_lowers_the_assumed_value<S: Scalar>(
    value: spec_fn(S) -> real,
    round: spec_fn(real) -> real,
    repository: NodeRepository<S>,
    edges: Vec<Edge<S>>,
    parent_completed_visits: u32,
    parent_q: S,
    higher_q: S,
    depth: usize,
    params: SearchParams<S>,
    root_move_filter: Vec<Move>,
    first: (usize, S),
    second: (usize, S),
)
    requires
        rounds_by(value, round),
        value(parent_q) <= value(higher_q),
        call_ensures(
            select_edge::<S>,
            (
                &repository,
                &edges,
                parent_completed_visits,
                parent_q,
                depth,
                &params,
                &root_move_filter,
            ),
            Some(first),
        ),
        call_ensures(
            select_edge::<S>,
            (
                &repository,
                &edges,
                parent_completed_visits,
                higher_q,
                depth,
                &params,
                &root_move_filter,
            ),
            Some(second),
        ),
    ensures
        value(second.1) <= value(first.1),
{
    lemma_raised_parent_lowers_fpu(value, round, repository@, params, parent_q, higher_q, edges@);
}

proof fn lemma_raised_parent_lowers_fpu<S: Scalar>(
    value: spec_fn(S) -> real,
    round: spec_fn(real) -> real,
    nodes: Map<NodeKey, NodeModel<S>>,
    params: SearchParams<S>,
    parent_q: S,
    higher_q: S,
    edges: Seq<Edge<S>>,
)
    requires
        rounds_by(value, round),
        value(parent_q) <= value(higher_q),
    ensures
        value(spec_fpu(nodes, params, higher_q, edges)) <= value(
            spec_fpu(nodes, params, parent_q, edges),
        ),
{
    let cut = value(
        params.fpu_reduction.spec_times(
            valued_policy(nodes, edges, edges.len() as int).spec_root(),
        ),
    );
    let (a, b) = (value(parent_q), value(higher_q));
    assert(round(-b) <= round(-a));
    assert(round(round(-b) - cut) <= round(round(-a) - cut));
}

/// Raising a node's value never raises the score of an edge.
pub proof fn law_raising_the_parent_raises_no_score<S: Scalar>(
    value: spec_fn(S) -> real,
    round: spec_fn(real) -> real,
    selection: Selection<S>,
    higher_q: S,
    e: int,
)
    requires
        rounds_by(value, round),
        value(selection.parent_q) <= value(higher_q),
    ensures
        value((Selection { parent_q: higher_q, ..selection }).score(e)) <= value(
            selection.score(e),
        ),
{
    let raised = Selection { parent_q: higher_q, ..selection };
    let edge = selection.edges[e];
    let virtual_mean = selection.params.virtual_mean_fpu_scale is Some;
    lemma_raised_parent_lowers_fpu(
        value,
        round,
        selection.nodes,
        selection.params,
        selection.parent_q,
        higher_q,
        selection.edges,
    );
    let (a, b) = (
        completed_q(selection.nodes, edge, raised.fpu()),
        completed_q(selection.nodes, edge, selection.fpu()),
    );
    assert(value(a) <= value(b));
    let (u, v) = (
        spec_edge_utility(selection.nodes, edge, raised.fpu(), virtual_mean),
        spec_edge_utility(selection.nodes, edge, selection.fpu(), virtual_mean),
    );
    if virtual_mean && edge.spec_in_flight() != 0 {
        let visits = S::spec_count(edge.completed.visits);
        lemma_counts(value, round, edge.completed.visits);
        lemma_counts(value, round, edge.started);
        lemma_scaling_keeps_order(value, round, a, b, visits);
        let (x, y) = (a.spec_times(visits), b.spec_times(visits));
        let sum = value(edge.completed.virtual_wl_sum);
        assert(round(value(x) + sum) <= round(value(y) + sum));
        lemma_scaling_keeps_order(
            value,
            round,
            x.spec_plus(edge.completed.virtual_wl_sum),
            y.spec_plus(edge.completed.virtual_wl_sum),
            S::spec_count(edge.started),
        );
    }
    assert(value(u) <= value(v));
    let bonus = value(
        selection.weight().spec_times(edge.prior).spec_over(
            S::spec_count((1 + edge.started) as u32),
        ),
    );
    assert(raised.weight() == selection.weight());
    assert(round(value(u) + bonus) <= round(value(v) + bonus));
}

/// Whether the value of an edge comes from visits, and not from what is assumed.
pub open spec fn rests_on_visits<S: Scalar>(
    nodes: Map<NodeKey, NodeModel<S>>,
    edge: Edge<S>,
) -> bool {
    if edge.completed.visits == 0 {
        child_has_value(nodes, edge)
    } else {
        edge.completed.visits <= edge.completed.local_leaf.visits || (edge.child_key is Some
            && nodes.contains_key(edge.child_key->Some_0))
    }
}

/// A visited edge that is selected stays selected where the node's value is raised: that
/// only makes edges without a value less attractive.
pub proof fn law_raising_the_parent_keeps_a_visited_choice<S: Scalar>(
    value: spec_fn(S) -> real,
    round: spec_fn(real) -> real,
    repository: NodeRepository<S>,
    edges: Vec<Edge<S>>,
    parent_completed_visits: u32,
    parent_q: S,
    higher_q: S,
    depth: usize,
    params: SearchParams<S>,
    root_move_filter: Vec<Move>,
    first: (usize, S),
    second: Option<(usize, S)>,
)
    requires
        rounds_by(value, round),
        value(parent_q) <= value(higher_q),
        call_ensures(
            select_edge::<S>,
            (
                &repository,
                &edges,
                parent_completed_visits,
                parent_q,
                depth,
                &params,
                &root_move_filter,
            ),
            Some(first),
        ),
        rests_on_visits(repository@, edges@[first.0 as int]),
        call_ensures(
            select_edge::<S>,
            (
                &repository,
                &edges,
                parent_completed_visits,
                higher_q,
                depth,
                &params,
                &root_move_filter,
            ),
            second,
        ),
    ensures
        second matches Some(again) && again.0 == first.0,
{
    let selection = Selection {
        nodes: repository@,
        edges: edges@,
        parent_completed_visits,
        parent_q,
        is_root: depth == 0,
        params,
        filter: root_move_filter@,
    };
    let raised = Selection { parent_q: higher_q, ..selection };
    let n = edges@.len() as int;
    let e = first.0 as int;
    lemma_visited_choice_stays(value, round, selection, higher_q, e, raised.best(n));
}

proof fn lemma_visited_choice_stays<S: Scalar>(
    value: spec_fn(S) -> real,
    round: spec_fn(real) -> real,
    selection: Selection<S>,
    higher_q: S,
    e: int,
    again: Option<int>,
)
    requires
        rounds_by(value, round),
        value(selection.parent_q) <= value(higher_q),
        selection.best(selection.edges.len() as int) == Some(e),
        rests_on_visits(selection.nodes, selection.edges[e]),
        (Selection { parent_q: higher_q, ..selection }).best(selection.edges.len() as int) == again,
    ensures
        again == Some(e),
{
    let raised = Selection { parent_q: higher_q, ..selection };
    let n = selection.edges.len() as int;
    assert(forall|j: int| raised.admits(j) == selection.admits(j));
    lemma_best_is_first_highest(value, selection, n);
    lemma_best_is_first_highest(value, raised, n);
    assert(raised.admits(e));
    let f = again->Some_0;
    assert(raised.score(e) == selection.score(e)) by {
        assert(raised.weight() == selection.weight());
    }
    law_raising_the_parent_raises_no_score(value, round, selection, higher_q, f);
    assert(value(raised.score(f)) <= value(selection.score(f)));
    assert(selection.admits(f));
    if f < e {
        assert(value(selection.score(f)) < value(selection.score(e)));
        assert(value(raised.score(e)) <= value(raised.score(f)));
    } else if f > e {
        assert(value(selection.score(f)) <= value(selection.score(e)));
        assert(value(raised.score(e)) < value(raised.score(f)));
    }
}

/// No edge that closes a cycle is selected, and at the root none that a filter leaves out.
/// Below the root a filter says nothing, and an edge is selected wherever one may be.
pub proof fn law_selection_keeps_to_the_filter<S: Scalar>(
    repository: NodeRepository<S>,
    edges: Vec<Edge<S>>,
    parent_completed_visits: u32,
    parent_q: S,
    depth: usize,
    params: SearchParams<S>,
    root_move_filter: Vec<Move>,
    r: Option<(usize, S)>,
)
    requires
        call_ensures(
            select_edge::<S>,
            (
                &repository,
                &edges,
                parent_completed_visits,
                parent_q,
                depth,
                &params,
                &root_move_filter,
            ),
            r,
        ),
    ensures
        r matches Some(chosen) ==> {
            &&& chosen.0 < edges@.len()
            &&& !edges@[chosen.0 as int].topology_pruned
            &&& depth == 0 && root_move_filter@.len() > 0 ==> root_move_filter@.contains(
                edges@[chosen.0 as int].mv,
            )
        },
        r is None ==> forall|i: int|
            0 <= i < edges@.len() ==> (#[trigger] edges@[i]).topology_pruned || (depth == 0
                && root_move_filter@.len() > 0 && !root_move_filter@.contains(edges@[i].mv)),
{
    let selection = Selection {
        nodes: repository@,
        edges: edges@,
        parent_completed_visits,
        parent_q,
        is_root: depth == 0,
        params,
        filter: root_move_filter@,
    };
    if r is None {
        lemma_nothing_admitted(selection, edges@.len() as int);
        assert forall|i: int| 0 <= i < edges@.len() implies (#[trigger] edges@[i]).topology_pruned
            || (depth == 0 && root_move_filter@.len() > 0 && !root_move_filter@.contains(
            edges@[i].mv,
        )) by {
            assert(!selection.admits(i));
        }
    }
}

proof fn lemma_nothing_admitted<S: Scalar>(selection: Selection<S>, k: int)
    requires
        0 <= k <= selection.edges.len(),
        selection.best(k) is None,
    ensures
        forall|j: int| 0 <= j < k ==> !selection.admits(j),
    decreases k,
{
    if k > 0 {
        lemma_nothing_admitted(selection, k - 1);
    }
}

/// The priors of those of the first `k` edges that have a value, added up as real numbers.
pub open spec fn valued_priors<S: Scalar>(
    value: spec_fn(S) -> real,
    nodes: Map<NodeKey, NodeModel<S>>,
    edges: Seq<Edge<S>>,
    k: int,
) -> real
    decreases k,
{
    if k <= 0 {
        0real
    } else {
        valued_priors(value, nodes, edges, k - 1) + (if edges[k - 1].completed.visits > 0 || (
        edges[k - 1].child_key matches Some(child) && nodes.contains_key(child)
            && nodes[child].stats.visits > 0) {
            value(edges[k - 1].prior)
        } else {
            0real
        })
    }
}

proof fn lemma_valued_priors<S: Scalar>(
    value: spec_fn(S) -> real,
    nodes: Map<NodeKey, NodeModel<S>>,
    edges: Seq<Edge<S>>,
    k: int,
)
    requires
        is_unrounded(value),
        0 <= k <= edges.len(),
    ensures
        value(valued_policy(nodes, edges, k)) == valued_priors(value, nodes, edges, k),
    decreases k,
{
    if k > 0 {
        lemma_valued_priors(value, nodes, edges, k - 1);
    }
}

/// Where nothing is rounded, what an edge without a value is assumed to be worth is the
/// opposite of the node's value, less the reduction times the square root of the policy that
/// has values.
pub proof fn law_assumed_value_is_cut_by_the_visited_policy<S: Scalar>(
    value: spec_fn(S) -> real,
    repository: NodeRepository<S>,
    edges: Vec<Edge<S>>,
    parent_completed_visits: u32,
    parent_q: S,
    depth: usize,
    params: SearchParams<S>,
    root_move_filter: Vec<Move>,
    chosen: usize,
    assumed: S,
    root: real,
)
    requires
        is_unrounded(value),
        forall|i: int| 0 <= i < edges@.len() ==> value((#[trigger] edges@[i]).prior) >= 0real,
        root >= 0real,
        root * root == valued_priors(value, repository@, edges@, edges@.len() as int),
        call_ensures(
            select_edge::<S>,
            (
                &repository,
                &edges,
                parent_completed_visits,
                parent_q,
                depth,
                &params,
                &root_move_filter,
            ),
            Some((chosen, assumed)),
        ),
    ensures
        value(assumed) == -value(parent_q) - value(params.fpu_reduction) * root,
{
    let n = edges@.len() as int;
    let policy = valued_policy(repository@, edges@, n);
    lemma_valued_priors(value, repository@, edges@, n);
    lemma_valued_policy_sign(value, |r: real| r, repository@, edges@, n);
    let s = value(policy.spec_root());
    assert(s == root) by (nonlinear_arith)
        requires
            s >= 0real,
            root >= 0real,
            s * s == root * root,
    ;
}

/// Where nothing is rounded and something is explored, the selected one of two edges
/// without a value has at least the prior of the other, each divided by the visits begun and
/// one more.
pub proof fn law_selected_edge_has_the_larger_share_of_policy<S: Scalar>(
    value: spec_fn(S) -> real,
    repository: NodeRepository<S>,
    edges: Vec<Edge<S>>,
    parent_completed_visits: u32,
    parent_q: S,
    depth: usize,
    params: SearchParams<S>,
    root_move_filter: Vec<Move>,
    chosen: (usize, S),
    other: int,
)
    requires
        is_unrounded(value),
        value(params.cpuct) > 0real,
        value(params.cpuct_base) > 0real,
        value(params.cpuct_factor) >= 0real,
        params.virtual_mean_fpu_scale is None,
        call_ensures(
            select_edge::<S>,
            (
                &repository,
                &edges,
                parent_completed_visits,
                parent_q,
                depth,
                &params,
                &root_move_filter,
            ),
            Some(chosen),
        ),
        0 <= other < edges@.len(),
        !edges@[other].topology_pruned,
        depth > 0 || root_move_filter@.len() == 0,
        edges@[other].started < u32::MAX,
        edges@[chosen.0 as int].started < u32::MAX,
        !has_value(repository@, edges@[other]),
        !has_value(repository@, edges@[chosen.0 as int]),
    ensures
        value(edges@[other].prior) * ((1 + edges@[chosen.0 as int].started) as real) <= value(
            edges@[chosen.0 as int].prior,
        ) * ((1 + edges@[other].started) as real),
{
    let selection = Selection {
        nodes: repository@,
        edges: edges@,
        parent_completed_visits,
        parent_q,
        is_root: depth == 0,
        params,
        filter: root_move_filter@,
    };
    let e = chosen.0 as int;
    lemma_best_is_first_highest(value, selection, edges@.len() as int);
    assert(selection.admits(other));
    assert(value(selection.score(other)) <= value(selection.score(e)));
    lemma_weight_is_positive(value, selection);
    lemma_bonus(value, selection, other);
    lemma_bonus(value, selection, e);
    let w = value(selection.weight());
    let (p, q) = (value(edges@[other].prior), value(edges@[e].prior));
    let (m, n) = ((1 + edges@[other].started) as real, (1 + edges@[e].started) as real);
    let (x, y) = (
        value(selection.score(other)) - value(selection.fpu()),
        value(selection.score(e)) - value(selection.fpu()),
    );
    assert(p * n <= q * m) by (nonlinear_arith)
        requires
            x <= y,
            x * m == w * p,
            y * n == w * q,
            w > 0real,
            m > 0real,
            n > 0real,
    {
        assert((x * m) * n == (w * p) * n);
        assert((y * n) * m == (w * q) * m);
        assert(x * (m * n) <= y * (m * n));
        assert(w * (p * n) <= w * (q * m));
    }
}

/// The bonus of an edge without a value, times the visits begun and one more, is the weight
/// times the prior.
proof fn lemma_bonus<S: Scalar>(value: spec_fn(S) -> real, selection: Selection<S>, e: int)
    requires
        is_unrounded(value),
        selection.params.virtual_mean_fpu_scale is None,
        !has_value(selection.nodes, selection.edges[e]),
        selection.edges[e].started < u32::MAX,
    ensures
        (value(selection.score(e)) - value(selection.fpu())) * ((1 + selection.edges[e].started) as real)
            == value(selection.weight()) * value(selection.edges[e].prior),
{
    let edge = selection.edges[e];
    let divisor = S::spec_count((1 + edge.started) as u32);
    let product = selection.weight().spec_times(edge.prior);
    lemma_quotient(value, product, divisor);
    let bonus = product.spec_over(divisor);
    assert(selection.score(e) == selection.fpu().spec_plus(bonus));
    assert(value(divisor) == (1 + edge.started) as real);
}

/// A node explores with a positive weight.
proof fn lemma_weight_is_positive<S: Scalar>(value: spec_fn(S) -> real, selection: Selection<S>)
    requires
        is_unrounded(value),
        value(selection.params.cpuct) > 0real,
        value(selection.params.cpuct_base) > 0real,
        value(selection.params.cpuct_factor) >= 0real,
    ensures
        value(selection.weight()) > 0real,
{
    let params = selection.params;
    lemma_growing_weight(
        value,
        params.cpuct,
        params.cpuct_factor,
        params.cpuct_base,
        selection.parent_completed_visits,
        selection.parent_completed_visits,
    );
    let c = spec_cpuct(params, selection.parent_completed_visits);
    assert(value(c) > 0real);
    let visits = counted_visits(selection.edges);
    let all = S::spec_count(
        if visits > 1 {
            visits
        } else {
            1
        },
    );
    let r = value(all.spec_root());
    assert(r > 0real) by (nonlinear_arith)
        requires
            r >= 0real,
            r * r >= 1real,
    ;
    let (x, y) = (value(c), r);
    assert(x * y > 0real) by (nonlinear_arith)
        requires
            x > 0real,
            y > 0real,
    ;
}

/// Of two edges with the same prior and as many visits begun, of which every completed one
/// ended behind the edge itself, the selected one has at least the mean of the other.
pub proof fn law_selected_edge_has_the_better_mean<S: Scalar>(
    value: spec_fn(S) -> real,
    repository: NodeRepository<S>,
    edges: Vec<Edge<S>>,
    parent_completed_visits: u32,
    parent_q: S,
    depth: usize,
    params: SearchParams<S>,
    root_move_filter: Vec<Move>,
    chosen: (usize, S),
    other: int,
)
    requires
        is_unrounded(value),
        params.virtual_mean_fpu_scale is None,
        call_ensures(
            select_edge::<S>,
            (
                &repository,
                &edges,
                parent_completed_visits,
                parent_q,
                depth,
                &params,
                &root_move_filter,
            ),
            Some(chosen),
        ),
        0 <= other < edges@.len(),
        !edges@[other].topology_pruned,
        depth > 0 || root_move_filter@.len() == 0,
        edges@[other].prior == edges@[chosen.0 as int].prior,
        edges@[other].started == edges@[chosen.0 as int].started,
        0 < edges@[other].completed.visits <= edges@[other].completed.local_leaf.visits,
        0 < edges@[chosen.0 as int].completed.visits
            <= edges@[chosen.0 as int].completed.local_leaf.visits,
    ensures
        ({
            let (a, b) = (edges@[other].completed, edges@[chosen.0 as int].completed);
            value(a.local_leaf.wl_sum) * (b.visits as real) <= value(b.local_leaf.wl_sum) * (
            a.visits as real)
        }),
{
    let selection = Selection {
        nodes: repository@,
        edges: edges@,
        parent_completed_visits,
        parent_q,
        is_root: depth == 0,
        params,
        filter: root_move_filter@,
    };
    let e = chosen.0 as int;
    lemma_best_is_first_highest(value, selection, edges@.len() as int);
    assert(selection.admits(other));
    assert(value(selection.score(other)) <= value(selection.score(e)));
    let (a, b) = (edges@[other].completed, edges@[e].completed);
    let (k, n) = (S::spec_count(a.visits), S::spec_count(b.visits));
    lemma_quotient(value, a.local_leaf.wl_sum, k);
    lemma_quotient(value, b.local_leaf.wl_sum, n);
    let (mean, best_mean) = (
        a.local_leaf.wl_sum.spec_over(k),
        b.local_leaf.wl_sum.spec_over(n),
    );
    let bonus = selection.weight().spec_times(edges@[e].prior).spec_over(
        S::spec_count((1 + edges@[e].started) as u32),
    );
    assert(selection.score(other) == mean.spec_plus(bonus));
    assert(selection.score(e) == best_mean.spec_plus(bonus));
    let (x, y) = (value(mean), value(best_mean));
    let (s, t) = (value(a.local_leaf.wl_sum), value(b.local_leaf.wl_sum));
    let (i, j) = (a.visits as real, b.visits as real);
    assert(s * j <= t * i) by (nonlinear_arith)
        requires
            x <= y,
            x * i == s,
            y * j == t,
            i > 0real,
            j > 0real,
    {
        assert(x * (i * j) <= y * (i * j));
        assert((x * i) * j == x * (i * j));
        assert((y * j) * i == y * (i * j));
    }
}

/// Where nothing is rounded, a node without visits explores with the constant alone, and
/// one with more visits explores no less.
pub proof fn law_exploration_grows_with_visits<S: Scalar>(
    value: spec_fn(S) -> real,
    params: SearchParams<S>,
    visits: u32,
    more_visits: u32,
    weight: S,
    larger_weight: S,
)
    requires
        is_unrounded(value),
        value(params.cpuct_factor) >= 0real,
        value(params.cpuct_base) > 0real,
        visits <= more_visits,
        call_ensures(compute_cpuct::<S>, (&params, visits), weight),
        call_ensures(compute_cpuct::<S>, (&params, more_visits), larger_weight),
    ensures
        value(params.cpuct) <= value(weight) <= value(larger_weight),
        visits == 0 ==> value(weight) == value(params.cpuct),
{
    lemma_growing_weight(
        value,
        params.cpuct,
        params.cpuct_factor,
        params.cpuct_base,
        visits,
        more_visits,
    );
}

/// What an edge scores as a real number: its value, and the weight times its prior over the
/// visits begun and one more.
pub open spec fn score_of<S: Scalar>(
    value: spec_fn(S) -> real,
    q: S,
    weight: real,
    edge: Edge<S>,
) -> real {
    value(q) + weight * value(edge.prior) / ((1 + edge.started) as real)
}

/// Where nothing is rounded, no edge that may be followed scores higher than the selected
/// one, when each prior weighs as much as the node explores, times the square root of the
/// visits begun on all edges, or 1 without any.
pub proof fn law_selected_edge_scores_highest<S: Scalar>(
    value: spec_fn(S) -> real,
    repository: NodeRepository<S>,
    edges: Vec<Edge<S>>,
    parent_completed_visits: u32,
    parent_q: S,
    depth: usize,
    params: SearchParams<S>,
    root_move_filter: Vec<Move>,
    chosen: (usize, S),
    other: int,
    explores: S,
    root: real,
    q: S,
    other_q: S,
)
    requires
        is_unrounded(value),
        call_ensures(
            select_edge::<S>,
            (
                &repository,
                &edges,
                parent_completed_visits,
                parent_q,
                depth,
                &params,
                &root_move_filter,
            ),
            Some(chosen),
        ),
        call_ensures(compute_cpuct::<S>, (&params, parent_completed_visits), explores),
        0 <= started_visits(edges@) <= u32::MAX,
        root >= 0real,
        root * root == (if started_visits(edges@) > 1 {
            started_visits(edges@) as real
        } else {
            1real
        }),
        0 <= other < edges@.len(),
        !edges@[other].topology_pruned,
        depth > 0 || root_move_filter@.len() == 0,
        edges@[other].started < u32::MAX,
        edges@[chosen.0 as int].started < u32::MAX,
        call_ensures(
            edge_utility::<S>,
            (
                &repository,
                &edges@[chosen.0 as int],
                chosen.1,
                params.virtual_mean_fpu_scale is Some,
            ),
            q,
        ),
        call_ensures(
            edge_utility::<S>,
            (&repository, &edges@[other], chosen.1, params.virtual_mean_fpu_scale is Some),
            other_q,
        ),
    ensures
        score_of(value, other_q, value(explores) * root, edges@[other]) <= score_of(
            value,
            q,
            value(explores) * root,
            edges@[chosen.0 as int],
        ),
{
    let selection = Selection {
        nodes: repository@,
        edges: edges@,
        parent_completed_visits,
        parent_q,
        is_root: depth == 0,
        params,
        filter: root_move_filter@,
    };
    let e = chosen.0 as int;
    lemma_best_is_first_highest(value, selection, edges@.len() as int);
    assert(selection.admits(other));
    assert(value(selection.score(other)) <= value(selection.score(e)));
    lemma_weight_in_full(value, selection, root);
    assert(value(selection.weight()) == value(explores) * root);
    lemma_score_in_full(value, selection, other);
    lemma_score_in_full(value, selection, e);
}

proof fn lemma_weight_in_full<S: Scalar>(
    value: spec_fn(S) -> real,
    selection: Selection<S>,
    root: real,
)
    requires
        is_unrounded(value),
        0 <= started_visits(selection.edges) <= u32::MAX,
        root >= 0real,
        root * root == (if started_visits(selection.edges) > 1 {
            started_visits(selection.edges) as real
        } else {
            1real
        }),
    ensures
        value(selection.weight()) == value(
            spec_cpuct(selection.params, selection.parent_completed_visits),
        ) * root,
{
    let visits = counted_visits(selection.edges);
    let n = if visits > 1 {
        visits
    } else {
        1
    };
    let all = S::spec_count(n);
    lemma_counts(value, |r: real| r, n);
    assert(value(all) == root * root);
    let s = value(all.spec_root());
    assert(s == root) by (nonlinear_arith)
        requires
            s >= 0real,
            root >= 0real,
            s * s == root * root,
    ;
}

proof fn lemma_score_in_full<S: Scalar>(value: spec_fn(S) -> real, selection: Selection<S>, e: int)
    requires
        is_unrounded(value),
        selection.edges[e].started < u32::MAX,
    ensures
        value(selection.score(e)) == score_of(
            value,
            spec_edge_utility(
                selection.nodes,
                selection.edges[e],
                selection.fpu(),
                selection.params.virtual_mean_fpu_scale is Some,
            ),
            value(selection.weight()),
            selection.edges[e],
        ),
{
    let n = S::spec_count((1 + selection.edges[e].started) as u32);
    assert(value(n) == (1 + selection.edges[e].started) as real);
}

/// Where nothing is rounded, the value of an edge is the mean of its completed visits: those
/// that ended behind it as they were, all others as the child's present mean. Without any it
/// is the child's mean, and without that the assumed value. Where that is asked for, visits
/// under way count into the mean as assumed for them.
pub proof fn law_edge_utility_is_a_mean<S: Scalar>(
    value: spec_fn(S) -> real,
    repository: NodeRepository<S>,
    edge: Edge<S>,
    fpu: S,
    plain: S,
    assumed: S,
)
    requires
        is_unrounded(value),
        call_ensures(edge_utility::<S>, (&repository, &edge, fpu, false), plain),
        call_ensures(edge_utility::<S>, (&repository, &edge, fpu, true), assumed),
    ensures
        ({
            let stats = edge.completed;
            let child = edge.child_key->Some_0;
            let linked = edge.child_key is Some && repository@.contains_key(child);
            let n = stats.visits as real;
            &&& stats.visits == 0 && linked && repository@[child].stats.visits > 0 ==> plain
                == repository@[child].spec_q()
            &&& stats.visits == 0 && !(linked && repository@[child].stats.visits > 0) ==> plain
                == fpu
            &&& 0 < stats.visits <= stats.local_leaf.visits ==> value(plain) * n == value(
                stats.local_leaf.wl_sum,
            )
            &&& stats.visits > stats.local_leaf.visits && linked ==> value(plain) * n == value(
                stats.local_leaf.wl_sum,
            ) + value(repository@[child].spec_q()) * ((stats.visits
                - stats.local_leaf.visits) as real)
            &&& edge.started <= stats.visits ==> assumed == plain
            &&& edge.started > stats.visits ==> value(assumed) * (edge.started as real) == value(
                plain,
            ) * n + value(stats.virtual_wl_sum)
        }),
{
    let stats = edge.completed;
    let n = S::spec_count(stats.visits);
    if stats.visits > 0 {
        lemma_quotient(value, stats.local_leaf.wl_sum, n);
        if stats.visits > stats.local_leaf.visits && edge.child_key is Some {
            let rest = S::spec_count((stats.visits - stats.local_leaf.visits) as u32);
            lemma_quotient(
                value,
                stats.local_leaf.wl_sum.spec_plus(
                    repository@[edge.child_key->Some_0].spec_q().spec_times(rest),
                ),
                n,
            );
        }
    }
    if edge.started > stats.visits {
        lemma_quotient(
            value,
            plain.spec_times(n).spec_plus(stats.virtual_wl_sum),
            S::spec_count(edge.started),
        );
    }
}

} // verus!
