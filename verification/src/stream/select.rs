//! Which edge of a node a visit follows, and the value assumed for it meanwhile.
use vstd::prelude::*;

use crate::exact::{
    is_unrounded, lemma_counts, lemma_growing_weight, lemma_quotient, lemma_scaling_keeps_order,
    lemma_scaling_keeps_sign, rounds_by,
};
use crate::position::{contains_move, Move};
use crate::scalar::Scalar;
use crate::stream::param::SearchParams;
use crate::stream::tree::{Edge, EdgeStats};
use crate::sums::{lemma_sum_bounds, sum_by};

verus! {

pub open spec fn spec_cpuct<S: Scalar>(params: SearchParams<S>, visits: u32) -> S {
    params.cpuct.spec_plus(
        params.cpuct_factor.spec_times(
            S::spec_count(visits).spec_plus(params.cpuct_base).spec_over(
                params.cpuct_base,
            ).spec_log(),
        ),
    )
}

/// How much a node explores: a constant, and more with the logarithm of its visits.
pub fn compute_cpuct<S: Scalar>(params: SearchParams<S>, visits: u32) -> (r: S)
    ensures
        r == spec_cpuct(params, visits),
{
    params.cpuct.plus(
        params.cpuct_factor.times(
            S::count(visits).plus(params.cpuct_base).over(params.cpuct_base).log(),
        ),
    )
}

/// The sum of the priors of those of the first `k` edges on which a visit was completed
/// or is under way.
pub open spec fn begun_policy<S: Scalar>(edges: Seq<Edge<S>>, k: int) -> S
    decreases k,
{
    if k <= 0 {
        S::spec_zero()
    } else {
        let before = begun_policy(edges, k - 1);
        if edges[k - 1].stats.visits > 0 || edges[k - 1].spec_in_flight() > 0 {
            before.spec_plus(edges[k - 1].prior)
        } else {
            before
        }
    }
}

/// The sum of the priors of the edges on which a visit was completed or is under way.
pub fn visited_policy<S: Scalar>(edges: &Vec<Edge<S>>) -> (r: S)
    ensures
        r == begun_policy(edges@, edges@.len() as int),
{
    let mut sum: S = S::zero();
    let mut k: usize = 0;
    while k < edges.len()
        invariant
            k <= edges@.len(),
            sum == begun_policy(edges@, k as int),
        decreases edges@.len() - k,
    {
        if edges[k].completed_visits() > 0 || edges[k].in_flight_visits() > 0 {
            sum = sum.plus(edges[k].prior());
        }
        k += 1;
    }
    sum
}

pub open spec fn spec_fpu<S: Scalar>(
    params: SearchParams<S>,
    parent_q: S,
    edges: Seq<Edge<S>>,
) -> S {
    parent_q.spec_negated().spec_minus(
        params.fpu_reduction.spec_times(begun_policy(edges, edges.len() as int).spec_root()),
    )
}

/// What an edge without a value is assumed to be worth.
pub fn get_fpu<S: Scalar>(params: &SearchParams<S>, parent_q: S, edges: &Vec<Edge<S>>) -> (r: S)
    ensures
        r == spec_fpu(*params, parent_q, edges@),
{
    parent_q.negated().minus(params.fpu_reduction.times(visited_policy(edges).root()))
}

/// The value of an edge, in which visits under way count as assumed.
pub open spec fn spec_action_q<S: Scalar>(stats: EdgeStats<S>, started: u32, fpu: S) -> S {
    let completed_q = if stats.visits == 0 {
        fpu
    } else {
        stats.spec_q()
    };
    if started <= stats.visits {
        completed_q
    } else {
        completed_q.spec_times(S::spec_count(stats.visits)).spec_plus(
            stats.virtual_wl_sum,
        ).spec_over(S::spec_count(started))
    }
}

/// The value of an edge, in which visits under way count as assumed.
pub fn action_q<S: Scalar>(stats: EdgeStats<S>, started_visits: u32, fpu: S) -> (r: S)
    ensures
        r == spec_action_q(stats, started_visits, fpu),
{
    let completed_q: S = if stats.visits == 0 {
        fpu
    } else {
        stats.q()
    };
    if started_visits <= stats.visits {
        completed_q
    } else {
        completed_q.times(S::count(stats.visits)).plus(stats.virtual_wl_sum).over(
            S::count(started_visits),
        )
    }
}

pub open spec fn spec_variance_bonus<S: Scalar>(
    visits: u32,
    standard_error: S,
    params: SearchParams<S>,
) -> S {
    if visits < 2 {
        S::spec_zero()
    } else {
        params.variance_bonus_scale.spec_times(standard_error)
    }
}

/// The bonus for an uncertain value. Fewer than two visits tell nothing about it.
pub fn variance_bonus_from_se<S: Scalar>(
    visits: u32,
    standard_error: S,
    params: &SearchParams<S>,
) -> (r: S)
    ensures
        r == spec_variance_bonus(visits, standard_error, *params),
{
    if visits < 2 {
        S::zero()
    } else {
        params.variance_bonus_scale.times(standard_error)
    }
}

/// The visits begun on edges.
pub open spec fn started_visits<S>(edges: Seq<Edge<S>>) -> int {
    sum_by(edges, |edge: Edge<S>| edge.started as int)
}

pub(crate) proof fn lemma_prefix_started<S>(edges: Seq<Edge<S>>, k: int)
    requires
        0 <= k <= edges.len(),
    ensures
        0 <= started_visits(edges.take(k)) <= started_visits(edges),
    decreases edges.len(),
{
    if k < edges.len() {
        lemma_prefix_started(edges.drop_last(), k);
        assert(edges.drop_last().take(k) =~= edges.take(k));
    } else {
        assert(edges.take(k) =~= edges);
        lemma_sum_bounds(edges, |edge: Edge<S>| edge.started as int);
    }
}

fn children_visits<S: Scalar>(edges: &Vec<Edge<S>>) -> (r: u32)
    requires
        started_visits(edges@) <= u32::MAX,
    ensures
        r == started_visits(edges@),
{
    let mut total: u32 = 0;
    let mut k: usize = 0;
    assert(edges@.take(0) =~= Seq::empty());
    while k < edges.len()
        invariant
            started_visits(edges@) <= u32::MAX,
            k <= edges@.len(),
            total == started_visits(edges@.take(k as int)),
        decreases edges@.len() - k,
    {
        proof {
            lemma_prefix_started(edges@, k + 1);
            assert(edges@.take(k + 1).drop_last() =~= edges@.take(k as int));
            assert(edges@.take(k + 1).last() == edges@[k as int]);
        }
        total = total + edges[k].visits();
        k += 1;
    }
    assert(edges@.take(k as int) =~= edges@);
    total
}

/// What a visit to a node reads of it.
pub ghost struct Selection<S> {
    pub edges: Seq<Edge<S>>,
    pub parent_completed_visits: u32,
    pub parent_q: S,
    pub is_root: bool,
    pub params: SearchParams<S>,
    pub filter: Seq<Move>,
}

impl<S: Scalar> Selection<S> {
    /// Whether an edge may be followed: at the root the filter lets it pass.
    pub open spec fn admits(self, e: int) -> bool {
        self.is_root && self.filter.len() > 0 ==> self.filter.contains(self.edges[e].mv)
    }

    pub open spec fn fpu(self) -> S {
        spec_fpu(self.params, self.parent_q, self.edges)
    }

    /// How much a prior weighs.
    pub open spec fn weight(self) -> S {
        let visits = started_visits(self.edges);
        spec_cpuct(self.params, self.parent_completed_visits).spec_times(
            S::spec_count(
                if visits > 1 {
                    visits as u32
                } else {
                    1
                },
            ).spec_root(),
        )
    }

    /// The score of an edge: its value, a bonus for its prior, which wears off with the
    /// visits begun, and a bonus for its uncertainty.
    pub open spec fn score(self, e: int) -> S {
        let edge = self.edges[e];
        spec_action_q(edge.stats, edge.started, self.fpu()).spec_plus(
            self.weight().spec_times(edge.prior).spec_over(
                S::spec_count((1 + edge.started) as u32),
            ),
        ).spec_plus(
            spec_variance_bonus(edge.stats.visits, edge.stats.spec_standard_error(), self.params),
        )
    }

    /// The first of the best among the first `k` edges.
    pub open spec fn best(self, k: int) -> Option<int>
        decreases k,
    {
        if k <= 0 {
            None
        } else {
            let before = self.best(k - 1);
            if !self.admits(k - 1) {
                before
            } else {
                match before {
                    Some(e) => if self.score(k - 1).spec_above(self.score(e)) {
                        Some(k - 1)
                    } else {
                        Some(e)
                    },
                    None => Some(k - 1),
                }
            }
        }
    }

    /// What the selection says: the best edge and the value assumed for the visit.
    pub open spec fn outcome(self) -> Option<(int, S)> {
        match self.best(self.edges.len() as int) {
            Some(e) => Some(
                (e, self.params.virtual_mean_fpu_scale.spec_times(self.fpu())),
            ),
            None => None,
        }
    }
}

/// Selects the edge with the highest score, the first of them where there are several,
/// and the value that the visit counts as until it is completed.
pub fn select_edge<S: Scalar>(
    edges: &Vec<Edge<S>>,
    parent_completed_visits: u32,
    parent_q: S,
    depth: usize,
    params: &SearchParams<S>,
    root_move_filter: &Vec<Move>,
) -> (r: Option<(usize, S)>)
    requires
        started_visits(edges@) < u32::MAX,
    ensures
        ({
            let selection = Selection {
                edges: edges@,
                parent_completed_visits,
                parent_q,
                is_root: depth == 0,
                params: *params,
                filter: root_move_filter@,
            };
            &&& r is Some == selection.outcome() is Some
            &&& (r matches Some(chosen) ==> Some((chosen.0 as int, chosen.1))
                == selection.outcome() && chosen.0 < edges@.len() && selection.admits(
                chosen.0 as int,
            ))
        }),
{
    let ghost selection = Selection {
        edges: edges@,
        parent_completed_visits,
        parent_q,
        is_root: depth == 0,
        params: *params,
        filter: root_move_filter@,
    };
    if edges.is_empty() {
        return None;
    }
    let visits: u32 = children_visits(edges);
    let visits: u32 = if visits > 1 {
        visits
    } else {
        1
    };
    let weight: S = compute_cpuct(*params, parent_completed_visits).times(S::count(visits).root());
    let fpu: S = get_fpu(params, parent_q, edges);
    let filters: bool = depth == 0 && !root_move_filter.is_empty();
    let mut best: Option<usize> = None;
    let mut best_score: S = S::zero();
    let mut k: usize = 0;
    while k < edges.len()
        invariant
            k <= edges@.len(),
            started_visits(edges@) < u32::MAX,
            selection == (Selection {
                edges: edges@,
                parent_completed_visits,
                parent_q,
                is_root: depth == 0,
                params: *params,
                filter: root_move_filter@,
            }),
            weight == selection.weight(),
            fpu == selection.fpu(),
            filters == (depth == 0 && root_move_filter@.len() > 0),
            best is Some == selection.best(k as int) is Some,
            best matches Some(e) ==> Some(e as int) == selection.best(k as int) && best_score
                == selection.score(e as int) && e < edges@.len() && selection.admits(e as int),
        decreases edges@.len() - k,
    {
        let edge: &Edge<S> = &edges[k];
        if !filters || contains_move(root_move_filter, edge.mv()) {
            proof {
                lemma_sum_bounds(edges@, |edge: Edge<S>| edge.started as int);
                let f = |edge: Edge<S>| edge.started as int;
                assert(f(edges@[k as int]) <= started_visits(edges@));
            }
            let (stats, started) = edge.selection_snapshot();
            let q: S = action_q(stats, started, fpu);
            let u: S = weight.times(edge.prior()).over(S::count(1 + started));
            let score: S = q.plus(u).plus(
                variance_bonus_from_se(stats.visits, stats.standard_error(), params),
            );
            assert(score == selection.score(k as int));
            let better: bool = match best {
                Some(_) => score.above(best_score),
                None => true,
            };
            if better {
                best = Some(k);
                best_score = score;
            }
        }
        k += 1;
    }
    match best {
        Some(e) => Some((e, params.virtual_mean_fpu_scale.times(fpu))),
        None => None,
    }
}

/// Where scores are ordered, no admissible edge has a higher score than the selected
/// one, and where an edge is admissible one is selected.
pub proof fn law_selection_is_best<S: Scalar>(selection: Selection<S>, k: int, e: int)
    requires
        0 <= e < k <= selection.edges.len(),
        selection.admits(e),
        forall|a: S, b: S, c: S|
            !#[trigger] b.spec_above(a) && !#[trigger] c.spec_above(b) ==> !c.spec_above(a),
        forall|a: S, b: S| #[trigger] a.spec_above(b) ==> !b.spec_above(a),
        forall|a: S| !#[trigger] a.spec_above(a),
    ensures
        selection.best(k) is Some,
        0 <= selection.best(k)->Some_0 < k,
        selection.admits(selection.best(k)->Some_0),
        !selection.score(e).spec_above(selection.score(selection.best(k)->Some_0)),
    decreases k,
{
    lemma_best_in_range(selection, k);
    if e < k - 1 {
        law_selection_is_best(selection, k - 1, e);
        let before = selection.best(k - 1)->Some_0;
        if selection.admits(k - 1) && selection.score(k - 1).spec_above(
            selection.score(before),
        ) {
            assert(!selection.score(before).spec_above(selection.score(k - 1)));
        }
    }
}

proof fn lemma_best_in_range<S: Scalar>(selection: Selection<S>, k: int)
    requires
        0 <= k <= selection.edges.len(),
    ensures
        selection.best(k) matches Some(e) ==> 0 <= e < k && selection.admits(e),
    decreases k,
{
    if k > 0 {
        lemma_best_in_range(selection, k - 1);
    }
}

/// Where nothing is rounded, a node without visits explores with the constant alone, and
/// one with more visits explores no less.
pub proof fn law_exploration_grows_with_visits<S: Scalar>(
    value: spec_fn(S) -> real,
    params: SearchParams<S>,
    visits: u32,
    more_visits: u32,
    weight: S,
    larger_weight: S,
)
    requires
        is_unrounded(value),
        value(params.cpuct_factor) >= 0real,
        value(params.cpuct_base) > 0real,
        visits <= more_visits,
        call_ensures(compute_cpuct::<S>, (params, visits), weight),
        call_ensures(compute_cpuct::<S>, (params, more_visits), larger_weight),
    ensures
        value(params.cpuct) <= value(weight) <= value(larger_weight),
        visits == 0 ==> value(weight) == value(params.cpuct),
{
    lemma_growing_weight(
        value,
        params.cpuct,
        params.cpuct_factor,
        params.cpuct_base,
        visits,
        more_visits,
    );
}

/// The policy that was begun is no less than 0, and 0 where nothing was.
proof fn lemma_begun_policy_sign<S: Scalar>(
    value: spec_fn(S) -> real,
    round: spec_fn(real) -> real,
    edges: Seq<Edge<S>>,
    k: int,
)
    requires
        rounds_by(value, round),
        0 <= k <= edges.len(),
        forall|i: int| 0 <= i < edges.len() ==> value((#[trigger] edges[i]).prior) >= 0real,
    ensures
        value(begun_policy(edges, k)) >= 0real,
        (forall|i: int|
            0 <= i < k ==> (#[trigger] edges[i]).stats.visits == 0 && edges[i].started == 0)
            ==> begun_policy(edges, k) == S::spec_zero(),
    decreases k,
{
    if k > 0 {
        lemma_begun_policy_sign(value, round, edges, k - 1);
        let before = begun_policy(edges, k - 1);
        let zero = value(S::spec_zero());
        assert(value(edges[k - 1].prior) >= 0real);
        assert(round(zero) <= round(value(before) + value(edges[k - 1].prior)));
    }
}

/// What an edge without a value is assumed to be worth is no more than the opposite of the
/// node's own value, and just that where no visit was begun.
pub proof fn law_assumed_value_is_at_most_the_parents<S: Scalar>(
    value: spec_fn(S) -> real,
    round: spec_fn(real) -> real,
    params: SearchParams<S>,
    parent_q: S,
    edges: Vec<Edge<S>>,
    assumed: S,
)
    requires
        rounds_by(value, round),
        value(params.fpu_reduction) >= 0real,
        forall|i: int| 0 <= i < edges@.len() ==> value((#[trigger] edges@[i]).prior) >= 0real,
        call_ensures(get_fpu::<S>, (&params, parent_q, &edges), assumed),
    ensures
        value(assumed) <= value(parent_q.spec_negated()),
        (forall|i: int|
            0 <= i < edges@.len() ==> (#[trigger] edges@[i]).stats.visits == 0 && edges@[i].started
                == 0) ==> value(assumed) == value(parent_q.spec_negated()),
{
    let policy = begun_policy(edges@, edges@.len() as int);
    let cut = params.fpu_reduction.spec_times(policy.spec_root());
    let opposite = parent_q.spec_negated();
    lemma_begun_policy_sign(value, round, edges@, edges@.len() as int);
    lemma_scaling_keeps_sign(value, round, policy.spec_root(), params.fpu_reduction);
    assert(round(value(opposite) - value(cut)) <= round(value(opposite)));
    if value(policy) == 0real {
        assert(value(cut) == 0real);
        assert(value(opposite) - value(cut) == value(opposite));
    }
}

/// The value that a visit counts as until it is completed is no more than the share of the
/// opposite of the node's own value that visits under way count as.
pub proof fn law_pending_visit_is_at_most_the_parents_share<S: Scalar>(
    value: spec_fn(S) -> real,
    round: spec_fn(real) -> real,
    edges: Vec<Edge<S>>,
    parent_completed_visits: u32,
    parent_q: S,
    depth: usize,
    params: SearchParams<S>,
    root_move_filter: Vec<Move>,
    chosen: usize,
    pending: S,
)
    requires
        rounds_by(value, round),
        value(params.fpu_reduction) >= 0real,
        value(params.virtual_mean_fpu_scale) >= 0real,
        forall|i: int| 0 <= i < edges@.len() ==> value((#[trigger] edges@[i]).prior) >= 0real,
        call_ensures(
            select_edge::<S>,
            (&edges, parent_completed_visits, parent_q, depth, &params, &root_move_filter),
            Some((chosen, pending)),
        ),
    ensures
        value(pending) <= value(
            params.virtual_mean_fpu_scale.spec_times(parent_q.spec_negated()),
        ),
{
    let policy = begun_policy(edges@, edges@.len() as int);
    let cut = params.fpu_reduction.spec_times(policy.spec_root());
    let opposite = parent_q.spec_negated();
    lemma_begun_policy_sign(value, round, edges@, edges@.len() as int);
    lemma_scaling_keeps_sign(value, round, policy.spec_root(), params.fpu_reduction);
    assert(round(value(opposite) - value(cut)) <= round(value(opposite)));
    lemma_scaling_keeps_order(
        value,
        round,
        opposite.spec_minus(cut),
        opposite,
        params.virtual_mean_fpu_scale,
    );
}

/// Raising a node's value never raises what its edges without a value are assumed to be
/// worth.
pub proof fn law_raising_the_parent_lowers_the_assumed_value<S: Scalar>(
    value: spec_fn(S) -> real,
    round: spec_fn(real) -> real,
    params: SearchParams<S>,
    parent_q: S,
    higher_q: S,
    edges: Vec<Edge<S>>,
    assumed: S,
    lower_assumed: S,
)
    requires
        rounds_by(value, round),
        value(parent_q) <= value(higher_q),
        call_ensures(get_fpu::<S>, (&params, parent_q, &edges), assumed),
        call_ensures(get_fpu::<S>, (&params, higher_q, &edges), lower_assumed),
    ensures
        value(lower_assumed) <= value(assumed),
{
    let cut = value(
        params.fpu_reduction.spec_times(
            begun_policy(edges@, edges@.len() as int).spec_root(),
        ),
    );
    let (a, b) = (value(parent_q), value(higher_q));
    assert(round(-b) <= round(-a));
    assert(round(round(-b) - cut) <= round(round(-a) - cut));
}

/// Where nothing is rounded, the value of an edge is the mean of the values completed and of
/// those assumed for visits under way. Without a visit it is the assumed one.
pub proof fn law_edge_value_is_a_mean<S: Scalar>(
    value: spec_fn(S) -> real,
    stats: EdgeStats<S>,
    started_visits: u32,
    fpu: S,
    r: S,
)
    requires
        is_unrounded(value),
        call_ensures(action_q::<S>, (stats, started_visits, fpu), r),
    ensures
        started_visits == 0 && stats.visits == 0 ==> r == fpu,
        0 < stats.visits && started_visits <= stats.visits ==> value(r) * (stats.visits as real)
            == value(stats.wl_sum),
        0 < stats.visits < started_visits ==> value(r) * (started_visits as real) == value(
            stats.wl_sum,
        ) + value(stats.virtual_wl_sum),
        0 == stats.visits < started_visits ==> value(r) * (started_visits as real) == value(
            stats.virtual_wl_sum,
        ),
{
    let visits = S::spec_count(stats.visits);
    let started = S::spec_count(started_visits);
    if stats.visits > 0 {
        lemma_quotient(value, stats.wl_sum, visits);
    }
    if started_visits > stats.visits {
        let q = if stats.visits == 0 {
            fpu
        } else {
            stats.spec_q()
        };
        let sum = q.spec_times(visits).spec_plus(stats.virtual_wl_sum);
        lemma_quotient(value, sum, started);
        if stats.visits == 0 {
            let (x, y) = (value(q), value(visits));
            assert(x * y == 0real) by (nonlinear_arith)
                requires
                    y == 0real,
            ;
        }
    }
}

/// An uncertain value has a bonus in proportion to its standard error, one that fewer than
/// two visits tell about has none.
pub proof fn law_uncertainty_has_a_bonus<S: Scalar>(
    value: spec_fn(S) -> real,
    round: spec_fn(real) -> real,
    visits: u32,
    standard_error: S,
    larger_error: S,
    params: SearchParams<S>,
    bonus: S,
    larger_bonus: S,
)
    requires
        rounds_by(value, round),
        value(params.variance_bonus_scale) >= 0real,
        0real <= value(standard_error) <= value(larger_error),
        call_ensures(variance_bonus_from_se::<S>, (visits, standard_error, &params), bonus),
        call_ensures(variance_bonus_from_se::<S>, (visits, larger_error, &params), larger_bonus),
    ensures
        0real <= value(bonus) <= value(larger_bonus),
        visits < 2 ==> value(bonus) == 0real,
        visits >= 2 ==> bonus == params.variance_bonus_scale.spec_times(standard_error),
{
    let scale = params.variance_bonus_scale;
    lemma_scaling_keeps_order(value, round, standard_error, larger_error, scale);
    lemma_scaling_keeps_sign(value, round, standard_error, scale);
}

/// The best among the first edges has a higher score than all before it, and none after it
/// has a higher one.
proof fn lemma_best_is_first_highest<S: Scalar>(
    value: spec_fn(S) -> real,
    selection: Selection<S>,
    k: int,
)
    requires
        forall|a: S, b: S| #[trigger] a.spec_above(b) <==> value(a) > value(b),
        0 <= k <= selection.edges.len(),
    ensures
        selection.best(k) is None ==> forall|j: int| 0 <= j < k ==> !selection.admits(j),
        selection.best(k) matches Some(e) ==> {
            &&& 0 <= e < k
            &&& selection.admits(e)
            &&& forall|j: int|
                0 <= j < k && selection.admits(j) ==> value(#[trigger] selection.score(j)) <= value(
                    selection.score(e),
                )
        },
    decreases k,
{
    if k > 0 {
        lemma_best_is_first_highest(value, selection, k - 1);
    }
}

/// Where nothing is rounded and something is explored, the selected one of two edges on
/// which no visit was begun has at least the prior of the other.
pub proof fn law_selected_edge_has_the_larger_prior<S: Scalar>(
    value: spec_fn(S) -> real,
    edges: Vec<Edge<S>>,
    parent_completed_visits: u32,
    parent_q: S,
    depth: usize,
    params: SearchParams<S>,
    root_move_filter: Vec<Move>,
    chosen: (usize, S),
    other: int,
)
    requires
        is_unrounded(value),
        value(params.cpuct) > 0real,
        value(params.cpuct_base) > 0real,
        value(params.cpuct_factor) >= 0real,
        call_ensures(
            select_edge::<S>,
            (&edges, parent_completed_visits, parent_q, depth, &params, &root_move_filter),
            Some(chosen),
        ),
        started_visits(edges@) < u32::MAX,
        0 <= other < edges@.len(),
        depth > 0 || root_move_filter@.len() == 0,
        edges@[other].started == 0,
        edges@[other].stats.visits == 0,
        edges@[chosen.0 as int].started == 0,
        edges@[chosen.0 as int].stats.visits == 0,
    ensures
        value(edges@[other].prior) <= value(edges@[chosen.0 as int].prior),
{
    let selection = Selection {
        edges: edges@,
        parent_completed_visits,
        parent_q,
        is_root: depth == 0,
        params,
        filter: root_move_filter@,
    };
    let e = chosen.0 as int;
    lemma_best_is_first_highest(value, selection, edges@.len() as int);
    assert(selection.admits(other));
    assert(value(selection.score(other)) <= value(selection.score(e)));
    lemma_weight_is_positive(value, selection);
    lemma_fresh_score(value, selection, other);
    lemma_fresh_score(value, selection, e);
    let w = value(selection.weight());
    let (p, q) = (value(edges@[other].prior), value(edges@[e].prior));
    assert(p <= q) by (nonlinear_arith)
        requires
            w * p <= w * q,
            w > 0real,
    ;
}

/// The score of an edge on which no visit was begun.
proof fn lemma_fresh_score<S: Scalar>(value: spec_fn(S) -> real, selection: Selection<S>, e: int)
    requires
        is_unrounded(value),
        selection.edges[e].started == 0,
        selection.edges[e].stats.visits == 0,
    ensures
        value(selection.score(e)) == value(selection.fpu()) + value(selection.weight()) * value(
            selection.edges[e].prior,
        ),
{
    let edge = selection.edges[e];
    let product = selection.weight().spec_times(edge.prior);
    let one = S::spec_count(1);
    lemma_quotient(value, product, one);
    let x = value(product.spec_over(one));
    assert(x == value(product)) by (nonlinear_arith)
        requires
            x * value(one) == value(product),
            value(one) == 1real,
    ;
    assert(selection.score(e) == selection.fpu().spec_plus(product.spec_over(one)).spec_plus(
        S::spec_zero(),
    ));
}

/// A node explores with a positive weight.
proof fn lemma_weight_is_positive<S: Scalar>(value: spec_fn(S) -> real, selection: Selection<S>)
    requires
        is_unrounded(value),
        value(selection.params.cpuct) > 0real,
        value(selection.params.cpuct_base) > 0real,
        value(selection.params.cpuct_factor) >= 0real,
        started_visits(selection.edges) < u32::MAX,
    ensures
        value(selection.weight()) > 0real,
{
    let params = selection.params;
    lemma_growing_weight(
        value,
        params.cpuct,
        params.cpuct_factor,
        params.cpuct_base,
        selection.parent_completed_visits,
        selection.parent_completed_visits,
    );
    let c = spec_cpuct(params, selection.parent_completed_visits);
    let visits = started_visits(selection.edges);
    let all = S::spec_count(
        if visits > 1 {
            visits as u32
        } else {
            1
        },
    );
    lemma_counts(value, |r: real| r, if visits > 1 {
        visits as u32
    } else {
        1
    });
    let r = value(all.spec_root());
    assert(r > 0real) by (nonlinear_arith)
        requires
            r >= 0real,
            r * r >= 1real,
    ;
    let x = value(c);
    assert(x * r > 0real) by (nonlinear_arith)
        requires
            x > 0real,
            r > 0real,
    ;
}

/// At the root no edge that a filter leaves out is selected, below it a filter says nothing,
/// and an edge is selected wherever one may be.
pub proof fn law_selection_keeps_to_the_filter<S: Scalar>(
    edges: Vec<Edge<S>>,
    parent_completed_visits: u32,
    parent_q: S,
    depth: usize,
    params: SearchParams<S>,
    root_move_filter: Vec<Move>,
    r: Option<(usize, S)>,
)
    requires
        call_ensures(
            select_edge::<S>,
            (&edges, parent_completed_visits, parent_q, depth, &params, &root_move_filter),
            r,
        ),
    ensures
        r matches Some(chosen) ==> chosen.0 < edges@.len() && (depth == 0 && root_move_filter@.len()
            > 0 ==> root_move_filter@.contains(edges@[chosen.0 as int].mv)),
        r is None ==> forall|i: int|
            0 <= i < edges@.len() ==> depth == 0 && root_move_filter@.len() > 0
                && !root_move_filter@.contains((#[trigger] edges@[i]).mv),
{
    let selection = Selection {
        edges: edges@,
        parent_completed_visits,
        parent_q,
        is_root: depth == 0,
        params,
        filter: root_move_filter@,
    };
    if r is None {
        lemma_nothing_admitted(selection, edges@.len() as int);
        assert forall|i: int| 0 <= i < edges@.len() implies depth == 0 && root_move_filter@.len() > 0
            && !root_move_filter@.contains((#[trigger] edges@[i]).mv) by {
            assert(!selection.admits(i));
        }
    }
}

proof fn lemma_nothing_admitted<S: Scalar>(selection: Selection<S>, k: int)
    requires
        0 <= k <= selection.edges.len(),
        selection.best(k) is None,
    ensures
        forall|j: int| 0 <= j < k ==> !selection.admits(j),
    decreases k,
{
    if k > 0 {
        lemma_nothing_admitted(selection, k - 1);
    }
}

} // verus!
