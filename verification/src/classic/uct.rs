//! The selection formula.
use vstd::prelude::*;

use crate::classic::node::{prior_bits, Node};
use crate::classic::params::SearchParams;
use crate::classic::tree::{node_linked, visited_prior, well_linked, NodeArena};
use crate::exact::{
    is_unrounded, lemma_growing_weight, lemma_quotient, lemma_scaling_keeps_sign, rounds_by,
};
use crate::scalar::Scalar;

verus! {

/// The exploration weight of a node with `n` visits: constant, or growing with
/// the logarithm of the visits.
pub open spec fn cpuct_at<S: Scalar>(params: SearchParams<S>, n: u32, is_root: bool) -> S {
    let init = params.spec_cpuct(is_root);
    let k = params.weights.cpuct_factor;
    let base = params.weights.cpuct_base;
    if k.spec_same(S::spec_zero()) {
        init
    } else {
        init.spec_plus(k.spec_times(S::spec_count(n).spec_plus(base).spec_over(base).spec_log()))
    }
}

/// Computes the exploration weight of a node.
pub fn compute_cpuct<S: Scalar>(params: &SearchParams<S>, n: u32, is_root: bool) -> (r: S)
    ensures
        r == cpuct_at(*params, n, is_root),
{
    let init: S = params.cpuct(is_root);
    let k: S = params.cpuct_factor(is_root);
    let base: S = params.cpuct_base(is_root);
    if k.same(S::zero()) {
        init
    } else {
        init.plus(k.times(S::count(n).plus(base).over(base).log()))
    }
}

/// The value of an edge that nobody has visited: fixed, or that of the parent
/// less a reduction that grows with the priors already visited.
pub open spec fn fpu_at<S: Scalar>(
    params: SearchParams<S>,
    nodes: Seq<Node<S>>,
    i: int,
    is_root: bool,
    draw_score: S,
) -> S {
    let value = params.spec_fpu_value(is_root);
    if params.spec_fpu_absolute(is_root) {
        value
    } else {
        nodes[i].spec_q(draw_score.spec_negated()).spec_negated().spec_minus(
            value.spec_times(
                visited_prior(nodes, i, nodes[i].children@.len() as int).spec_root(),
            ),
        )
    }
}

/// Computes the value of an edge that nobody has visited.
pub fn get_fpu<S: Scalar>(
    params: &SearchParams<S>,
    arena: &NodeArena<S>,
    idx: usize,
    is_root: bool,
    draw_score: S,
) -> (r: S)
    requires
        well_linked(arena.nodes@),
        idx < arena.nodes@.len(),
    ensures
        r == fpu_at(*params, arena.nodes@, idx as int, is_root, draw_score),
{
    let value: S = params.fpu_value(is_root);
    if params.fpu_absolute(is_root) {
        value
    } else {
        let visited: S = arena.visited_policy(idx);
        arena.nodes[idx].q(draw_score.negated()).negated().minus(value.times(visited.root()))
    }
}

/// The factor that the priors of a node's edges are multiplied with.
pub open spec fn puct_factor<S: Scalar>(
    params: SearchParams<S>,
    node: Node<S>,
    is_root: bool,
) -> S {
    let visits = if node.n > 2 {
        (node.n - 1) as u32
    } else {
        1
    };
    cpuct_at(params, node.n, is_root).spec_times(S::spec_count(visits).spec_root())
}

/// Computes the factor that the priors of a node's edges are multiplied with.
pub(crate) fn compute_puct_factor<S: Scalar>(
    params: &SearchParams<S>,
    node: &Node<S>,
    is_root: bool,
) -> (r: S)
    ensures
        r == puct_factor(*params, *node, is_root),
{
    let visits: u32 = if node.children_visits() > 1 {
        node.children_visits()
    } else {
        1
    };
    compute_cpuct(params, node.n(), is_root).times(S::count(visits).root())
}

/// The score of an edge: its value and its exploration term.
pub open spec fn edge_score_at<S: Scalar>(
    params: SearchParams<S>,
    nodes: Seq<Node<S>>,
    i: int,
    e: int,
    is_root: bool,
    draw_score: S,
) -> S {
    let (q, started) = match nodes[i].children@[e] {
        Some(c) => (
            if nodes[c as int].n > 0 {
                nodes[c as int].spec_q(draw_score)
            } else {
                fpu_at(params, nodes, i, is_root, draw_score)
            },
            nodes[c as int].spec_n_started(),
        ),
        None => (fpu_at(params, nodes, i, is_root, draw_score), 0),
    };
    q.spec_plus(
        puct_factor(params, nodes[i], is_root).spec_times(
            S::spec_from_bits(prior_bits(nodes[i].edges@[e].p)),
        ).spec_over(S::spec_one().spec_plus(S::spec_count(started as u32))),
    )
}

/// Computes the score of an edge.
pub fn edge_score<S: Scalar>(
    arena: &NodeArena<S>,
    parent: usize,
    edge_idx: usize,
    params: &SearchParams<S>,
    is_root: bool,
    draw_score: S,
) -> (r: S)
    requires
        well_linked(arena.nodes@),
        parent < arena.nodes@.len(),
        edge_idx < arena.nodes@[parent as int].edges@.len(),
    ensures
        r == edge_score_at(
            *params,
            arena.nodes@,
            parent as int,
            edge_idx as int,
            is_root,
            draw_score,
        ),
{
    proof {
        assert(node_linked(arena.nodes@, parent as int));
    }
    let u_coeff: S = compute_puct_factor(params, &arena.nodes[parent], is_root);
    let fpu: S = get_fpu(params, arena, parent, is_root, draw_score);
    let prior: S = S::from_bits(arena.nodes[parent].edges[edge_idx].get_p());
    match arena.nodes[parent].children[edge_idx] {
        Some(c) => {
            assert(arena.nodes@[parent as int].children@[edge_idx as int] == Some(c));
            let q: S = if arena.nodes[c].n > 0 {
                arena.nodes[c].q(draw_score)
            } else {
                fpu
            };
            q.plus(
                u_coeff.times(prior).over(S::one().plus(S::count(arena.nodes[c].n_started()))),
            )
        },
        None => fpu.plus(u_coeff.times(prior).over(S::one().plus(S::count(0)))),
    }
}

/// The priors visited below a node are no less than 0, and 0 where no child was visited.
proof fn lemma_visited_prior_sign<S: Scalar>(
    value: spec_fn(S) -> real,
    round: spec_fn(real) -> real,
    nodes: Seq<Node<S>>,
    i: int,
    k: int,
)
    requires
        rounds_by(value, round),
        0 <= k <= nodes[i].children@.len(),
        forall|p: u16| value(S::spec_from_bits(#[trigger] prior_bits(p))) >= 0real,
    ensures
        value(visited_prior(nodes, i, k)) >= 0real,
        (forall|e: int|
            0 <= e < k ==> (#[trigger] nodes[i].children@[e] matches Some(c) ==> nodes[c as int].n
                == 0)) ==> visited_prior(nodes, i, k) == S::spec_zero(),
    decreases k,
{
    if k > 0 {
        lemma_visited_prior_sign(value, round, nodes, i, k - 1);
        let before = visited_prior(nodes, i, k - 1);
        let prior = value(S::spec_from_bits(prior_bits(nodes[i].edges@[k - 1].p)));
        let zero = value(S::spec_zero());
        assert(round(zero) <= round(value(before) + prior));
    }
}

/// Where it is not fixed, the value of an edge that nobody has visited is no more than the
/// opposite of the node's own, in which draws count for the other side, and just that where
/// no child was visited.
pub proof fn law_unvisited_edge_is_worth_at_most_the_parent<S: Scalar>(
    value: spec_fn(S) -> real,
    params: SearchParams<S>,
    arena: NodeArena<S>,
    idx: usize,
    is_root: bool,
    draw_score: S,
    assumed: S,
)
    requires
        is_unrounded(value),
        !params.spec_fpu_absolute(is_root),
        value(params.spec_fpu_value(is_root)) >= 0real,
        forall|p: u16| value(S::spec_from_bits(#[trigger] prior_bits(p))) >= 0real,
        call_ensures(get_fpu::<S>, (&params, &arena, idx, is_root, draw_score), assumed),
    ensures
        ({
            let node = arena.nodes@[idx as int];
            let opposite = value(draw_score) * value(node.d) - value(node.wl);
            &&& value(assumed) <= opposite
            &&& (forall|e: int|
                0 <= e < node.children@.len() ==> (#[trigger] node.children@[e] matches Some(c)
                    ==> arena.nodes@[c as int].n == 0)) ==> value(assumed) == opposite
        }),
{
    let nodes = arena.nodes@;
    let i = idx as int;
    let node = nodes[i];
    let k = node.children@.len() as int;
    let visited = visited_prior(nodes, i, k);
    lemma_visited_prior_sign(value, |r: real| r, nodes, i, k);
    lemma_scaling_keeps_sign(
        value,
        |r: real| r,
        visited.spec_root(),
        params.spec_fpu_value(is_root),
    );
    let (x, y) = (value(draw_score), value(node.d));
    assert((-x) * y == -(x * y)) by (nonlinear_arith);
}

/// A fixed value of unvisited edges is the same wherever it is asked for.
pub proof fn law_fixed_value_of_unvisited_edges<S: Scalar>(
    params: SearchParams<S>,
    arena: NodeArena<S>,
    idx: usize,
    draw_score: S,
    assumed: S,
)
    requires
        params.fpu_absolute,
        call_ensures(get_fpu::<S>, (&params, &arena, idx, false, draw_score), assumed),
    ensures
        assumed == params.weights.fpu_value,
{
}

/// Where nothing is rounded, two visited children with the same prior and as many visits
/// begun differ in their scores by the difference of their own values, in which draws count
/// as much as they are worth.
pub proof fn law_scores_differ_by_the_values<S: Scalar>(
    value: spec_fn(S) -> real,
    arena: NodeArena<S>,
    parent: usize,
    e: usize,
    f: usize,
    params: SearchParams<S>,
    is_root: bool,
    draw_score: S,
    first: S,
    second: S,
)
    requires
        is_unrounded(value),
        arena.nodes@[parent as int].children@[e as int] is Some,
        arena.nodes@[parent as int].children@[f as int] is Some,
        arena.nodes@[parent as int].edges@[e as int].p == arena.nodes@[parent as int].edges@[f as int].p,
        ({
            let a = arena.nodes@[arena.nodes@[parent as int].children@[e as int]->Some_0 as int];
            let b = arena.nodes@[arena.nodes@[parent as int].children@[f as int]->Some_0 as int];
            a.n > 0 && b.n > 0 && a.spec_n_started() == b.spec_n_started()
        }),
        call_ensures(edge_score::<S>, (&arena, parent, e, &params, is_root, draw_score), first),
        call_ensures(edge_score::<S>, (&arena, parent, f, &params, is_root, draw_score), second),
    ensures
        ({
            let a = arena.nodes@[arena.nodes@[parent as int].children@[e as int]->Some_0 as int];
            let b = arena.nodes@[arena.nodes@[parent as int].children@[f as int]->Some_0 as int];
            value(first) - value(second) == (value(a.wl) + value(draw_score) * value(a.d)) - (
            value(b.wl) + value(draw_score) * value(b.d))
        }),
{
}

/// The visits begun behind an edge.
pub open spec fn begun_behind<S: Scalar>(nodes: Seq<Node<S>>, i: int, e: int) -> int {
    match nodes[i].children@[e] {
        Some(c) => nodes[c as int].spec_n_started(),
        None => 0,
    }
}

proof fn lemma_proportion(x: real, y: real, w: real, p: real, q: real, one: real, n: real)
    requires
        one == 1real,
        x * one == w * p,
        y * n == w * q,
    ensures
        x * q == y * n * p,
{
    assert(x * one == x) by (nonlinear_arith)
        requires
            one == 1real,
    ;
    assert((w * p) * q == (w * q) * p) by (nonlinear_arith);
}

/// What the score of an edge that nobody has visited adds to the assumed value.
proof fn lemma_unvisited_bonus<S: Scalar>(
    value: spec_fn(S) -> real,
    params: SearchParams<S>,
    nodes: Seq<Node<S>>,
    i: int,
    e: int,
    is_root: bool,
    draw_score: S,
) -> (bonus: real)
    requires
        is_unrounded(value),
        nodes[i].children@[e] matches Some(c) ==> nodes[c as int].n == 0,
        0 <= begun_behind(nodes, i, e) <= u32::MAX,
    ensures
        value(edge_score_at(params, nodes, i, e, is_root, draw_score)) == value(
            fpu_at(params, nodes, i, is_root, draw_score),
        ) + bonus,
        bonus * (1real + (begun_behind(nodes, i, e) as real)) == value(
            puct_factor(params, nodes[i], is_root),
        ) * value(S::spec_from_bits(prior_bits(nodes[i].edges@[e].p))),
{
    let fpu = fpu_at(params, nodes, i, is_root, draw_score);
    let prior = S::spec_from_bits(prior_bits(nodes[i].edges@[e].p));
    let product = puct_factor(params, nodes[i], is_root).spec_times(prior);
    let divisor = S::spec_one().spec_plus(S::spec_count(begun_behind(nodes, i, e) as u32));
    assert(edge_score_at(params, nodes, i, e, is_root, draw_score) == fpu.spec_plus(
        product.spec_over(divisor),
    ));
    assert(value(divisor) == 1real + (begun_behind(nodes, i, e) as real));
    lemma_quotient(value, product, divisor);
    value(product.spec_over(divisor))
}

/// Where nothing is rounded, the bonus of a child for its prior wears off with the visits
/// begun: of two edges of a node, each bonus times the visits begun and one more stands in
/// the proportion of the priors.
pub proof fn law_bonus_wears_off<S: Scalar>(
    value: spec_fn(S) -> real,
    arena: NodeArena<S>,
    parent: usize,
    e: usize,
    f: usize,
    params: SearchParams<S>,
    is_root: bool,
    draw_score: S,
    assumed: S,
    first: S,
    second: S,
)
    requires
        is_unrounded(value),
        arena.nodes@[parent as int].children@[e as int] is None,
        arena.nodes@[parent as int].children@[f as int] matches Some(c)
            ==> arena.nodes@[c as int].n == 0 && arena.nodes@[c as int].spec_n_started()
            <= u32::MAX,
        call_ensures(get_fpu::<S>, (&params, &arena, parent, is_root, draw_score), assumed),
        call_ensures(edge_score::<S>, (&arena, parent, e, &params, is_root, draw_score), first),
        call_ensures(edge_score::<S>, (&arena, parent, f, &params, is_root, draw_score), second),
    ensures
        ({
            let node = arena.nodes@[parent as int];
            let started = begun_behind(arena.nodes@, parent as int, f as int);
            let p = value(S::spec_from_bits(prior_bits(node.edges@[e as int].p)));
            let q = value(S::spec_from_bits(prior_bits(node.edges@[f as int].p)));
            (value(first) - value(assumed)) * q == (value(second) - value(assumed)) * (1real + (
            started as real)) * p
        }),
{
    let nodes = arena.nodes@;
    let node = nodes[parent as int];
    let (d, at) = (draw_score, parent as int);
    let x = lemma_unvisited_bonus(value, params, nodes, at, e as int, is_root, d);
    let y = lemma_unvisited_bonus(value, params, nodes, at, f as int, is_root, d);
    let w = value(puct_factor(params, node, is_root));
    let p = value(S::spec_from_bits(prior_bits(node.edges@[e as int].p)));
    let q = value(S::spec_from_bits(prior_bits(node.edges@[f as int].p)));
    let n = 1real + (begun_behind(nodes, at, f as int) as real);
    assert(x == value(first) - value(assumed));
    assert(y == value(second) - value(assumed));
    assert(begun_behind(nodes, at, e as int) == 0);
    lemma_proportion(x, y, w, p, q, 1real + (0int as real), n);
}

/// Where nothing is rounded, a node without visits explores with the constant alone, and
/// one with more visits explores no less.
pub proof fn law_exploration_grows_with_visits<S: Scalar>(
    value: spec_fn(S) -> real,
    params: SearchParams<S>,
    is_root: bool,
    visits: u32,
    more_visits: u32,
    weight: S,
    larger_weight: S,
)
    requires
        is_unrounded(value),
        value(params.weights.cpuct_factor) >= 0real,
        value(params.weights.cpuct_base) > 0real,
        visits <= more_visits,
        call_ensures(compute_cpuct::<S>, (&params, visits, is_root), weight),
        call_ensures(compute_cpuct::<S>, (&params, more_visits, is_root), larger_weight),
    ensures
        ({
            let constant = if is_root && params.root_has_own_cpuct_params {
                value(params.weights.cpuct_at_root)
            } else {
                value(params.weights.cpuct)
            };
            &&& constant <= value(weight) <= value(larger_weight)
            &&& visits == 0 ==> value(weight) == constant
        }),
{
    lemma_growing_weight(
        value,
        params.spec_cpuct(is_root),
        params.weights.cpuct_factor,
        params.weights.cpuct_base,
        visits,
        more_visits,
    );
}

} // verus!
