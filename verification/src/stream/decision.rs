//! What a search answers once it is over: its best move, its lines and its figures.
use vstd::prelude::*;

use crate::classic::search::halved;
use crate::exact::{
    is_unrounded, lemma_counts, lemma_quotient, lemma_scaling_keeps_sign, rounds_by,
};
use crate::position::{contains_move, orient_move, oriented, Move};
use crate::scalar::{clamp_to, clamped, Scalar};
use crate::sorting::{ranked_by, sort_by, Comparison};
use crate::stream::param::{DecisionRule, SearchParams};
use crate::stream::tree::{leads_forward, Edge, ExpansionState, Node, NodeArena, NodeId, NodeModel};

verus! {

/// The figures of an edge of the root.
#[derive(Clone, Copy, Debug)]
pub struct RootEdgeStats<S> {
    pub mv: Move,
    pub completed_visits: u32,
    /// Visits begun, completed or not.
    pub started_visits: u32,
    pub q: S,
    pub variance: S,
    pub prior: S,
}

/// The figures of the root.
#[derive(Debug)]
pub struct RootStats<S> {
    pub completed_visits: u32,
    pub q: S,
    pub draw: S,
    pub edges: Vec<RootEdgeStats<S>>,
}

/// A candidate of the root, with its value for the side to move and its line.
#[derive(Debug)]
pub struct RootVariation<S> {
    pub wl: S,
    pub draw: S,
    pub mate: Option<i32>,
    pub pv: Vec<Move>,
}

/// The figures of an edge.
pub open spec fn edge_figures<S: Scalar>(edge: Edge<S>) -> RootEdgeStats<S> {
    RootEdgeStats {
        mv: edge.mv,
        completed_visits: edge.stats.visits,
        started_visits: edge.started,
        q: edge.stats.spec_q(),
        variance: edge.stats.spec_variance(),
        prior: edge.prior,
    }
}

/// The figures of a node, if it is there.
pub fn root_stats<S: Scalar>(arena: &NodeArena<S>, root: NodeId) -> (r: Option<RootStats<S>>)
    ensures
        r is Some == (root < arena@.len()),
        r matches Some(stats) ==> {
            let node = arena@[root as int];
            &&& stats.completed_visits == node.stats.visits
            &&& stats.q == node.spec_q()
            &&& stats.draw == node.mean(node.stats.draw_sum)
            &&& stats.edges@ == node.edges.map_values(|edge: Edge<S>| edge_figures(edge))
        },
{
    let node: &Node<S> = match arena.get(root) {
        Some(node) => node,
        None => {
            return None;
        },
    };
    let mut edges: Vec<RootEdgeStats<S>> = Vec::new();
    let mut k: usize = 0;
    while k < node.edges.len()
        invariant
            k <= node.edges@.len(),
            edges@.len() == k,
            forall|j: int| 0 <= j < k ==> #[trigger] edges@[j] == edge_figures(node.edges@[j]),
        decreases node.edges@.len() - k,
    {
        let edge: &Edge<S> = &node.edges[k];
        edges.push(
            RootEdgeStats {
                mv: edge.mv(),
                completed_visits: edge.completed_visits(),
                started_visits: edge.visits(),
                q: edge.q(),
                variance: edge.stats.variance(),
                prior: edge.prior(),
            },
        );
        k += 1;
    }
    assert(edges@ =~= node.edges@.map_values(|edge: Edge<S>| edge_figures(edge)));
    Some(
        RootStats { completed_visits: node.completed_visits(), q: node.q(), draw: node.draw(), edges },
    )
}

/// The score by which a rule ranks an edge.
pub open spec fn spec_decision_score<S: Scalar>(
    edge: Edge<S>,
    max_visits: u32,
    params: SearchParams<S>,
) -> S {
    let q = edge.stats.spec_q();
    match params.decision_rule {
        DecisionRule::Auto => S::spec_count(edge.stats.visits),
        DecisionRule::MaxN => S::spec_count(edge.stats.visits),
        DecisionRule::MaxQ => q,
        DecisionRule::Lcb => q.spec_minus(
            params.decision_lcb_stdevs.spec_times(edge.stats.spec_standard_error()),
        ),
        DecisionRule::Ucb => q.spec_plus(
            params.decision_ucb_stdevs.spec_times(edge.stats.spec_standard_error()),
        ),
        DecisionRule::MixNQ => q.spec_plus(
            params.decision_mix_n_weight.spec_times(S::spec_count(edge.stats.visits)).spec_over(
                S::spec_count(
                    if max_visits > 1 {
                        max_visits
                    } else {
                        1
                    },
                ),
            ),
        ),
    }
}

fn decision_score<S: Scalar>(edge: &Edge<S>, max_visits: u32, params: &SearchParams<S>) -> (r: S)
    ensures
        r == spec_decision_score(*edge, max_visits, *params),
{
    let q: S = edge.q();
    match params.decision_rule {
        DecisionRule::Auto => S::count(edge.completed_visits()),
        DecisionRule::MaxN => S::count(edge.completed_visits()),
        DecisionRule::MaxQ => q,
        DecisionRule::Lcb => q.minus(
            params.decision_lcb_stdevs.times(edge.stats.standard_error()),
        ),
        DecisionRule::Ucb => q.plus(params.decision_ucb_stdevs.times(edge.stats.standard_error())),
        DecisionRule::MixNQ => {
            let most: u32 = if max_visits > 1 {
                max_visits
            } else {
                1
            };
            q.plus(
                params.decision_mix_n_weight.times(S::count(edge.completed_visits())).over(
                    S::count(most),
                ),
            )
        },
    }
}

/// An edge with what decides its place.
#[derive(Clone, Copy, Debug)]
pub struct RankedEdge<S> {
    pub edge: usize,
    pub score: S,
    pub visits: u32,
    pub q: S,
    pub prior: S,
}

impl<S: Scalar> RankedEdge<S> {
    /// By score, then visits, then value, then prior.
    pub open spec fn spec_is_better(self, other: Self) -> bool {
        if self.score.spec_total_key() != other.score.spec_total_key() {
            self.score.spec_total_key() > other.score.spec_total_key()
        } else if self.visits != other.visits {
            self.visits > other.visits
        } else if self.q.spec_total_key() != other.q.spec_total_key() {
            self.q.spec_total_key() > other.q.spec_total_key()
        } else {
            self.prior.spec_total_key() > other.prior.spec_total_key()
        }
    }
}

struct ByScore {}

impl<S: Scalar> Comparison<RankedEdge<S>> for ByScore {
    open spec fn can_compare(&self, a: RankedEdge<S>, b: RankedEdge<S>) -> bool {
        true
    }

    open spec fn spec_is_better(&self, a: RankedEdge<S>, b: RankedEdge<S>) -> bool {
        a.spec_is_better(b)
    }

    fn is_better(&self, a: RankedEdge<S>, b: RankedEdge<S>) -> (r: bool) {
        if a.score.total_key() != b.score.total_key() {
            return a.score.total_key() > b.score.total_key();
        }
        if a.visits != b.visits {
            return a.visits > b.visits;
        }
        if a.q.total_key() != b.q.total_key() {
            return a.q.total_key() > b.q.total_key();
        }
        a.prior.total_key() > b.prior.total_key()
    }
}

/// Whether the filter lets an edge pass.
pub open spec fn passes<S: Scalar>(edge: Edge<S>, filter: Seq<Move>) -> bool {
    filter.len() == 0 || filter.contains(edge.mv)
}

/// The most visits among those of the first `k` edges that pass.
pub open spec fn most_visits<S: Scalar>(edges: Seq<Edge<S>>, filter: Seq<Move>, k: int) -> u32
    decreases k,
{
    if k <= 0 {
        0
    } else {
        let before = most_visits(edges, filter, k - 1);
        if passes(edges[k - 1], filter) && edges[k - 1].stats.visits > before {
            edges[k - 1].stats.visits
        } else {
            before
        }
    }
}

/// An edge as it is ranked.
pub open spec fn as_ranked<S: Scalar>(
    edges: Seq<Edge<S>>,
    i: int,
    max_visits: u32,
    params: SearchParams<S>,
) -> RankedEdge<S> {
    RankedEdge {
        edge: i as usize,
        score: spec_decision_score(edges[i], max_visits, params),
        visits: edges[i].stats.visits,
        q: edges[i].stats.spec_q(),
        prior: edges[i].prior,
    }
}

/// Those of the first `k` edges that pass, in order.
pub open spec fn passing<S: Scalar>(
    edges: Seq<Edge<S>>,
    filter: Seq<Move>,
    max_visits: u32,
    params: SearchParams<S>,
    k: int,
) -> Seq<RankedEdge<S>>
    decreases k,
{
    if k <= 0 {
        Seq::empty()
    } else {
        let before = passing(edges, filter, max_visits, params, k - 1);
        if passes(edges[k - 1], filter) {
            before.push(as_ranked(edges, k - 1, max_visits, params))
        } else {
            before
        }
    }
}

/// Whether a list holds the edges that pass, best first.
#[verifier::opaque]
pub open spec fn is_ranking<S: Scalar>(
    ranked: Seq<RankedEdge<S>>,
    edges: Seq<Edge<S>>,
    filter: Seq<Move>,
    params: SearchParams<S>,
) -> bool {
    let n = edges.len() as int;
    let most = most_visits(edges, filter, n);
    &&& ranked.to_multiset() == passing(edges, filter, most, params, n).to_multiset()
    &&& ranked_by(ranked, |a: RankedEdge<S>, b: RankedEdge<S>| a.spec_is_better(b))
}

/// Whether every entry is an edge that passes.
pub open spec fn are_edges<S: Scalar>(
    ranked: Seq<RankedEdge<S>>,
    edges: Seq<Edge<S>>,
    filter: Seq<Move>,
) -> bool {
    forall|i: int|
        0 <= i < ranked.len() ==> (#[trigger] ranked[i]).edge < edges.len() && passes(
            edges[ranked[i].edge as int],
            filter,
        )
}

proof fn lemma_passing_in_range<S: Scalar>(
    edges: Seq<Edge<S>>,
    filter: Seq<Move>,
    max_visits: u32,
    params: SearchParams<S>,
    k: int,
)
    requires
        0 <= k <= edges.len() <= usize::MAX,
    ensures
        are_edges(passing(edges, filter, max_visits, params, k), edges, filter),
    decreases k,
{
    if k > 0 {
        lemma_passing_in_range(edges, filter, max_visits, params, k - 1);
    }
}

/// Ranks the edges of a node by the rule, best first.
pub fn ranked_edges<S: Scalar>(
    edges: &Vec<Edge<S>>,
    filter: &Vec<Move>,
    params: &SearchParams<S>,
) -> (r: Vec<RankedEdge<S>>)
    ensures
        is_ranking(r@, edges@, filter@, *params),
        are_edges(r@, edges@, filter@),
        r@.len() > 0 <==> exists|i: int|
            0 <= i < edges@.len() && passes(#[trigger] edges@[i], filter@),
{
    let count: usize = edges.len();
    let mut most: u32 = 0;
    let mut k: usize = 0;
    while k < count
        invariant
            count == edges@.len(),
            k <= count,
            most == most_visits(edges@, filter@, k as int),
        decreases count - k,
    {
        if (filter.is_empty() || contains_move(filter, edges[k].mv())) && edges[k].completed_visits()
            > most {
            most = edges[k].completed_visits();
        }
        k += 1;
    }
    let mut listed: Vec<RankedEdge<S>> = Vec::new();
    let mut k: usize = 0;
    while k < count
        invariant
            count == edges@.len(),
            k <= count,
            listed@ == passing(edges@, filter@, most, *params, k as int),
            listed@.len() > 0 <==> exists|i: int|
                0 <= i < k && passes(#[trigger] edges@[i], filter@),
        decreases count - k,
    {
        let edge: &Edge<S> = &edges[k];
        if filter.is_empty() || contains_move(filter, edge.mv()) {
            assert(passes(edges@[k as int], filter@));
            listed.push(
                RankedEdge {
                    edge: k,
                    score: decision_score(edge, most, params),
                    visits: edge.completed_visits(),
                    q: edge.q(),
                    prior: edge.prior(),
                },
            );
        }
        k += 1;
    }
    proof {
        lemma_passing_in_range(edges@, filter@, most, *params, count as int);
    }
    let ranked: Vec<RankedEdge<S>> = sort_by(&listed, &ByScore {  });
    proof {
        reveal(is_ranking);
        assert((|a: RankedEdge<S>, b: RankedEdge<S>| (ByScore {  }).spec_is_better(a, b)) =~= (|
            a: RankedEdge<S>,
            b: RankedEdge<S>,
        | a.spec_is_better(b)));
        assert forall|i: int| 0 <= i < ranked@.len() implies (#[trigger] ranked@[i]).edge
            < edges@.len() && passes(edges@[ranked@[i].edge as int], filter@) by {
            assert(ranked@.contains(ranked@[i]));
            let j = choose|j: int| 0 <= j < listed@.len() && listed@[j] == ranked@[i];
            assert(listed@[j].edge < edges@.len());
        }
    }
    ranked
}

/// Whether an edge is the first of a ranking, or none where no edge passes.
pub open spec fn is_best<S: Scalar>(
    edges: Seq<Edge<S>>,
    filter: Seq<Move>,
    params: SearchParams<S>,
    choice: Option<usize>,
) -> bool {
    exists|ranked: Seq<RankedEdge<S>>| #[trigger]
        is_ranking(ranked, edges, filter, params) && are_edges(ranked, edges, filter) && choice == (
        if ranked.len() > 0 {
            Some(ranked[0].edge)
        } else {
            None
        })
}

fn best_edge<S: Scalar>(edges: &Vec<Edge<S>>, filter: &Vec<Move>, params: &SearchParams<S>) -> (r:
    Option<usize>)
    ensures
        is_best(edges@, filter@, *params, r),
        r is Some <==> exists|i: int| 0 <= i < edges@.len() && passes(#[trigger] edges@[i], filter@),
        r matches Some(e) ==> e < edges@.len() && passes(edges@[e as int], filter@),
{
    let ranked: Vec<RankedEdge<S>> = ranked_edges(edges, filter, params);
    assert(is_ranking(ranked@, edges@, filter@, *params));
    if ranked.is_empty() {
        None
    } else {
        assert(ranked@[0].edge < edges@.len());
        Some(ranked[0].edge)
    }
}

/// Whether a move is the best of a node, in the coordinates of the side to move.
pub open spec fn is_best_move<S: Scalar>(
    nodes: Seq<NodeModel<S>>,
    root: NodeId,
    root_is_black: bool,
    filter: Seq<Move>,
    params: SearchParams<S>,
    answer: Option<Move>,
) -> bool {
    if root < nodes.len() {
        exists|choice: Option<usize>| #[trigger]
            is_best(nodes[root as int].edges, filter, params, choice) && answer == (match choice {
                Some(e) => Some(
                    oriented(nodes[root as int].edges[e as int].mv, root_is_black),
                ),
                None => None,
            })
    } else {
        answer is None
    }
}

/// The best move of the root, restricted to some moves.
pub fn best_move_filtered_with_params<S: Scalar>(
    arena: &NodeArena<S>,
    root: NodeId,
    root_is_black: bool,
    filter: &Vec<Move>,
    params: &SearchParams<S>,
) -> (r: Option<Move>)
    ensures
        is_best_move(arena@, root, root_is_black, filter@, *params, r),
        r is Some <==> root < arena@.len() && exists|i: int|
            0 <= i < arena@[root as int].edges.len() && passes(
                #[trigger] arena@[root as int].edges[i],
                filter@,
            ),
{
    let node: &Node<S> = match arena.get(root) {
        Some(node) => node,
        None => {
            return None;
        },
    };
    let choice: Option<usize> = best_edge(&node.edges, filter, params);
    assert(is_best(arena@[root as int].edges, filter@, *params, choice));
    match choice {
        Some(e) => Some(orient_move(node.edges[e].mv(), root_is_black)),
        None => None,
    }
}

/// The best move of the root.
pub fn best_move_with_params<S: Scalar>(
    arena: &NodeArena<S>,
    root: NodeId,
    root_is_black: bool,
    params: &SearchParams<S>,
) -> (r: Option<Move>)
    ensures
        is_best_move(arena@, root, root_is_black, Seq::empty(), *params, r),
{
    let none: Vec<Move> = Vec::new();
    assert(none@ =~= Seq::<Move>::empty());
    best_move_filtered_with_params(arena, root, root_is_black, &none, params)
}

/// The best move of the root with the default parameters.
pub fn best_move<S: Scalar>(arena: &NodeArena<S>, root: NodeId, root_is_black: bool) -> (r: Option<
    Move,
>)
    ensures
        is_best_move(
            arena@,
            root,
            root_is_black,
            Seq::empty(),
            SearchParams::spec_default(),
            r,
        ),
{
    let params: SearchParams<S> = SearchParams::default();
    best_move_with_params(arena, root, root_is_black, &params)
}

/// The moves to mate of a known result, positive where the side that moved in wins.
pub open spec fn mate_of<S: Scalar>(result: Option<(S, S, S)>) -> Option<int> {
    match result {
        Some((wl, _, m)) => if wl.spec_same(S::spec_zero()) {
            None
        } else {
            let distance = halved(m.spec_rounded() as int) + 1;
            if wl.spec_above(S::spec_zero()) {
                Some(distance)
            } else {
                Some(-distance)
            }
        },
        None => None,
    }
}

fn mate<S: Scalar>(result: Option<(S, S, S)>) -> (r: Option<i32>)
    ensures
        r is Some == mate_of(result) is Some,
        r matches Some(distance) ==> Some(distance as int) == mate_of(result),
{
    match result {
        Some((wl, _, m)) => {
            if wl.same(S::zero()) {
                return None;
            }
            let plies: i64 = m.rounded() as i64;
            let half: i64 = if plies < 0 {
                -(((-plies) as u64 / 2) as i64)
            } else {
                (plies as u64 / 2) as i64
            };
            if wl.above(S::zero()) {
                Some((half + 1) as i32)
            } else {
                Some((-(half + 1)) as i32)
            }
        },
        None => None,
    }
}

/// The result behind an edge, if it is known.
pub open spec fn result_behind<S: Scalar>(nodes: Seq<NodeModel<S>>, edge: Edge<S>) -> Option<
    (S, S, S),
> {
    match edge.child {
        Some(c) => if c < nodes.len() {
            nodes[c as int].terminal
        } else {
            None
        },
        None => None,
    }
}

pub(crate) fn child_result<S: Scalar>(arena: &NodeArena<S>, edge: &Edge<S>) -> (r: Option<(S, S, S)>)
    ensures
        r == result_behind(arena@, *edge),
{
    match edge.child() {
        Some(c) => match arena.get(c) {
            Some(node) => node.terminal_value(),
            None => None,
        },
        None => None,
    }
}

/// The moves to mate that the best move of the root leads to: positive where the side to
/// move wins. A root with a known result has its own.
pub fn best_mate_with_params<S: Scalar>(
    arena: &NodeArena<S>,
    root: NodeId,
    filter: &Vec<Move>,
    params: &SearchParams<S>,
) -> (r: Option<i32>)
    ensures
        ({
            let answer = match r {
                Some(distance) => Some(distance as int),
                None => None,
            };
            if root >= arena@.len() {
                r is None
            } else if arena@[root as int].terminal is Some {
                answer == (match mate_of(arena@[root as int].terminal) {
                    Some(distance) => Some(-distance),
                    None => None,
                })
            } else {
                exists|choice: Option<usize>| #[trigger]
                    is_best(arena@[root as int].edges, filter@, *params, choice) && answer
                        == match choice {
                        Some(e) => mate_of(
                            result_behind(arena@, arena@[root as int].edges[e as int]),
                        ),
                        None => None,
                    }
            }
        }),
{
    let node: &Node<S> = match arena.get(root) {
        Some(node) => node,
        None => {
            return None;
        },
    };
    if node.terminal_value().is_some() {
        return match mate(node.terminal_value()) {
            Some(distance) => Some(-distance),
            None => None,
        };
    }
    let choice: Option<usize> = best_edge(&node.edges, filter, params);
    assert(is_best(arena@[root as int].edges, filter@, *params, choice));
    match choice {
        Some(e) => mate(child_result(arena, &node.edges[e])),
        None => None,
    }
}

/// Whether `pv` is a line of best moves from a node on, chosen with the default
/// parameters, up to a node without visits or edges.
#[verifier::opaque]
pub open spec fn is_line<S: Scalar>(
    nodes: Seq<NodeModel<S>>,
    id: NodeId,
    flip: bool,
    pv: Seq<Move>,
) -> bool
    decreases pv.len(),
{
    let node = nodes[id as int];
    if id >= nodes.len() || node.stats.visits == 0 || node.state != ExpansionState::Expanded {
        pv.len() == 0
    } else {
        exists|choice: Option<usize>| #[trigger]
            is_best(
                nodes[id as int].edges,
                Seq::empty(),
                SearchParams::spec_default(),
                choice,
            ) && match choice {
                Some(e) => {
                    &&& pv.len() > 0
                    &&& pv[0] == oriented(nodes[id as int].edges[e as int].mv, flip)
                    &&& match nodes[id as int].edges[e as int].child {
                        Some(next) => is_line(nodes, next, !flip, pv.skip(1)),
                        None => pv.len() == 1,
                    }
                },
                None => pv.len() == 0,
            }
    }
}

/// Whether `pv` is a line of best moves that begins with an edge.
pub open spec fn is_line_by<S: Scalar>(
    nodes: Seq<NodeModel<S>>,
    edge: Edge<S>,
    flip: bool,
    pv: Seq<Move>,
) -> bool {
    &&& pv.len() > 0
    &&& pv[0] == oriented(edge.mv, flip)
    &&& match edge.child {
        Some(next) => is_line(nodes, next, !flip, pv.skip(1)),
        None => pv.len() == 1,
    }
}

proof fn lemma_line<S: Scalar>(
    nodes: Seq<NodeModel<S>>,
    id: NodeId,
    flip: bool,
    choice: Option<usize>,
    pv: Seq<Move>,
)
    requires
        id >= nodes.len() || nodes[id as int].stats.visits == 0 || nodes[id as int].state
            != ExpansionState::Expanded ==> pv.len() == 0,
        id < nodes.len() && nodes[id as int].stats.visits > 0 && nodes[id as int].state
            == ExpansionState::Expanded ==> is_best(
            nodes[id as int].edges,
            Seq::empty(),
            SearchParams::spec_default(),
            choice,
        ) && match choice {
            Some(e) => is_line_by(nodes, nodes[id as int].edges[e as int], flip, pv),
            None => pv.len() == 0,
        },
    ensures
        is_line(nodes, id, flip, pv),
{
    reveal(is_line);
}

/// The line of best moves that begins with an edge.
fn pv_from_edge<S: Scalar>(arena: &NodeArena<S>, first: &Edge<S>, flip: bool) -> (pv: Vec<Move>)
    requires
        arena.wf(),
        first.child matches Some(c) ==> c < arena@.len(),
    ensures
        is_line_by(arena@, *first, flip, pv@),
    decreases
            arena@.len() - (match first.child {
                Some(c) => c as int,
                None => arena@.len() as int,
            }),
{
    let mut pv: Vec<Move> = Vec::new();
    let next: NodeId = match first.child() {
        Some(next) => next,
        None => {
            pv.push(orient_move(first.mv(), flip));
            return pv;
        },
    };
    let node: &Node<S> = arena.get(next).unwrap();
    if node.completed_visits() > 0 && node.expansion_state() == ExpansionState::Expanded {
        let none: Vec<Move> = Vec::new();
        assert(none@ =~= Seq::<Move>::empty());
        let params: SearchParams<S> = SearchParams::default();
        let choice: Option<usize> = best_edge(&node.edges, &none, &params);
        match choice {
            Some(e) => {
                let edge: Edge<S> = node.edges[e];
                proof {
                    assert(arena@[next as int].edges[e as int] == edge);
                    assert(leads_forward(arena@));
                }
                pv = pv_from_edge(arena, &edge, !flip);
            },
            None => {},
        }
        proof {
            lemma_line(arena@, next, !flip, choice, pv@);
        }
    } else {
        proof {
            lemma_line(arena@, next, !flip, None, pv@);
        }
    }
    let ghost tail = pv@;
    pv.insert(0, orient_move(first.mv(), flip));
    assert(pv@.skip(1) =~= tail);
    pv
}

/// Whether `pv` is a line of best moves from the root on.
pub open spec fn is_principal_variation<S: Scalar>(
    nodes: Seq<NodeModel<S>>,
    root: NodeId,
    root_is_black: bool,
    filter: Seq<Move>,
    params: SearchParams<S>,
    pv: Seq<Move>,
) -> bool {
    if root >= nodes.len() {
        pv.len() == 0
    } else {
        exists|choice: Option<usize>| #[trigger]
            is_best(nodes[root as int].edges, filter, params, choice) && match choice {
                Some(e) => is_line_by(
                    nodes,
                    nodes[root as int].edges[e as int],
                    root_is_black,
                    pv,
                ),
                None => pv.len() == 0,
            }
    }
}

/// The line of best moves from the root on, restricted to some moves at the root.
pub fn principal_variation_with_params<S: Scalar>(
    arena: &NodeArena<S>,
    root: NodeId,
    root_is_black: bool,
    filter: &Vec<Move>,
    params: &SearchParams<S>,
) -> (pv: Vec<Move>)
    requires
        arena.wf(),
    ensures
        is_principal_variation(arena@, root, root_is_black, filter@, *params, pv@),
{
    let node: &Node<S> = match arena.get(root) {
        Some(node) => node,
        None => {
            return Vec::new();
        },
    };
    let choice: Option<usize> = best_edge(&node.edges, filter, params);
    assert(is_best(arena@[root as int].edges, filter@, *params, choice));
    match choice {
        Some(e) => {
            let edge: Edge<S> = node.edges[e];
            proof {
                assert(arena@[root as int].edges[e as int] == edge);
                assert(leads_forward(arena@));
            }
            pv_from_edge(arena, &edge, root_is_black)
        },
        None => Vec::new(),
    }
}

/// The line of best moves from the root on, with the default parameters.
pub fn principal_variation<S: Scalar>(
    arena: &NodeArena<S>,
    root: NodeId,
    root_is_black: bool,
) -> (pv: Vec<Move>)
    requires
        arena.wf(),
    ensures
        is_principal_variation(
            arena@,
            root,
            root_is_black,
            Seq::empty(),
            SearchParams::spec_default(),
            pv@,
        ),
{
    let none: Vec<Move> = Vec::new();
    assert(none@ =~= Seq::<Move>::empty());
    let params: SearchParams<S> = SearchParams::default();
    principal_variation_with_params(arena, root, root_is_black, &none, &params)
}

/// Whether a report is that of an edge of the root. An edge without visits is shown with
/// the value of the root.
pub open spec fn is_variation_of<S: Scalar>(
    variation: RootVariation<S>,
    nodes: Seq<NodeModel<S>>,
    root: NodeId,
    root_is_black: bool,
    edge: Edge<S>,
) -> bool {
    let node = nodes[root as int];
    let one = S::spec_one();
    let zero = S::spec_zero();
    let visited = edge.stats.visits > 0;
    let child = edge.child;
    let mate = if visited {
        mate_of(result_behind(nodes, edge))
    } else {
        None
    };
    &&& variation.wl == (if visited {
        edge.stats.spec_q()
    } else {
        clamped(one.spec_negated(), node.spec_q().spec_negated(), one)
    })
    &&& variation.draw == (if visited && child is Some && child->Some_0 < nodes.len() {
        let behind = nodes[child->Some_0 as int];
        behind.mean(behind.stats.draw_sum)
    } else {
        clamped(zero, node.mean(node.stats.draw_sum), one)
    })
    &&& variation.mate is Some == mate is Some
    &&& (variation.mate matches Some(distance) ==> Some(distance as int) == mate)
    &&& is_line_by(nodes, edge, root_is_black, variation.pv@)
}

/// Whether a report holds the first lines of a ranking.
pub open spec fn are_variations<S: Scalar>(
    variations: Seq<RootVariation<S>>,
    ranked: Seq<RankedEdge<S>>,
    nodes: Seq<NodeModel<S>>,
    root: NodeId,
    root_is_black: bool,
    max_pv: int,
) -> bool {
    &&& variations.len() == (if max_pv < ranked.len() {
        max_pv
    } else {
        ranked.len() as int
    })
    &&& forall|k: int|
        0 <= k < variations.len() ==> is_variation_of(
            #[trigger] variations[k],
            nodes,
            root,
            root_is_black,
            nodes[root as int].edges[ranked[k].edge as int],
        )
}

/// Reports the best candidates of the root, best first.
pub fn root_variations<S: Scalar>(
    arena: &NodeArena<S>,
    root: NodeId,
    root_is_black: bool,
    filter: &Vec<Move>,
    max_pv: usize,
    params: &SearchParams<S>,
) -> (r: Vec<RootVariation<S>>)
    requires
        arena.wf(),
    ensures
        root >= arena@.len() ==> r@.len() == 0,
        root < arena@.len() ==> exists|ranked: Seq<RankedEdge<S>>| #[trigger]
            is_ranking(ranked, arena@[root as int].edges, filter@, *params) && are_variations(
                r@,
                ranked,
                arena@,
                root,
                root_is_black,
                max_pv as int,
            ),
{
    let mut variations: Vec<RootVariation<S>> = Vec::new();
    let node: &Node<S> = match arena.get(root) {
        Some(node) => node,
        None => {
            return variations;
        },
    };
    let default_wl: S = clamp_to(S::one().negated(), node.q().negated(), S::one());
    let default_draw: S = clamp_to(S::zero(), node.draw(), S::one());
    let ranked: Vec<RankedEdge<S>> = ranked_edges(&node.edges, filter, params);
    let mut k: usize = 0;
    while k < ranked.len() && k < max_pv
        invariant
            arena.wf(),
            root < arena@.len(),
            node@ == arena@[root as int],
            default_wl == clamped(
                S::spec_one().spec_negated(),
                node@.spec_q().spec_negated(),
                S::spec_one(),
            ),
            default_draw == clamped(
                S::spec_zero(),
                node@.mean(node@.stats.draw_sum),
                S::spec_one(),
            ),
            are_edges(ranked@, node.edges@, filter@),
            k <= ranked@.len(),
            k <= max_pv,
            variations@.len() == k,
            forall|j: int|
                0 <= j < k ==> is_variation_of(
                    #[trigger] variations@[j],
                    arena@,
                    root,
                    root_is_black,
                    node.edges@[ranked@[j].edge as int],
                ),
        decreases ranked@.len() - k,
    {
        assert(ranked@[k as int].edge < node.edges@.len());
        let edge: Edge<S> = node.edges[ranked[k].edge];
        proof {
            assert(arena@[root as int].edges[ranked@[k as int].edge as int] == edge);
            assert(leads_forward(arena@));
        }
        let visited: bool = edge.completed_visits() > 0;
        let mut draw: S = default_draw;
        let mut distance: Option<i32> = None;
        if visited {
            match edge.child() {
                Some(c) => {
                    match arena.get(c) {
                        Some(child) => {
                            draw = child.draw();
                        },
                        None => {},
                    }
                },
                None => {},
            }
            distance = mate(child_result(arena, &edge));
        }
        variations.push(
            RootVariation {
                wl: if visited {
                    edge.q()
                } else {
                    default_wl
                },
                draw,
                mate: distance,
                pv: pv_from_edge(arena, &edge, root_is_black),
            },
        );
        k += 1;
    }
    assert(are_variations(variations@, ranked@, arena@, root, root_is_black, max_pv as int));
    variations
}

/// The order of edges is strict and carries over.
pub proof fn law_order_is_strict<S: Scalar>(
    a: RankedEdge<S>,
    b: RankedEdge<S>,
    c: RankedEdge<S>,
)
    ensures
        !a.spec_is_better(a),
        a.spec_is_better(b) && b.spec_is_better(c) ==> a.spec_is_better(c),
        a.spec_is_better(b) ==> !b.spec_is_better(a),
{
}

/// With the rule `Auto` edges rank as with the rule `MaxN`.
pub proof fn law_auto_is_max_n<S: Scalar>(
    edge: Edge<S>,
    max_visits: u32,
    params: SearchParams<S>,
)
    ensures
        spec_decision_score(
            edge,
            max_visits,
            SearchParams { decision_rule: DecisionRule::Auto, ..params },
        ) == spec_decision_score(
            edge,
            max_visits,
            SearchParams { decision_rule: DecisionRule::MaxN, ..params },
        ),
{
}

/// Rules rank as they are named, however results are rounded: by visits, by the mean, by a
/// bound that lies no higher than the mean or one that lies no lower, or by the mean and a
/// bonus for visits.
pub proof fn law_rules_rank_as_named<S: Scalar>(
    value: spec_fn(S) -> real,
    round: spec_fn(real) -> real,
    edge: Edge<S>,
    max_visits: u32,
    params: SearchParams<S>,
)
    requires
        rounds_by(value, round),
        value(params.decision_lcb_stdevs) >= 0real,
        value(params.decision_ucb_stdevs) >= 0real,
        value(params.decision_mix_n_weight) >= 0real,
    ensures
        ({
            let score = value(spec_decision_score(edge, max_visits, params));
            let mean = value(edge.stats.spec_q());
            match params.decision_rule {
                DecisionRule::Auto => score == round(edge.stats.visits as real),
                DecisionRule::MaxN => score == round(edge.stats.visits as real),
                DecisionRule::MaxQ => score == mean,
                DecisionRule::Lcb => score <= mean && (edge.stats.visits < 2 ==> score == mean),
                DecisionRule::Ucb => score >= mean && (edge.stats.visits < 2 ==> score == mean),
                DecisionRule::MixNQ => score >= mean,
            }
        }),
{
    let q = edge.stats.spec_q();
    let error = edge.stats.spec_standard_error();
    let most = if max_visits > 1 {
        max_visits
    } else {
        1
    };
    lemma_counts(value, round, edge.stats.visits);
    lemma_counts(value, round, most);
    if edge.stats.visits >= 2 {
        lemma_scaling_keeps_sign(
            value,
            round,
            edge.stats.spec_variance(),
            S::spec_count(edge.stats.visits),
        );
    }
    assert(value(error) >= 0real);
    lemma_scaling_keeps_sign(value, round, error, params.decision_lcb_stdevs);
    lemma_scaling_keeps_sign(value, round, error, params.decision_ucb_stdevs);
    let visited = params.decision_mix_n_weight.spec_times(S::spec_count(edge.stats.visits));
    lemma_scaling_keeps_sign(
        value,
        round,
        S::spec_count(edge.stats.visits),
        params.decision_mix_n_weight,
    );
    lemma_scaling_keeps_sign(value, round, visited, S::spec_count(most));
    let low = params.decision_lcb_stdevs.spec_times(error);
    let high = params.decision_ucb_stdevs.spec_times(error);
    let bonus = visited.spec_over(S::spec_count(most));
    let v = value(q);
    assert(round(v) == v);
    assert(round(v - value(low)) <= round(v));
    assert(round(v) <= round(v + value(high)));
    assert(round(v) <= round(v + value(bonus)));
    if edge.stats.visits < 2 {
        assert(value(low) == 0real && value(high) == 0real);
        assert(v - value(low) == v && v + value(high) == v);
    }
}

/// Where nothing is rounded, a report on an edge tells the mean of its visits. Before any it
/// tells the opposite of the mean of the root, as far as that is a value at all.
pub proof fn law_report_tells_the_value_of_its_edge<S: Scalar>(
    value: spec_fn(S) -> real,
    variation: RootVariation<S>,
    nodes: Seq<NodeModel<S>>,
    root: NodeId,
    root_is_black: bool,
    edge: Edge<S>,
)
    requires
        is_unrounded(value),
        is_variation_of(variation, nodes, root, root_is_black, edge),
    ensures
        ({
            let all = nodes[root as int].stats;
            &&& edge.stats.visits > 0 ==> value(variation.wl) * (edge.stats.visits as real)
                == value(edge.stats.wl_sum)
            &&& edge.stats.visits == 0 ==> -1real <= value(variation.wl) <= 1real
            &&& edge.stats.visits == 0 && all.visits > 0 && -(all.visits as real) <= value(
                all.wl_sum,
            ) <= (all.visits as real) ==> value(variation.wl) * (all.visits as real) == -value(
                all.wl_sum,
            )
        }),
{
    let all = nodes[root as int].stats;
    if edge.stats.visits > 0 {
        lemma_quotient(value, edge.stats.wl_sum, S::spec_count(edge.stats.visits));
    } else if all.visits > 0 {
        let n = S::spec_count(all.visits);
        lemma_quotient(value, all.wl_sum, n);
        let (q, k, w) = (value(all.wl_sum.spec_over(n)), all.visits as real, value(all.wl_sum));
        if -k <= w <= k {
            assert(-1real <= q <= 1real) by (nonlinear_arith)
                requires
                    q * k == w,
                    -k <= w <= k,
                    k > 0real,
            ;
            assert((-q) * k == -w) by (nonlinear_arith)
                requires
                    q * k == w,
            ;
        }
    }
}

} // verus!
