//! The order of the root's edges, best first.
use vstd::prelude::*;

use crate::exact::{
    is_unrounded, lemma_quotient, lemma_scaling_keeps_order, lemma_scaling_keeps_sign,
};
use crate::graph::edge::{Edge, EdgeStats};
use crate::graph::key::NodeKey;
use crate::graph::node::{Node, NodeModel};
use crate::graph::policy::SearchParams;
use crate::graph::repository::NodeRepository;
use crate::position::{contains_move, Move};
use crate::scalar::{at_most, is_at_most, larger, max_of, Scalar};
use crate::sorting::{ranked_by, sort_by, Comparison};

verus! {

/// The node behind an edge, if there is one.
pub open spec fn child_of<S: Scalar>(
    nodes: Map<NodeKey, NodeModel<S>>,
    edge: Edge<S>,
) -> Option<NodeModel<S>> {
    match edge.child_key {
        Some(key) => if nodes.contains_key(key) {
            Some(nodes[key])
        } else {
            None
        },
        None => None,
    }
}

pub(crate) fn edge_child<'a, S: Scalar>(repository: &'a NodeRepository<S>, edge: &Edge<S>) -> (r:
    Option<&'a Node<S>>)
    requires
        repository.wf(),
    ensures
        r is Some == child_of(repository@, *edge) is Some,
        r matches Some(node) ==> Some(node@) == child_of(repository@, *edge) && node.wf(),
{
    match edge.child_key() {
        Some(key) => repository.get(key),
        None => None,
    }
}

/// The visits of an edge whose results are shared with the child.
pub open spec fn propagated<S: Scalar>(edge: Edge<S>) -> u32 {
    if edge.completed.visits > edge.completed.local_leaf.visits {
        (edge.completed.visits - edge.completed.local_leaf.visits) as u32
    } else {
        0
    }
}

fn propagated_visits<S: Scalar>(stats: &EdgeStats<S>) -> (r: u32)
    ensures
        r == (if stats.visits > stats.local_leaf.visits {
            stats.visits - stats.local_leaf.visits
        } else {
            0
        }),
{
    if stats.visits > stats.local_leaf.visits {
        stats.visits - stats.local_leaf.visits
    } else {
        0
    }
}

/// The mean of an edge's completed visits, 0 without any: results of the line as they
/// are, all others as the child's present mean.
pub open spec fn spec_edge_value<S: Scalar>(
    nodes: Map<NodeKey, NodeModel<S>>,
    edge: Edge<S>,
) -> S {
    if edge.completed.visits == 0 {
        S::spec_zero()
    } else {
        let shared = match child_of(nodes, edge) {
            Some(node) => node.spec_q().spec_times(S::spec_count(propagated(edge))),
            None => S::spec_zero(),
        };
        edge.completed.local_leaf.wl_sum.spec_plus(shared).spec_over(
            S::spec_count(edge.completed.visits),
        )
    }
}

/// The mean of an edge's completed visits, 0 without any.
pub fn edge_value<S: Scalar>(repository: &NodeRepository<S>, edge: &Edge<S>) -> (r: S)
    requires
        repository.wf(),
    ensures
        r == spec_edge_value(repository@, *edge),
{
    let stats: EdgeStats<S> = edge.stats();
    if stats.visits == 0 {
        return S::zero();
    }
    let shared: S = match edge_child(repository, edge) {
        Some(node) => node.q().times(S::count(propagated_visits(&stats))),
        None => S::zero(),
    };
    stats.local_leaf.wl_sum.plus(shared).over(S::count(stats.visits))
}

/// The means of an edge's value and squared value, if they can be told.
pub open spec fn edge_moments<S: Scalar>(
    nodes: Map<NodeKey, NodeModel<S>>,
    edge: Edge<S>,
) -> Option<(S, S)> {
    let visits = S::spec_count(edge.completed.visits);
    let local = edge.completed.local_leaf;
    let weight = S::spec_count(propagated(edge));
    let shared = if propagated(edge) == 0 {
        Some((S::spec_zero(), S::spec_zero()))
    } else {
        match child_of(nodes, edge) {
            Some(node) => Some((node.spec_moments().0, node.spec_moments().3)),
            None => None,
        }
    };
    match shared {
        Some((q, q_sq)) => if edge.completed.visits == 0 {
            None
        } else {
            Some(
                (
                    local.wl_sum.spec_plus(q.spec_times(weight)).spec_over(visits),
                    local.wl_sq_sum.spec_plus(q_sq.spec_times(weight)).spec_over(visits),
                ),
            )
        },
        None => None,
    }
}

/// The lower confidence bound of values with these means over so many visits. With few
/// visits a wide spread is assumed.
pub open spec fn lower_bound<S: Scalar>(q: S, q_sq: S, visits: u32, stdevs: S) -> S {
    let samples = S::spec_count(
        if visits > 1 {
            visits
        } else {
            1
        },
    );
    let weight = S::spec_one().spec_over(samples.spec_times(samples));
    let adjusted = q_sq.spec_times(samples).spec_plus(
        larger(q_sq, q.spec_times(q)).spec_plus(S::spec_one()).spec_times(weight),
    ).spec_over(samples.spec_plus(weight));
    let total = samples.spec_plus(weight);
    let effective = total.spec_times(total).spec_over(
        samples.spec_plus(weight.spec_times(weight)),
    );
    let variance = larger(adjusted.spec_minus(q.spec_times(q)), S::spec_zero());
    q.spec_minus(stdevs.spec_times(variance.spec_over(effective).spec_root()))
}

/// The lower confidence bound of an edge's value, if it can be told.
#[verifier::opaque]
pub open spec fn spec_edge_lcb<S: Scalar>(
    nodes: Map<NodeKey, NodeModel<S>>,
    edge: Edge<S>,
    stdevs: S,
) -> Option<S> {
    match edge_moments(nodes, edge) {
        Some((q, q_sq)) => Some(lower_bound(q, q_sq, edge.completed.visits, stdevs)),
        None => None,
    }
}

/// The lower confidence bound of an edge's value, if it can be told.
pub fn edge_lcb<S: Scalar>(repository: &NodeRepository<S>, edge: &Edge<S>, stdevs: S) -> (r:
    Option<S>)
    requires
        repository.wf(),
    ensures
        r == spec_edge_lcb(repository@, *edge, stdevs),
{
    reveal(spec_edge_lcb);
    let stats: EdgeStats<S> = edge.stats();
    if stats.visits == 0 {
        return None;
    }
    let shared_visits: u32 = propagated_visits(&stats);
    let (child_q, child_q_sq): (S, S) = if shared_visits == 0 {
        (S::zero(), S::zero())
    } else {
        match edge_child(repository, edge) {
            Some(node) => {
                let (q, _, _, q_sq) = node.value_moments_snapshot();
                (q, q_sq)
            },
            None => {
                return None;
            },
        }
    };
    let visits: S = S::count(stats.visits);
    let weight_shared: S = S::count(shared_visits);
    let q: S = stats.local_leaf.wl_sum.plus(child_q.times(weight_shared)).over(visits);
    let q_sq: S = stats.local_leaf.wl_sq_sum.plus(child_q_sq.times(weight_shared)).over(visits);
    let samples: S = S::count(
        if stats.visits > 1 {
            stats.visits
        } else {
            1
        },
    );
    let weight: S = S::one().over(samples.times(samples));
    let adjusted: S = q_sq.times(samples).plus(
        max_of(q_sq, q.times(q)).plus(S::one()).times(weight),
    ).over(samples.plus(weight));
    let total: S = samples.plus(weight);
    let effective: S = total.times(total).over(samples.plus(weight.times(weight)));
    let variance: S = max_of(adjusted.minus(q.times(q)), S::zero());
    Some(q.minus(stdevs.times(variance.over(effective).root())))
}

/// What an edge is known to lead to. Only a proven win or loss is set apart.
#[derive(Clone, Copy, Debug, PartialEq, Eq, Structural)]
pub enum BestEdgeRank {
    TerminalLoss,
    NonTerminal,
    TerminalWin,
}

impl BestEdgeRank {
    pub open spec fn place(self) -> int {
        match self {
            BestEdgeRank::TerminalLoss => 0,
            BestEdgeRank::NonTerminal => 1,
            BestEdgeRank::TerminalWin => 2,
        }
    }

    fn number(self) -> (r: u8)
        ensures
            r == self.place(),
    {
        match self {
            BestEdgeRank::TerminalLoss => 0,
            BestEdgeRank::NonTerminal => 1,
            BestEdgeRank::TerminalWin => 2,
        }
    }
}

/// All that decides an edge's place.
#[derive(Clone, Copy, Debug)]
pub struct EdgeRankKey<S> {
    pub rank: BestEdgeRank,
    /// Whether the edge leads to a game that was drawn.
    pub is_draw_terminal: bool,
    /// The plies to the end of a finished game.
    pub plies: S,
    pub visits: u32,
    pub q: S,
    pub prior: S,
}

impl<S: Scalar> EdgeRankKey<S> {
    /// Whether an edge with this key is better: it wins where the other does not, or does
    /// not lose where the other does; wins sooner, loses later, or draws sooner; and else
    /// by visits, then value, then prior.
    pub open spec fn spec_is_better(self, other: Self) -> bool {
        let plies = self.plies.spec_total_key();
        let other_plies = other.plies.spec_total_key();
        if self.rank != other.rank {
            self.rank.place() > other.rank.place()
        } else if self.rank == BestEdgeRank::TerminalWin {
            plies < other_plies
        } else if self.rank == BestEdgeRank::TerminalLoss {
            plies > other_plies
        } else if self.is_draw_terminal && other.is_draw_terminal && plies != other_plies {
            plies < other_plies
        } else if self.visits != other.visits {
            self.visits > other.visits
        } else if self.q.spec_total_key() != other.q.spec_total_key() {
            self.q.spec_total_key() > other.q.spec_total_key()
        } else {
            self.prior.spec_total_key() > other.prior.spec_total_key()
        }
    }

    /// Whether an edge with this key is better.
    pub fn is_better(&self, other: &Self) -> (r: bool)
        ensures
            r == self.spec_is_better(*other),
    {
        if self.rank != other.rank {
            return self.rank.number() > other.rank.number();
        }
        let plies: i64 = self.plies.total_key();
        let other_plies: i64 = other.plies.total_key();
        if self.rank == BestEdgeRank::TerminalWin {
            return plies < other_plies;
        }
        if self.rank == BestEdgeRank::TerminalLoss {
            return plies > other_plies;
        }
        if self.is_draw_terminal && other.is_draw_terminal && plies != other_plies {
            return plies < other_plies;
        }
        if self.visits != other.visits {
            return self.visits > other.visits;
        }
        if self.q.total_key() != other.q.total_key() {
            return self.q.total_key() > other.q.total_key();
        }
        self.prior.total_key() > other.prior.total_key()
    }
}

/// The result behind an edge, where it has been visited.
pub open spec fn visited_result<S: Scalar>(
    nodes: Map<NodeKey, NodeModel<S>>,
    edge: Edge<S>,
) -> Option<(S, S, S)> {
    match child_of(nodes, edge) {
        Some(node) => if edge.completed.visits > 0 {
            node.terminal
        } else {
            None
        },
        None => None,
    }
}

/// What decides an edge's place.
#[verifier::opaque]
pub open spec fn rank_key_of<S: Scalar>(
    nodes: Map<NodeKey, NodeModel<S>>,
    edge: Edge<S>,
) -> EdgeRankKey<S> {
    let rank = match visited_result(nodes, edge) {
        Some(result) => if result.0.spec_above(S::spec_zero()) {
            BestEdgeRank::TerminalWin
        } else if S::spec_zero().spec_above(result.0) {
            BestEdgeRank::TerminalLoss
        } else {
            BestEdgeRank::NonTerminal
        },
        None => BestEdgeRank::NonTerminal,
    };
    EdgeRankKey {
        rank,
        is_draw_terminal: rank == BestEdgeRank::NonTerminal && visited_result(nodes, edge) is Some,
        plies: match visited_result(nodes, edge) {
            Some(result) => result.2,
            None => S::spec_zero(),
        },
        visits: edge.completed.visits,
        q: spec_edge_value(nodes, edge),
        prior: edge.prior,
    }
}

fn edge_rank_key<S: Scalar>(repository: &NodeRepository<S>, edge: &Edge<S>) -> (r: EdgeRankKey<S>)
    requires
        repository.wf(),
    ensures
        r == rank_key_of(repository@, *edge),
{
    reveal(rank_key_of);
    let result: Option<(S, S, S)> = match edge_child(repository, edge) {
        Some(node) => if edge.completed_visits() > 0 {
            node.terminal_value()
        } else {
            None
        },
        None => None,
    };
    let (rank, plies): (BestEdgeRank, S) = match result {
        Some((wl, _, plies)) => if wl.above(S::zero()) {
            (BestEdgeRank::TerminalWin, plies)
        } else if S::zero().above(wl) {
            (BestEdgeRank::TerminalLoss, plies)
        } else {
            (BestEdgeRank::NonTerminal, plies)
        },
        None => (BestEdgeRank::NonTerminal, S::zero()),
    };
    EdgeRankKey {
        rank,
        is_draw_terminal: rank == BestEdgeRank::NonTerminal && result.is_some(),
        plies,
        visits: edge.completed_visits(),
        q: edge_value(repository, edge),
        prior: edge.prior(),
    }
}

/// An edge with what decides its place.
#[derive(Clone, Copy, Debug)]
pub struct Candidate<S> {
    pub edge: usize,
    pub key: EdgeRankKey<S>,
}

struct ByRankKey {}

impl<S: Scalar> Comparison<Candidate<S>> for ByRankKey {
    open spec fn can_compare(&self, a: Candidate<S>, b: Candidate<S>) -> bool {
        true
    }

    open spec fn spec_is_better(&self, a: Candidate<S>, b: Candidate<S>) -> bool {
        a.key.spec_is_better(b.key)
    }

    fn is_better(&self, a: Candidate<S>, b: Candidate<S>) -> (r: bool) {
        a.key.is_better(&b.key)
    }
}

/// Whether an edge counts: it closes no cycle and the filter lets it pass.
pub open spec fn is_listed<S: Scalar>(edge: Edge<S>, filter: Seq<Move>) -> bool {
    !edge.topology_pruned && (filter.len() == 0 || filter.contains(edge.mv))
}

/// Those of the first `k` edges that count, in order.
pub open spec fn candidates<S: Scalar>(
    nodes: Map<NodeKey, NodeModel<S>>,
    edges: Seq<Edge<S>>,
    filter: Seq<Move>,
    k: int,
) -> Seq<Candidate<S>>
    decreases k,
{
    if k <= 0 {
        Seq::empty()
    } else {
        let before = candidates(nodes, edges, filter, k - 1);
        if is_listed(edges[k - 1], filter) {
            before.push(
                Candidate { edge: (k - 1) as usize, key: rank_key_of(nodes, edges[k - 1]) },
            )
        } else {
            before
        }
    }
}

/// Whether a list holds the edges that count, best first; while the node has no visits,
/// in their own order.
pub open spec fn is_sorted<S: Scalar>(
    order: Seq<Candidate<S>>,
    nodes: Map<NodeKey, NodeModel<S>>,
    node: NodeModel<S>,
    filter: Seq<Move>,
) -> bool {
    let all = candidates(nodes, node.edges, filter, node.edges.len() as int);
    if node.stats.visits > 0 {
        &&& order.to_multiset() == all.to_multiset()
        &&& ranked_by(order, |a: Candidate<S>, b: Candidate<S>| a.key.spec_is_better(b.key))
    } else {
        order == all
    }
}

/// Whether an edge may take the first place by its confidence bound.
pub open spec fn may_challenge<S: Scalar>(key: EdgeRankKey<S>, min_visits: S) -> bool {
    &&& key.rank == BestEdgeRank::NonTerminal
    &&& !key.is_draw_terminal
    &&& key.visits > 0
    &&& !min_visits.spec_above(S::spec_count(key.visits))
}

/// The edge with the highest confidence bound among the first `k`, with the bound.
pub open spec fn best_bound<S: Scalar>(
    order: Seq<Candidate<S>>,
    nodes: Map<NodeKey, NodeModel<S>>,
    edges: Seq<Edge<S>>,
    min_visits: S,
    stdevs: S,
    k: int,
) -> Option<(int, S)>
    decreases k,
{
    if k <= 0 {
        None
    } else {
        let before = best_bound(order, nodes, edges, min_visits, stdevs, k - 1);
        let candidate = order[k - 1];
        match (
            may_challenge(candidate.key, min_visits),
            spec_edge_lcb(nodes, edges[candidate.edge as int], stdevs),
            before,
        ) {
            (true, Some(lcb), None) => Some((k - 1, lcb)),
            (true, Some(lcb), Some((_, best))) => if lcb.spec_above(best) {
                Some((k - 1, lcb))
            } else {
                before
            },
            _ => before,
        }
    }
}

/// The edge that takes the first place by its confidence bound, if one does: its bound
/// is clearly above that of the first, and the first is not proven to win or lose.
pub open spec fn challenger<S: Scalar>(
    order: Seq<Candidate<S>>,
    nodes: Map<NodeKey, NodeModel<S>>,
    edges: Seq<Edge<S>>,
    params: SearchParams<S>,
) -> Option<int> {
    if !params.lcb_stdevs.spec_above(S::spec_zero()) || order.len() == 0 || order[0].key.rank
        != BestEdgeRank::NonTerminal {
        None
    } else {
        let min_visits = S::spec_count(order[0].key.visits).spec_times(
            params.lcb_min_visit_fraction,
        );
        let incumbent = spec_edge_lcb(nodes, edges[order[0].edge as int], params.lcb_stdevs);
        match (
            best_bound(
                order,
                nodes,
                edges,
                min_visits,
                params.lcb_stdevs,
                order.len() as int,
            ),
            incumbent,
        ) {
            (Some((index, lcb)), Some(incumbent_lcb)) => if index != 0 && at_most(
                incumbent_lcb.spec_plus(S::spec_one().spec_over(S::spec_count(100))),
                lcb,
            ) {
                Some(index)
            } else {
                None
            },
            _ => None,
        }
    }
}

/// A list with the challenger, if there is one, in the first place.
pub open spec fn challenged<S: Scalar>(
    order: Seq<Candidate<S>>,
    nodes: Map<NodeKey, NodeModel<S>>,
    edges: Seq<Edge<S>>,
    params: SearchParams<S>,
) -> Seq<Candidate<S>> {
    match challenger(order, nodes, edges, params) {
        Some(index) => order.remove(index).insert(0, order[index]),
        None => order,
    }
}

/// Whether a list ranks the edges of a node: sorted, and then with the challenger first.
pub open spec fn is_ranking<S: Scalar>(
    ranked: Seq<Candidate<S>>,
    nodes: Map<NodeKey, NodeModel<S>>,
    node: NodeModel<S>,
    filter: Seq<Move>,
    params: SearchParams<S>,
) -> bool {
    exists|order: Seq<Candidate<S>>| #[trigger]
        is_sorted(order, nodes, node, filter) && ranked == challenged(
            order,
            nodes,
            node.edges,
            params,
        )
}

proof fn lemma_candidates_in_range<S: Scalar>(
    nodes: Map<NodeKey, NodeModel<S>>,
    edges: Seq<Edge<S>>,
    filter: Seq<Move>,
    k: int,
)
    requires
        0 <= k <= edges.len() <= usize::MAX,
    ensures
        forall|i: int|
            0 <= i < candidates(nodes, edges, filter, k).len() ==> {
                let candidate = #[trigger] candidates(nodes, edges, filter, k)[i];
                &&& candidate.edge < k
                &&& is_listed(edges[candidate.edge as int], filter)
                &&& candidate.key == rank_key_of(nodes, edges[candidate.edge as int])
            },
    decreases k,
{
    if k > 0 {
        lemma_candidates_in_range(nodes, edges, filter, k - 1);
        let before = candidates(nodes, edges, filter, k - 1);
        let all = candidates(nodes, edges, filter, k);
        assert forall|i: int| 0 <= i < all.len() implies {
            let candidate = #[trigger] all[i];
            &&& candidate.edge < k
            &&& is_listed(edges[candidate.edge as int], filter)
            &&& candidate.key == rank_key_of(nodes, edges[candidate.edge as int])
        } by {
            if i < before.len() {
                assert(all[i] == before[i]);
            }
        }
    }
}

/// Whether every entry is an edge that counts, with its key.
pub open spec fn are_candidates<S: Scalar>(
    ranked: Seq<Candidate<S>>,
    nodes: Map<NodeKey, NodeModel<S>>,
    edges: Seq<Edge<S>>,
    filter: Seq<Move>,
) -> bool {
    forall|i: int|
        0 <= i < ranked.len() ==> is_candidate(#[trigger] ranked[i], nodes, edges, filter)
}

pub open spec fn is_candidate<S: Scalar>(
    candidate: Candidate<S>,
    nodes: Map<NodeKey, NodeModel<S>>,
    edges: Seq<Edge<S>>,
    filter: Seq<Move>,
) -> bool {
    &&& candidate.edge < edges.len()
    &&& is_listed(edges[candidate.edge as int], filter)
    &&& candidate.key == rank_key_of(nodes, edges[candidate.edge as int])
}

/// The edges of a node that count, best first.
fn sorted_edges<S: Scalar>(
    repository: &NodeRepository<S>,
    root: &Node<S>,
    root_move_filter: &Vec<Move>,
) -> (r: Vec<Candidate<S>>)
    requires
        repository.wf(),
    ensures
        is_sorted(r@, repository@, root@, root_move_filter@),
        are_candidates(r@, repository@, root.edges@, root_move_filter@),
{
    let ghost nodes = repository@;
    let ghost edges = root.edges@;
    let ghost filter = root_move_filter@;
    let mut listed: Vec<Candidate<S>> = Vec::new();
    let mut k: usize = 0;
    while k < root.edges.len()
        invariant
            repository.wf(),
            nodes == repository@,
            edges == root.edges@,
            filter == root_move_filter@,
            k <= edges.len(),
            listed@ == candidates(nodes, edges, filter, k as int),
        decreases edges.len() - k,
    {
        let edge: &Edge<S> = &root.edges[k];
        if !edge.topology_pruned() && (root_move_filter.is_empty() || contains_move(
            root_move_filter,
            edge.mv(),
        )) {
            listed.push(Candidate { edge: k, key: edge_rank_key(repository, edge) });
        }
        k += 1;
    }
    proof {
        lemma_candidates_in_range(nodes, edges, filter, edges.len() as int);
        assert(are_candidates(listed@, nodes, edges, filter));
    }
    if root.completed_visits() == 0 {
        return listed;
    }
    let order: Vec<Candidate<S>> = sort_by(&listed, &ByRankKey {  });
    proof {
        assert((|a: Candidate<S>, b: Candidate<S>| (ByRankKey {  }).spec_is_better(a, b)) =~= (|
            a: Candidate<S>,
            b: Candidate<S>,
        | a.key.spec_is_better(b.key)));
        assert forall|i: int| 0 <= i < order@.len() implies is_candidate(
            #[trigger] order@[i],
            nodes,
            edges,
            filter,
        ) by {
            assert(order@.contains(order@[i]));
            let j = choose|j: int| 0 <= j < listed@.len() && listed@[j] == order@[i];
            assert(is_candidate(listed@[j], nodes, edges, filter));
        }
    }
    order
}

/// Ranks the edges of a node.
pub fn ranked_root_edges<S: Scalar>(
    repository: &NodeRepository<S>,
    root: &Node<S>,
    root_move_filter: &Vec<Move>,
    params: &SearchParams<S>,
) -> (r: Vec<Candidate<S>>)
    requires
        repository.wf(),
    ensures
        is_ranking(r@, repository@, root@, root_move_filter@, *params),
        are_candidates(r@, repository@, root.edges@, root_move_filter@),
{
    let mut order: Vec<Candidate<S>> = sorted_edges(repository, root, root_move_filter);
    let ghost sorted = order@;
    let chosen: Option<usize> = find_challenger(repository, root, &order, params, root_move_filter);
    match chosen {
        Some(index) => {
            let selected: Candidate<S> = order.remove(index);
            order.insert(0, selected);
            proof {
                lemma_challenger_moved(
                    sorted,
                    order@,
                    index as int,
                    repository@,
                    root.edges@,
                    root_move_filter@,
                );
            }
        },
        None => {},
    }
    assert(is_sorted(sorted, repository@, root@, root_move_filter@));
    assert(order@ == challenged(sorted, repository@, root@.edges, *params));
    order
}

proof fn lemma_challenger_moved<S: Scalar>(
    sorted: Seq<Candidate<S>>,
    order: Seq<Candidate<S>>,
    index: int,
    nodes: Map<NodeKey, NodeModel<S>>,
    edges: Seq<Edge<S>>,
    filter: Seq<Move>,
)
    requires
        0 <= index < sorted.len(),
        are_candidates(sorted, nodes, edges, filter),
        order == sorted.remove(index).insert(0, sorted[index]),
    ensures
        are_candidates(order, nodes, edges, filter),
{
    assert forall|i: int| 0 <= i < order.len() implies is_candidate(
        #[trigger] order[i],
        nodes,
        edges,
        filter,
    ) by {
        if i == 0 {
            assert(is_candidate(sorted[index], nodes, edges, filter));
        } else if i <= index {
            assert(order[i] == sorted[i - 1]);
        } else {
            assert(order[i] == sorted[i]);
        }
    }
}

fn find_challenger<S: Scalar>(
    repository: &NodeRepository<S>,
    root: &Node<S>,
    order: &Vec<Candidate<S>>,
    params: &SearchParams<S>,
    filter: &Vec<Move>,
) -> (r: Option<usize>)
    requires
        repository.wf(),
        are_candidates(order@, repository@, root.edges@, filter@),
    ensures
        r is Some == challenger(order@, repository@, root.edges@, *params) is Some,
        r matches Some(index) ==> Some(index as int) == challenger(
            order@,
            repository@,
            root.edges@,
            *params,
        ) && index < order@.len(),
{
    if !params.lcb_stdevs.above(S::zero()) || order.is_empty() || order[0].key.rank
        != BestEdgeRank::NonTerminal {
        return None;
    }
    let min_visits: S = S::count(order[0].key.visits).times(params.lcb_min_visit_fraction);
    assert(is_candidate(order@[0], repository@, root.edges@, filter@));
    let incumbent: Option<S> = edge_lcb(
        repository,
        &root.edges[order[0].edge],
        params.lcb_stdevs,
    );
    let mut best: Option<(usize, S)> = None;
    let mut k: usize = 0;
    while k < order.len()
        invariant
            repository.wf(),
            are_candidates(order@, repository@, root.edges@, filter@),
            k <= order@.len(),
            best is Some == best_bound(
                order@,
                repository@,
                root.edges@,
                min_visits,
                params.lcb_stdevs,
                k as int,
            ) is Some,
            best matches Some(found) ==> Some((found.0 as int, found.1)) == best_bound(
                order@,
                repository@,
                root.edges@,
                min_visits,
                params.lcb_stdevs,
                k as int,
            ) && found.0 < k,
        decreases order@.len() - k,
    {
        let candidate: Candidate<S> = order[k];
        assert(is_candidate(order@[k as int], repository@, root.edges@, filter@));
        let key: EdgeRankKey<S> = candidate.key;
        if key.rank == BestEdgeRank::NonTerminal && !key.is_draw_terminal && key.visits > 0
            && !min_visits.above(S::count(key.visits)) {
            match edge_lcb(repository, &root.edges[candidate.edge], params.lcb_stdevs) {
                Some(lcb) => {
                    let better: bool = match best {
                        Some((_, current)) => lcb.above(current),
                        None => true,
                    };
                    if better {
                        best = Some((k, lcb));
                    }
                },
                None => {},
            }
        }
        k += 1;
    }
    match (best, incumbent) {
        (Some((index, lcb)), Some(incumbent_lcb)) => if index != 0 && is_at_most(
            incumbent_lcb.plus(S::one().over(S::count(100))),
            lcb,
        ) {
            Some(index)
        } else {
            None
        },
        _ => None,
    }
}

/// A proven win comes before everything else and a proven loss after everything else,
/// whatever the visits.
pub proof fn law_proven_results_come_first<S: Scalar>(a: EdgeRankKey<S>, b: EdgeRankKey<S>)
    ensures
        a.rank == BestEdgeRank::TerminalWin && b.rank != BestEdgeRank::TerminalWin
            ==> a.spec_is_better(b) && !b.spec_is_better(a),
        a.rank != BestEdgeRank::TerminalLoss && b.rank == BestEdgeRank::TerminalLoss
            ==> a.spec_is_better(b) && !b.spec_is_better(a),
        a.rank == BestEdgeRank::TerminalWin && b.rank == BestEdgeRank::TerminalWin
            && a.plies.spec_total_key() < b.plies.spec_total_key() ==> a.spec_is_better(b),
        a.rank == BestEdgeRank::TerminalLoss && b.rank == BestEdgeRank::TerminalLoss
            && a.plies.spec_total_key() > b.plies.spec_total_key() ==> a.spec_is_better(b),
{
}

/// No edge is better than itself, and of two edges at most one is better.
pub proof fn law_better_is_strict<S: Scalar>(a: EdgeRankKey<S>, b: EdgeRankKey<S>)
    ensures
        !a.spec_is_better(a),
        a.spec_is_better(b) ==> !b.spec_is_better(a),
{
}

/// Where nothing is rounded, the value of an edge is the mean of its completed visits: those
/// that ended behind it as they were, all others as the child's present mean.
pub proof fn law_edge_value_is_the_mean_of_its_visits<S: Scalar>(
    value: spec_fn(S) -> real,
    repository: NodeRepository<S>,
    edge: Edge<S>,
    r: S,
)
    requires
        is_unrounded(value),
        call_ensures(edge_value::<S>, (&repository, &edge), r),
    ensures
        ({
            let stats = edge.completed;
            let shared = if stats.visits > stats.local_leaf.visits && (edge.child_key matches Some(
                child,
            ) && repository@.contains_key(child)) {
                value(repository@[edge.child_key->Some_0].spec_q()) * ((stats.visits
                    - stats.local_leaf.visits) as real)
            } else {
                0real
            };
            &&& stats.visits == 0 ==> value(r) == 0real
            &&& stats.visits > 0 ==> value(r) * (stats.visits as real) == value(
                stats.local_leaf.wl_sum,
            ) + shared
        }),
{
    let stats = edge.completed;
    if stats.visits > 0 {
        let shared = match child_of(repository@, edge) {
            Some(node) => node.spec_q().spec_times(S::spec_count(propagated(edge))),
            None => S::spec_zero(),
        };
        lemma_quotient(
            value,
            stats.local_leaf.wl_sum.spec_plus(shared),
            S::spec_count(stats.visits),
        );
        if propagated(edge) == 0 && child_of(repository@, edge) is Some {
            let (x, y) = (
                value(child_of(repository@, edge)->Some_0.spec_q()),
                value(S::spec_count(0)),
            );
            assert(x * y == 0real) by (nonlinear_arith)
                requires
                    y == 0real,
            ;
        }
    }
}

/// Where nothing is rounded, a lower confidence bound lies no higher than the mean it was
/// drawn below, and no higher the more standard deviations wide it is.
pub proof fn law_confidence_bound_is_below_the_mean<S: Scalar>(
    value: spec_fn(S) -> real,
    repository: NodeRepository<S>,
    edge: Edge<S>,
    stdevs: S,
    wider: S,
    r: Option<S>,
    lower: Option<S>,
)
    requires
        is_unrounded(value),
        0real <= value(stdevs) <= value(wider),
        call_ensures(edge_lcb::<S>, (&repository, &edge, stdevs), r),
        call_ensures(edge_lcb::<S>, (&repository, &edge, wider), lower),
    ensures
        r is Some == lower is Some,
        edge.completed.visits == 0 ==> r is None,
        r matches Some(bound) ==> {
            &&& value(lower->Some_0) <= value(bound)
            &&& edge_moments(repository@, edge) is Some
            &&& value(bound) <= value(edge_moments(repository@, edge)->Some_0.0)
        },
{
    reveal(spec_edge_lcb);
    match edge_moments(repository@, edge) {
        Some(moments) => {
            lemma_bounds_below(
                value,
                moments.0,
                moments.1,
                edge.completed.visits,
                stdevs,
                wider,
            );
        },
        None => {},
    }
}

proof fn lemma_bounds_below<S: Scalar>(
    value: spec_fn(S) -> real,
    q: S,
    q_sq: S,
    visits: u32,
    stdevs: S,
    wider: S,
)
    requires
        is_unrounded(value),
        0real <= value(stdevs) <= value(wider),
    ensures
        value(lower_bound(q, q_sq, visits, wider)) <= value(lower_bound(q, q_sq, visits, stdevs))
            <= value(q),
{
    let samples = S::spec_count(
        if visits > 1 {
            visits
        } else {
            1
        },
    );
    let square = samples.spec_times(samples);
    let weight = S::spec_one().spec_over(square);
    let adjusted = q_sq.spec_times(samples).spec_plus(
        larger(q_sq, q.spec_times(q)).spec_plus(S::spec_one()).spec_times(weight),
    ).spec_over(samples.spec_plus(weight));
    let total = samples.spec_plus(weight);
    let divisor = samples.spec_plus(weight.spec_times(weight));
    let effective = total.spec_times(total).spec_over(divisor);
    let variance = larger(adjusted.spec_minus(q.spec_times(q)), S::spec_zero());
    let spread = variance.spec_over(effective).spec_root();
    let s = value(samples);
    assert(s * s > 0real) by (nonlinear_arith)
        requires
            s >= 1real,
    ;
    lemma_scaling_keeps_sign(value, |r: real| r, S::spec_one(), square);
    lemma_scaling_keeps_sign(value, |r: real| r, weight, weight);
    assert(value(divisor) > 0real);
    assert(value(total) > 0real);
    let t = value(total);
    assert(t * t > 0real) by (nonlinear_arith)
        requires
            t > 0real,
    ;
    lemma_quotient(value, total.spec_times(total), divisor);
    let (x, y) = (value(effective), value(divisor));
    assert(x > 0real) by (nonlinear_arith)
        requires
            x * y > 0real,
            y > 0real,
    ;
    assert(value(variance) >= 0real);
    lemma_scaling_keeps_sign(value, |r: real| r, variance, effective);
    assert(value(spread) >= 0real);
    lemma_scaling_keeps_sign(value, |r: real| r, stdevs, spread);
    lemma_scaling_keeps_order(value, |r: real| r, stdevs, wider, spread);
}

/// Of two undecided edges that are no drawn ends, the one with more visits is better; with as
/// many visits the one with the greater value, and then the one with the greater prior.
pub proof fn law_undecided_edges_go_by_visits<S: Scalar>(
    a: EdgeRankKey<S>,
    b: EdgeRankKey<S>,
    r: bool,
)
    requires
        a.rank == BestEdgeRank::NonTerminal,
        b.rank == BestEdgeRank::NonTerminal,
        !(a.is_draw_terminal && b.is_draw_terminal),
        call_ensures(EdgeRankKey::<S>::is_better, (&a, &b), r),
    ensures
        a.visits > b.visits ==> r,
        a.visits < b.visits ==> !r,
        a.visits == b.visits && a.q.spec_total_key() > b.q.spec_total_key() ==> r,
        a.visits == b.visits && a.q.spec_total_key() < b.q.spec_total_key() ==> !r,
        a.visits == b.visits && a.q.spec_total_key() == b.q.spec_total_key() ==> (r
            <==> a.prior.spec_total_key() > b.prior.spec_total_key()),
{
}

} // verus!
