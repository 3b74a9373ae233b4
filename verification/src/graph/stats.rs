//! What a graph search answers: its best move, its lines and its figures.
use vstd::prelude::*;

use crate::classic::search::halved;
use crate::exact::{is_even_rounding, rounds_by};
use crate::graph::edge::Edge;
use crate::graph::key::NodeKey;
use crate::graph::node::{ExpansionState, Node, NodeModel};
use crate::graph::policy::SearchParams;
use crate::graph::ranking::{
    are_candidates, child_of, edge_child, edge_value, is_candidate, is_ranking, ranked_root_edges,
    spec_edge_value, Candidate,
};
use crate::graph::reach::unseen;
use crate::graph::repository::{lemma_place, NodeRepository};
use crate::position::{orient_move, oriented, Move};
use crate::scalar::{clamp_to, clamped, Scalar};
use crate::sums::{lemma_sum_bounds, lemma_sum_update};

verus! {

/// The figures of an edge of the root.
#[derive(Clone, Copy, Debug)]
pub struct RootEdgeStats<S> {
    pub mv: Move,
    pub completed_visits: u32,
    /// Visits begun, completed or not.
    pub started_visits: u32,
    pub q: S,
    pub prior: S,
}

/// The figures of the root.
#[derive(Debug)]
pub struct RootStats<S> {
    pub completed_visits: u32,
    pub q: S,
    pub draw: S,
    pub edges: Vec<RootEdgeStats<S>>,
}

/// The figures of an edge.
pub open spec fn edge_figures<S: Scalar>(
    nodes: Map<NodeKey, NodeModel<S>>,
    edge: Edge<S>,
) -> RootEdgeStats<S> {
    RootEdgeStats {
        mv: edge.mv,
        completed_visits: edge.completed.visits,
        started_visits: edge.started,
        q: spec_edge_value(nodes, edge),
        prior: edge.prior,
    }
}

/// The figures of a node, if it is there.
pub fn root_stats<S: Scalar>(repository: &NodeRepository<S>, root_key: NodeKey) -> (r: Option<
    RootStats<S>,
>)
    requires
        repository.wf(),
    ensures
        r is Some == repository@.contains_key(root_key),
        r matches Some(stats) ==> {
            let node = repository@[root_key];
            &&& stats.completed_visits == node.stats.visits
            &&& stats.q == node.spec_q()
            &&& stats.draw == node.mean(node.stats.draw_sum)
            &&& stats.edges@ == node.edges.map_values(
                |edge: Edge<S>| edge_figures(repository@, edge),
            )
        },
{
    let root: &Node<S> = match repository.get(root_key) {
        Some(root) => root,
        None => {
            return None;
        },
    };
    let mut edges: Vec<RootEdgeStats<S>> = Vec::new();
    let mut k: usize = 0;
    while k < root.edges.len()
        invariant
            repository.wf(),
            k <= root.edges@.len(),
            edges@.len() == k,
            forall|j: int|
                0 <= j < k ==> #[trigger] edges@[j] == edge_figures(repository@, root.edges@[j]),
        decreases root.edges@.len() - k,
    {
        let edge: &Edge<S> = &root.edges[k];
        edges.push(
            RootEdgeStats {
                mv: edge.mv(),
                completed_visits: edge.completed_visits(),
                started_visits: edge.visits(),
                q: edge_value(repository, edge),
                prior: edge.prior(),
            },
        );
        k += 1;
    }
    assert(edges@ =~= root.edges@.map_values(|edge: Edge<S>| edge_figures(repository@, edge)));
    Some(
        RootStats { completed_visits: root.completed_visits(), q: root.q(), draw: root.draw(), edges },
    )
}

/// Whether an edge that closes no cycle has a move.
pub open spec fn offers_move<S: Scalar>(edges: Seq<Edge<S>>, mv: Move) -> bool {
    exists|e: int|
        0 <= e < edges.len() && (#[trigger] edges[e]).mv == mv && !edges[e].topology_pruned
}

fn has_open_edge<S: Scalar>(edges: &Vec<Edge<S>>, mv: Move) -> (r: bool)
    ensures
        r == offers_move(edges@, mv),
{
    let mut e: usize = 0;
    while e < edges.len()
        invariant
            e <= edges@.len(),
            forall|j: int|
                0 <= j < e ==> (#[trigger] edges@[j]).mv != mv || edges@[j].topology_pruned,
        decreases edges@.len() - e,
    {
        if edges[e].mv() == mv && !edges[e].topology_pruned() {
            assert(edges@[e as int].mv == mv);
            return true;
        }
        e += 1;
    }
    false
}

/// The first move that can be played before anything is known: the first of the filter
/// that an edge has, or without a filter that of the first edge.
pub open spec fn is_first_move<S: Scalar>(
    edges: Seq<Edge<S>>,
    filter: Seq<Move>,
    choice: Option<Move>,
) -> bool {
    if filter.len() > 0 {
        match choice {
            Some(mv) => exists|i: int|
                0 <= i < filter.len() && #[trigger] filter[i] == mv && offers_move(edges, mv)
                    && forall|j: int| 0 <= j < i ==> !offers_move(edges, #[trigger] filter[j]),
            None => forall|j: int| 0 <= j < filter.len() ==> !offers_move(edges, #[trigger] filter[j]),
        }
    } else {
        match choice {
            Some(mv) => exists|i: int|
                0 <= i < edges.len() && (#[trigger] edges[i]).mv == mv && !edges[i].topology_pruned
                    && forall|j: int| 0 <= j < i ==> (#[trigger] edges[j]).topology_pruned,
            None => forall|j: int| 0 <= j < edges.len() ==> (#[trigger] edges[j]).topology_pruned,
        }
    }
}

fn first_filtered_move<S: Scalar>(edges: &Vec<Edge<S>>, root_move_filter: &Vec<Move>) -> (r: Option<
    Move,
>)
    ensures
        is_first_move(edges@, root_move_filter@, r),
{
    if !root_move_filter.is_empty() {
        let mut i: usize = 0;
        while i < root_move_filter.len()
            invariant
                i <= root_move_filter@.len(),
                forall|j: int|
                    0 <= j < i ==> !offers_move(edges@, #[trigger] root_move_filter@[j]),
            decreases root_move_filter@.len() - i,
        {
            if has_open_edge(edges, root_move_filter[i]) {
                assert(root_move_filter@[i as int] == root_move_filter@[i as int]);
                return Some(root_move_filter[i]);
            }
            i += 1;
        }
        return None;
    }
    let mut i: usize = 0;
    while i < edges.len()
        invariant
            root_move_filter@.len() == 0,
            i <= edges@.len(),
            forall|j: int| 0 <= j < i ==> (#[trigger] edges@[j]).topology_pruned,
        decreases edges@.len() - i,
    {
        if !edges[i].topology_pruned() {
            assert(edges@[i as int].mv == edges@[i as int].mv);
            return Some(edges[i].mv());
        }
        i += 1;
    }
    None
}

/// The parameters by which lines below the root are chosen: without confidence bounds.
pub open spec fn plain_params<S: Scalar>() -> SearchParams<S> {
    SearchParams { lcb_stdevs: S::spec_zero(), ..SearchParams::spec_default() }
}

/// The first move of a ranking, if it holds any.
pub open spec fn is_first_ranked<S: Scalar>(
    nodes: Map<NodeKey, NodeModel<S>>,
    node: NodeModel<S>,
    filter: Seq<Move>,
    params: SearchParams<S>,
    choice: Option<Move>,
) -> bool {
    exists|ranked: Seq<Candidate<S>>| #[trigger]
        is_ranking(ranked, nodes, node, filter, params) && are_candidates(
            ranked,
            nodes,
            node.edges,
            filter,
        ) && choice == (if ranked.len() > 0 {
            Some(node.edges[ranked[0].edge as int].mv)
        } else {
            None
        })
}

fn first_ranked<S: Scalar>(
    repository: &NodeRepository<S>,
    node: &Node<S>,
    filter: &Vec<Move>,
    params: &SearchParams<S>,
) -> (r: Option<Move>)
    requires
        repository.wf(),
    ensures
        is_first_ranked(repository@, node@, filter@, *params, r),
{
    let ranked: Vec<Candidate<S>> = ranked_root_edges(repository, node, filter, params);
    assert(is_ranking(ranked@, repository@, node@, filter@, *params));
    if ranked.is_empty() {
        None
    } else {
        assert(is_candidate(ranked@[0], repository@, node.edges@, filter@));
        Some(node.edges[ranked[0].edge].mv())
    }
}

/// Whether a move is the best of a node by rank alone. Before the first visit it is the
/// first that can be played, and so it is where no edge counts.
pub open spec fn is_best_absolute<S: Scalar>(
    nodes: Map<NodeKey, NodeModel<S>>,
    key: NodeKey,
    filter: Seq<Move>,
    choice: Option<Move>,
) -> bool {
    if !nodes.contains_key(key) || nodes[key].edges.len() == 0 {
        choice is None
    } else if nodes[key].stats.visits == 0 {
        is_first_move(nodes[key].edges, filter, choice)
    } else {
        ||| (choice is Some && is_first_ranked(nodes, nodes[key], filter, plain_params(), choice))
        ||| (is_first_ranked(nodes, nodes[key], filter, plain_params(), None) && is_first_move(
            nodes[key].edges,
            filter,
            choice,
        ))
    }
}

/// The best move of a node by rank alone.
pub fn best_edge_absolute<S: Scalar>(
    repository: &NodeRepository<S>,
    key: NodeKey,
    filter: &Vec<Move>,
) -> (r: Option<Move>)
    requires
        repository.wf(),
    ensures
        is_best_absolute(repository@, key, filter@, r),
{
    let node: &Node<S> = match repository.get(key) {
        Some(node) => node,
        None => {
            return None;
        },
    };
    if node.edges.is_empty() {
        return None;
    }
    if node.completed_visits() == 0 {
        return first_filtered_move(&node.edges, filter);
    }
    let params: SearchParams<S> = SearchParams { lcb_stdevs: S::zero(), ..SearchParams::default() };
    match first_ranked(repository, node, filter, &params) {
        Some(mv) => Some(mv),
        None => first_filtered_move(&node.edges, filter),
    }
}

/// Whether a move is the best of the root, confidence bounds taken into account.
pub open spec fn is_best_root<S: Scalar>(
    nodes: Map<NodeKey, NodeModel<S>>,
    key: NodeKey,
    filter: Seq<Move>,
    params: SearchParams<S>,
    choice: Option<Move>,
) -> bool {
    if !nodes.contains_key(key) {
        choice is None
    } else if nodes[key].edges.len() == 0 || nodes[key].stats.visits == 0 {
        is_best_absolute(nodes, key, filter, choice)
    } else {
        is_first_ranked(nodes, nodes[key], filter, params, choice)
    }
}

pub(crate) fn best_root_edge_absolute<S: Scalar>(
    repository: &NodeRepository<S>,
    key: NodeKey,
    filter: &Vec<Move>,
    params: &SearchParams<S>,
) -> (r: Option<Move>)
    requires
        repository.wf(),
    ensures
        is_best_root(repository@, key, filter@, *params, r),
{
    let node: &Node<S> = match repository.get(key) {
        Some(node) => node,
        None => {
            return None;
        },
    };
    if node.edges.is_empty() || node.completed_visits() == 0 {
        return best_edge_absolute(repository, key, filter);
    }
    first_ranked(repository, node, filter, params)
}

/// Whether a move is the best of the root, in the coordinates of the side to move.
pub open spec fn is_best_move<S: Scalar>(
    nodes: Map<NodeKey, NodeModel<S>>,
    key: NodeKey,
    root_is_black: bool,
    filter: Seq<Move>,
    params: SearchParams<S>,
    answer: Option<Move>,
) -> bool {
    exists|choice: Option<Move>| #[trigger]
        is_best_root(nodes, key, filter, params, choice) && answer == (match choice {
            Some(mv) => Some(oriented(mv, root_is_black)),
            None => None,
        })
}

/// The best move of the root, restricted to some moves.
pub fn best_move_filtered_with_params<S: Scalar>(
    repository: &NodeRepository<S>,
    root_key: NodeKey,
    root_is_black: bool,
    root_move_filter: &Vec<Move>,
    params: &SearchParams<S>,
) -> (r: Option<Move>)
    requires
        repository.wf(),
    ensures
        is_best_move(
            repository@,
            root_key,
            root_is_black,
            root_move_filter@,
            *params,
            r,
        ),
{
    let choice: Option<Move> = best_root_edge_absolute(
        repository,
        root_key,
        root_move_filter,
        params,
    );
    match choice {
        Some(mv) => Some(orient_move(mv, root_is_black)),
        None => None,
    }
}

/// The best move of the root with the default parameters, restricted to some moves.
pub fn best_move_filtered<S: Scalar>(
    repository: &NodeRepository<S>,
    root_key: NodeKey,
    root_is_black: bool,
    root_move_filter: &Vec<Move>,
) -> (r: Option<Move>)
    requires
        repository.wf(),
    ensures
        is_best_move(
            repository@,
            root_key,
            root_is_black,
            root_move_filter@,
            SearchParams::spec_default(),
            r,
        ),
{
    let params: SearchParams<S> = SearchParams::default();
    best_move_filtered_with_params(repository, root_key, root_is_black, root_move_filter, &params)
}

/// The best move of the root with the default parameters.
pub fn best_move<S: Scalar>(
    repository: &NodeRepository<S>,
    root_key: NodeKey,
    root_is_black: bool,
) -> (r: Option<Move>)
    requires
        repository.wf(),
    ensures
        is_best_move(
            repository@,
            root_key,
            root_is_black,
            Seq::empty(),
            SearchParams::spec_default(),
            r,
        ),
{
    let none: Vec<Move> = Vec::new();
    assert(none@ =~= Seq::<Move>::empty());
    best_move_filtered(repository, root_key, root_is_black, &none)
}

/// The moves to mate of a finished game, positive where the side that moved in wins.
pub open spec fn mate_of_result<S: Scalar>(result: Option<(S, S, S)>) -> Option<int> {
    match result {
        Some((wl, _, m)) => if wl.spec_same(S::spec_zero()) {
            None
        } else {
            let distance = halved(m.spec_rounded() as int) + 1;
            if wl.spec_above(S::spec_zero()) {
                Some(distance)
            } else {
                Some(-distance)
            }
        },
        None => None,
    }
}

fn mate_from_terminal<S: Scalar>(result: Option<(S, S, S)>) -> (r: Option<i32>)
    ensures
        r is Some == mate_of_result(result) is Some,
        r matches Some(mate) ==> Some(mate as int) == mate_of_result(result),
{
    match result {
        Some((wl, _, m)) => {
            if wl.same(S::zero()) {
                return None;
            }
            let plies: i64 = m.rounded() as i64;
            let half: i64 = if plies < 0 {
                -(((-plies) as u64 / 2) as i64)
            } else {
                (plies as u64 / 2) as i64
            };
            if wl.above(S::zero()) {
                Some((half + 1) as i32)
            } else {
                Some((-(half + 1)) as i32)
            }
        },
        None => None,
    }
}

/// The same mate seen by the other side.
pub open spec fn turned(mate: Option<int>) -> Option<int> {
    match mate {
        Some(distance) => Some(-distance),
        None => None,
    }
}

/// Whether an edge is the first with a move.
pub open spec fn is_first_with<S: Scalar>(edges: Seq<Edge<S>>, mv: Move, e: int) -> bool {
    &&& 0 <= e < edges.len()
    &&& edges[e].mv == mv
    &&& forall|j: int| 0 <= j < e ==> (#[trigger] edges[j]).mv != mv
}

pub(crate) fn find_edge<S: Scalar>(edges: &Vec<Edge<S>>, mv: Move) -> (r: Option<usize>)
    ensures
        r matches Some(e) ==> is_first_with(edges@, mv, e as int),
        r is None ==> forall|e: int| 0 <= e < edges@.len() ==> (#[trigger] edges@[e]).mv != mv,
{
    let mut e: usize = 0;
    while e < edges.len()
        invariant
            e <= edges@.len(),
            forall|j: int| 0 <= j < e ==> (#[trigger] edges@[j]).mv != mv,
        decreases edges@.len() - e,
    {
        if edges[e].mv() == mv {
            return Some(e);
        }
        e += 1;
    }
    None
}

/// The result behind the first edge with a move.
pub open spec fn result_behind<S: Scalar>(
    nodes: Map<NodeKey, NodeModel<S>>,
    edges: Seq<Edge<S>>,
    mv: Move,
) -> Option<(S, S, S)> {
    if exists|e: int| is_first_with(edges, mv, e) {
        let e = choose|e: int| is_first_with(edges, mv, e);
        match child_of(nodes, edges[e]) {
            Some(node) => node.terminal,
            None => None,
        }
    } else {
        None
    }
}

/// Whether a number is that of the moves to mate that the best move of the root leads to:
/// positive where the side to move wins. A root whose game is over has its own result.
pub open spec fn is_best_mate<S: Scalar>(
    nodes: Map<NodeKey, NodeModel<S>>,
    root_key: NodeKey,
    filter: Seq<Move>,
    params: SearchParams<S>,
    answer: Option<i32>,
) -> bool {
    let mate = match answer {
        Some(distance) => Some(distance as int),
        None => None,
    };
    if !nodes.contains_key(root_key) {
        answer is None
    } else if nodes[root_key].terminal is Some {
        mate == turned(mate_of_result(nodes[root_key].terminal))
    } else {
        exists|choice: Option<Move>| #[trigger]
            is_best_root(nodes, root_key, filter, params, choice) && mate == match choice {
                Some(mv) => mate_of_result(result_behind(nodes, nodes[root_key].edges, mv)),
                None => None,
            }
    }
}

/// The moves to mate that the best move of the root leads to.
pub fn best_mate_with_params<S: Scalar>(
    repository: &NodeRepository<S>,
    root_key: NodeKey,
    root_move_filter: &Vec<Move>,
    params: &SearchParams<S>,
) -> (r: Option<i32>)
    requires
        repository.wf(),
    ensures
        is_best_mate(repository@, root_key, root_move_filter@, *params, r),
{
    let root: &Node<S> = match repository.get(root_key) {
        Some(root) => root,
        None => {
            return None;
        },
    };
    if root.terminal_value().is_some() {
        return match mate_from_terminal(root.terminal_value()) {
            Some(distance) => Some(-distance),
            None => None,
        };
    }
    let choice: Option<Move> = best_root_edge_absolute(
        repository,
        root_key,
        root_move_filter,
        params,
    );
    assert(is_best_root(repository@, root_key, root_move_filter@, *params, choice));
    let mv: Move = match choice {
        Some(mv) => mv,
        None => {
            return None;
        },
    };
    match find_edge(&root.edges, mv) {
        Some(e) => {
            proof {
                let f = choose|f: int| is_first_with(root.edges@, mv, f);
                assert(is_first_with(root.edges@, mv, e as int));
                assert(is_first_with(root.edges@, mv, f));
                if f < e {
                    assert(root.edges@[f].mv != mv);
                }
                if e < f {
                    assert(root.edges@[e as int].mv != mv);
                }
            }
            match edge_child(repository, &root.edges[e]) {
                Some(node) => mate_from_terminal(node.terminal_value()),
                None => None,
            }
        },
        None => None,
    }
}

/// Whether a node can continue a line: it has been visited and has edges to offer.
pub open spec fn can_continue<S: Scalar>(nodes: Map<NodeKey, NodeModel<S>>, key: NodeKey) -> bool {
    nodes.contains_key(key) && nodes[key].stats.visits > 0 && nodes[key].expansion
        == ExpansionState::Expanded
}

/// How a line goes on at a node: by the parameters at the root, by rank alone below.
#[verifier::opaque]
pub open spec fn is_choice<S: Scalar>(
    nodes: Map<NodeKey, NodeModel<S>>,
    key: NodeKey,
    root: Option<(Seq<Move>, SearchParams<S>)>,
    choice: Option<Move>,
) -> bool {
    match root {
        Some((filter, params)) => is_best_root(nodes, key, filter, params, choice),
        None => is_best_absolute(nodes, key, Seq::empty(), choice),
    }
}

/// The node behind the first edge with a move.
pub open spec fn key_behind<S: Scalar>(edges: Seq<Edge<S>>, mv: Move) -> Option<NodeKey> {
    if exists|e: int| is_first_with(edges, mv, e) {
        edges[choose|e: int| is_first_with(edges, mv, e)].child_key
    } else {
        None
    }
}

/// Whether `pv` is a line of best moves from a node on, up to a node that was seen, has
/// no visits, or offers nothing.
#[verifier::opaque]
pub open spec fn is_line<S: Scalar>(
    nodes: Map<NodeKey, NodeModel<S>>,
    key: NodeKey,
    flip: bool,
    seen: Set<NodeKey>,
    root: Option<(Seq<Move>, SearchParams<S>)>,
    pv: Seq<Move>,
) -> bool
    decreases pv.len(),
{
    if seen.contains(key) || !can_continue(nodes, key) {
        pv.len() == 0
    } else {
        exists|choice: Option<Move>| #[trigger]
            is_choice(nodes, key, root, choice) && match choice {
                Some(mv) => if mv.spec_is_null() {
                    pv.len() == 0
                } else {
                    &&& pv.len() > 0
                    &&& pv[0] == oriented(mv, flip)
                    &&& match key_behind(nodes[key].edges, mv) {
                        Some(next) => is_line(
                            nodes,
                            next,
                            !flip,
                            seen.insert(key),
                            None,
                            pv.skip(1),
                        ),
                        None => pv.len() == 1,
                    }
                },
                None => pv.len() == 0,
            }
    }
}

proof fn lemma_line_ends<S: Scalar>(
    nodes: Map<NodeKey, NodeModel<S>>,
    key: NodeKey,
    flip: bool,
    seen: Set<NodeKey>,
    root: Option<(Seq<Move>, SearchParams<S>)>,
    choice: Option<Move>,
)
    requires
        seen.contains(key) || !can_continue(nodes, key) || (is_choice(nodes, key, root, choice) && (
        choice is None || choice->Some_0.spec_is_null())),
    ensures
        is_line(nodes, key, flip, seen, root, Seq::empty()),
{
    reveal(is_line);
}

proof fn lemma_line_goes_on<S: Scalar>(
    nodes: Map<NodeKey, NodeModel<S>>,
    key: NodeKey,
    flip: bool,
    seen: Set<NodeKey>,
    root: Option<(Seq<Move>, SearchParams<S>)>,
    mv: Move,
    pv: Seq<Move>,
)
    requires
        !seen.contains(key),
        can_continue(nodes, key),
        is_choice(nodes, key, root, Some(mv)),
        !mv.spec_is_null(),
        pv.len() > 0,
        pv[0] == oriented(mv, flip),
        match key_behind(nodes[key].edges, mv) {
            Some(next) => is_line(nodes, next, !flip, seen.insert(key), None, pv.skip(1)),
            None => pv.len() == 1,
        },
    ensures
        is_line(nodes, key, flip, seen, root, pv),
{
    reveal(is_line);
}

/// Whether the marks are those of the nodes in a set.
spec fn marks_set<S: Scalar>(
    repository: NodeRepository<S>,
    marks: Seq<bool>,
    seen: Set<NodeKey>,
) -> bool {
    &&& marks.len() == repository.slots@.len()
    &&& forall|i: int|
        0 <= i < marks.len() ==> #[trigger] marks[i] == seen.contains(repository.slots@[i].key)
}

fn find_child_key<S: Scalar>(edges: &Vec<Edge<S>>, mv: Move) -> (r: Option<NodeKey>)
    ensures
        r == key_behind(edges@, mv),
{
    match find_edge(edges, mv) {
        Some(e) => {
            proof {
                let f = choose|f: int| is_first_with(edges@, mv, f);
                assert(is_first_with(edges@, mv, e as int));
                assert(is_first_with(edges@, mv, f));
                if f < e {
                    assert(edges@[f].mv != mv);
                }
                if e < f {
                    assert(edges@[e as int].mv != mv);
                }
            }
            edges[e].child_key()
        },
        None => None,
    }
}

fn line_choice<S: Scalar>(
    repository: &NodeRepository<S>,
    key: NodeKey,
    root: Option<(&Vec<Move>, &SearchParams<S>)>,
) -> (r: Option<Move>)
    requires
        repository.wf(),
    ensures
        is_choice(
            repository@,
            key,
            match root {
                Some((filter, params)) => Some((filter@, *params)),
                None => None,
            },
            r,
        ),
{
    reveal(is_choice);
    match root {
        Some((filter, params)) => best_root_edge_absolute(repository, key, filter, params),
        None => {
            let none: Vec<Move> = Vec::new();
            assert(none@ =~= Seq::<Move>::empty());
            best_edge_absolute(repository, key, &none)
        },
    }
}

/// Marks one more node as seen.
fn mark<S: Scalar>(
    repository: &NodeRepository<S>,
    marks: &mut Vec<bool>,
    place: usize,
    seen: Ghost<Set<NodeKey>>,
)
    requires
        repository.wf(),
        place < repository.slots@.len(),
        marks_set(*repository, old(marks)@, seen@),
        !old(marks)@[place as int],
    ensures
        marks_set(*repository, final(marks)@, seen@.insert(repository.slots@[place as int].key)),
        0 <= unseen(final(marks)@) < unseen(old(marks)@),
{
    let ghost before = marks@;
    let ghost key = repository.slots@[place as int].key;
    marks.set(place, true);
    proof {
        let f = |mark: bool|
            if mark {
                0int
            } else {
                1
            };
        lemma_sum_update(before, place as int, true, f);
        lemma_sum_bounds(marks@, f);
        assert forall|i: int| 0 <= i < marks@.len() implies #[trigger] marks@[i] == seen@.insert(
            key,
        ).contains(repository.slots@[i].key) by {
            assert(before[i] == seen@.contains(repository.slots@[i].key));
            lemma_place(repository.slots@, i);
            lemma_place(repository.slots@, place as int);
        }
    }
}

/// The line of best moves from a node on.
#[verifier::spinoff_prover]
#[verifier::rlimit(50)]
fn line_from<S: Scalar>(
    repository: &NodeRepository<S>,
    key: NodeKey,
    flip: bool,
    marks: &mut Vec<bool>,
    seen: Ghost<Set<NodeKey>>,
    root: Option<(&Vec<Move>, &SearchParams<S>)>,
) -> (pv: Vec<Move>)
    requires
        repository.wf(),
        marks_set(*repository, old(marks)@, seen@),
    ensures
        is_line(
            repository@,
            key,
            flip,
            seen@,
            match root {
                Some((filter, params)) => Some((filter@, *params)),
                None => None,
            },
            pv@,
        ),
    decreases unseen(old(marks)@),
{
    let mut pv: Vec<Move> = Vec::new();
    let ghost nodes = repository@;
    let ghost by = match root {
        Some((filter, params)) => Some((filter@, *params)),
        None => None,
    };
    assert(pv@ =~= Seq::empty());
    let place: usize = match repository.find(key) {
        Some(place) => place,
        None => {
            proof {
                lemma_line_ends(nodes, key, flip, seen@, by, None);
            }
            return pv;
        },
    };
    let node: &Node<S> = &repository.slots[place].node;
    if marks[place] || node.completed_visits() == 0 || node.expansion_state()
        != ExpansionState::Expanded {
        proof {
            lemma_line_ends(nodes, key, flip, seen@, by, None);
        }
        return pv;
    }
    let choice: Option<Move> = line_choice(repository, key, root);
    let mv: Move = match choice {
        Some(mv) => mv,
        None => Move::null(),
    };
    if mv.is_null() {
        proof {
            lemma_line_ends(nodes, key, flip, seen@, by, choice);
        }
        return pv;
    }
    match find_child_key(&node.edges, mv) {
        Some(next) => {
            mark(repository, marks, place, seen);
            pv = line_from(repository, next, !flip, marks, Ghost(seen@.insert(key)), None);
            let ghost tail = pv@;
            pv.insert(0, orient_move(mv, flip));
            assert(pv@.skip(1) =~= tail);
        },
        None => {
            pv.push(orient_move(mv, flip));
        },
    }
    proof {
        lemma_line_goes_on(nodes, key, flip, seen@, by, mv, pv@);
    }
    pv
}

fn no_marks<S: Scalar>(repository: &NodeRepository<S>) -> (r: Vec<bool>)
    ensures
        marks_set(*repository, r@, Set::empty()),
{
    let mut marks: Vec<bool> = Vec::new();
    let mut n: usize = 0;
    while n < repository.slots.len()
        invariant
            n <= repository.slots@.len(),
            marks@.len() == n,
            forall|j: int| 0 <= j < n ==> !#[trigger] marks@[j],
        decreases repository.slots@.len() - n,
    {
        marks.push(false);
        n += 1;
    }
    marks
}

/// The line of best moves from the root on, restricted to some moves at the root.
pub fn principal_variation_filtered_with_params<S: Scalar>(
    repository: &NodeRepository<S>,
    root_key: NodeKey,
    root_is_black: bool,
    root_move_filter: &Vec<Move>,
    params: &SearchParams<S>,
) -> (pv: Vec<Move>)
    requires
        repository.wf(),
    ensures
        is_line(
            repository@,
            root_key,
            root_is_black,
            Set::empty(),
            Some((root_move_filter@, *params)),
            pv@,
        ),
{
    let mut marks: Vec<bool> = no_marks(repository);
    line_from(
        repository,
        root_key,
        root_is_black,
        &mut marks,
        Ghost(Set::empty()),
        Some((root_move_filter, params)),
    )
}

/// The line of best moves with the default parameters, restricted at the root.
pub fn principal_variation_filtered<S: Scalar>(
    repository: &NodeRepository<S>,
    root_key: NodeKey,
    root_is_black: bool,
    root_move_filter: &Vec<Move>,
) -> (pv: Vec<Move>)
    requires
        repository.wf(),
    ensures
        is_line(
            repository@,
            root_key,
            root_is_black,
            Set::empty(),
            Some((root_move_filter@, SearchParams::spec_default())),
            pv@,
        ),
{
    let params: SearchParams<S> = SearchParams::default();
    principal_variation_filtered_with_params(
        repository,
        root_key,
        root_is_black,
        root_move_filter,
        &params,
    )
}

/// The line of best moves with the default parameters.
pub fn principal_variation<S: Scalar>(
    repository: &NodeRepository<S>,
    root_key: NodeKey,
    root_is_black: bool,
) -> (pv: Vec<Move>)
    requires
        repository.wf(),
    ensures
        is_line(
            repository@,
            root_key,
            root_is_black,
            Set::empty(),
            Some((Seq::empty(), SearchParams::spec_default())),
            pv@,
        ),
{
    let none: Vec<Move> = Vec::new();
    assert(none@ =~= Seq::<Move>::empty());
    principal_variation_filtered(repository, root_key, root_is_black, &none)
}

/// A line of best moves that begins with a given edge of the root.
pub open spec fn is_line_by<S: Scalar>(
    nodes: Map<NodeKey, NodeModel<S>>,
    root_key: NodeKey,
    root_is_black: bool,
    first_move: Move,
    pv: Seq<Move>,
) -> bool {
    &&& pv.len() > 0
    &&& pv[0] == oriented(first_move, root_is_black)
    &&& match key_behind(nodes[root_key].edges, first_move) {
        Some(next) => is_line(
            nodes,
            next,
            !root_is_black,
            Set::empty().insert(root_key),
            None,
            pv.skip(1),
        ),
        None => pv.len() == 1,
    }
}

fn principal_variation_from_root_edge<S: Scalar>(
    repository: &NodeRepository<S>,
    root_key: NodeKey,
    root_is_black: bool,
    first_move: Move,
) -> (pv: Vec<Move>)
    requires
        repository.wf(),
        repository@.contains_key(root_key),
    ensures
        is_line_by(repository@, root_key, root_is_black, first_move, pv@),
{
    let place: usize = repository.find(root_key).unwrap();
    let mut pv: Vec<Move> = Vec::new();
    match find_child_key(&repository.slots[place].node.edges, first_move) {
        Some(next) => {
            let mut marks: Vec<bool> = no_marks(repository);
            mark(repository, &mut marks, place, Ghost(Set::empty()));
            pv = line_from(
                repository,
                next,
                !root_is_black,
                &mut marks,
                Ghost(Set::empty().insert(root_key)),
                None,
            );
            let ghost tail = pv@;
            pv.insert(0, orient_move(first_move, root_is_black));
            assert(pv@.skip(1) =~= tail);
        },
        None => {
            pv.push(orient_move(first_move, root_is_black));
        },
    }
    pv
}

/// A candidate of the root, with its value for the side to move and its line.
#[derive(Debug)]
pub struct RootVariation<S> {
    pub wl: S,
    pub draw: S,
    pub mate: Option<i32>,
    pub pv: Vec<Move>,
}

/// Whether a report shows the figures of an edge of the root. An edge without visits is
/// shown with the value of the root.
pub open spec fn has_figures_of<S: Scalar>(
    variation: RootVariation<S>,
    nodes: Map<NodeKey, NodeModel<S>>,
    root: NodeModel<S>,
    edge: Edge<S>,
) -> bool {
    let one = S::spec_one();
    let zero = S::spec_zero();
    let visited = edge.completed.visits > 0;
    let child = child_of(nodes, edge);
    let mate = match child {
        Some(node) => if visited {
            mate_of_result(node.terminal)
        } else {
            None
        },
        None => None,
    };
    &&& variation.wl == (if visited {
        spec_edge_value(nodes, edge)
    } else {
        clamped(one.spec_negated(), root.spec_q().spec_negated(), one)
    })
    &&& variation.draw == (match child {
        Some(node) => if visited {
            node.mean(node.stats.draw_sum)
        } else {
            clamped(zero, root.mean(root.stats.draw_sum), one)
        },
        None => clamped(zero, root.mean(root.stats.draw_sum), one),
    })
    &&& variation.mate is Some == mate is Some
    &&& (variation.mate matches Some(distance) ==> Some(distance as int) == mate)
}

/// Whether a report is that of an edge of the root: its figures and its line.
pub open spec fn is_variation_of<S: Scalar>(
    variation: RootVariation<S>,
    nodes: Map<NodeKey, NodeModel<S>>,
    root_key: NodeKey,
    root_is_black: bool,
    edge: Edge<S>,
) -> bool {
    &&& has_figures_of(variation, nodes, nodes[root_key], edge)
    &&& is_line_by(nodes, root_key, root_is_black, edge.mv, variation.pv@)
}

/// The report on an edge of the root, with a given line.
pub(crate) fn variation_with_line<S: Scalar>(
    repository: &NodeRepository<S>,
    root: &Node<S>,
    edge: &Edge<S>,
    pv: Vec<Move>,
) -> (r: RootVariation<S>)
    requires
        repository.wf(),
        root.wf(),
    ensures
        has_figures_of(r, repository@, root@, *edge),
        r.pv == pv,
{
    let visited: bool = edge.completed_visits() > 0;
    let mut draw: S = clamp_to(S::zero(), root.draw(), S::one());
    let mut mate: Option<i32> = None;
    if visited {
        match edge_child(repository, edge) {
            Some(node) => {
                draw = node.draw();
                mate = mate_from_terminal(node.terminal_value());
            },
            None => {},
        }
    }
    let wl: S = if visited {
        edge_value(repository, edge)
    } else {
        clamp_to(S::one().negated(), root.q().negated(), S::one())
    };
    RootVariation { wl, draw, mate, pv }
}

/// Whether a report holds the first lines of a ranking.
pub open spec fn are_variations<S: Scalar>(
    variations: Seq<RootVariation<S>>,
    ranked: Seq<Candidate<S>>,
    nodes: Map<NodeKey, NodeModel<S>>,
    root_key: NodeKey,
    root_is_black: bool,
    max_pv: int,
) -> bool {
    &&& variations.len() == (if max_pv < ranked.len() {
        max_pv
    } else {
        ranked.len() as int
    })
    &&& forall|k: int|
        0 <= k < variations.len() ==> is_variation_of(
            #[trigger] variations[k],
            nodes,
            root_key,
            root_is_black,
            nodes[root_key].edges[ranked[k].edge as int],
        )
}

/// Reports the best candidates of the root, best first.
pub fn root_variations<S: Scalar>(
    repository: &NodeRepository<S>,
    root_key: NodeKey,
    root_is_black: bool,
    root_move_filter: &Vec<Move>,
    max_pv: usize,
    params: &SearchParams<S>,
) -> (r: Vec<RootVariation<S>>)
    requires
        repository.wf(),
    ensures
        !repository@.contains_key(root_key) ==> r@.len() == 0,
        repository@.contains_key(root_key) ==> exists|ranked: Seq<Candidate<S>>| #[trigger]
            is_ranking(ranked, repository@, repository@[root_key], root_move_filter@, *params)
                && are_variations(
                r@,
                ranked,
                repository@,
                root_key,
                root_is_black,
                max_pv as int,
            ),
{
    let mut variations: Vec<RootVariation<S>> = Vec::new();
    let root: &Node<S> = match repository.get(root_key) {
        Some(root) => root,
        None => {
            return variations;
        },
    };
    let ranked: Vec<Candidate<S>> = ranked_root_edges(repository, root, root_move_filter, params);
    let mut k: usize = 0;
    while k < ranked.len() && k < max_pv
        invariant
            repository.wf(),
            repository@.contains_key(root_key),
            root@ == repository@[root_key],
            root.wf(),
            are_candidates(ranked@, repository@, root.edges@, root_move_filter@),
            k <= ranked@.len(),
            k <= max_pv,
            variations@.len() == k,
            forall|j: int|
                0 <= j < k ==> is_variation_of(
                    #[trigger] variations@[j],
                    repository@,
                    root_key,
                    root_is_black,
                    root.edges@[ranked@[j].edge as int],
                ),
        decreases ranked@.len() - k,
    {
        assert(is_candidate(ranked@[k as int], repository@, root.edges@, root_move_filter@));
        let edge: Edge<S> = root.edges[ranked[k].edge];
        let pv: Vec<Move> = principal_variation_from_root_edge(
            repository,
            root_key,
            root_is_black,
            edge.mv(),
        );
        variations.push(variation_with_line(repository, root, &edge, pv));
        k += 1;
    }
    assert(are_variations(
        variations@,
        ranked@,
        repository@,
        root_key,
        root_is_black,
        max_pv as int,
    ));
    variations
}

/// A report on an edge without a visit tells the opposite of the mean of the root, as far as
/// that is a value at all, however results are rounded as long as both sides are treated
/// alike. With visits it tells the value of the edge and the draws of the node behind it.
pub proof fn law_report_tells_the_value_of_its_edge<S: Scalar>(
    value: spec_fn(S) -> real,
    round: spec_fn(real) -> real,
    variation: RootVariation<S>,
    nodes: Map<NodeKey, NodeModel<S>>,
    root: NodeModel<S>,
    edge: Edge<S>,
)
    requires
        rounds_by(value, round),
        is_even_rounding(round),
        has_figures_of(variation, nodes, root, edge),
    ensures
        edge.completed.visits > 0 ==> variation.wl == spec_edge_value(nodes, edge),
        edge.completed.visits == 0 ==> {
            &&& -1real <= value(variation.wl) <= 1real
            &&& -1real <= value(root.spec_q()) <= 1real ==> value(variation.wl) == -value(
                root.spec_q(),
            )
            &&& variation.mate is None
        },
        edge.completed.visits > 0 ==> (edge.child_key matches Some(child) ==> nodes.contains_key(
            child,
        ) ==> variation.draw == nodes[child].mean(nodes[child].stats.draw_sum)),
{
    let (one, q) = (value(S::spec_one()), value(root.spec_q()));
    assert(round(-one) == -round(one));
    assert(round(-q) == -round(q));
}

} // verus!
