//! Lines and reports of a graph search that follow the game's own history.
use vstd::prelude::*;

use crate::graph::edge::Edge;
use crate::graph::key::NodeKey;
use crate::graph::node::{Node, NodeModel};
use crate::graph::policy::SearchParams;
use crate::graph::pv_walk::{law_following_sees_more, PvWalk};
use crate::graph::ranking::{are_candidates, is_candidate, is_ranking, ranked_root_edges, Candidate};
use crate::graph::repository::NodeRepository;
use crate::graph::stats::{
    best_root_edge_absolute, has_figures_of, is_best_root, variation_with_line, RootVariation,
};
use crate::position::Move;
use crate::scalar::Scalar;

verus! {

/// The moves by which the first `k` steps of a line went on.
pub open spec fn moves_followed<S: Scalar>(
    course: Seq<PvWalk>,
    nodes: Map<NodeKey, NodeModel<S>>,
    k: int,
) -> Seq<Move> {
    Seq::new(k as nat, |i: int| course[i].pending(nodes))
}

/// Whether a line took its `k`-th step by the history: the node of the history is the one
/// that it has after the moves of the line.
pub open spec fn steps_at<S: Scalar, F: Fn(&Vec<Move>) -> NodeKey>(
    course: Seq<PvWalk>,
    k: int,
    nodes: Map<NodeKey, NodeModel<S>>,
    key_after: F,
) -> bool {
    &&& course[k].at is Some
    &&& exists|played: Vec<Move>, key: NodeKey|
        played@ == moves_followed(course, nodes, k + 1) && #[trigger] call_ensures(
            key_after,
            (&played,),
            key,
        ) && course[k].follows(course[k + 1], nodes, key)
}

/// Whether a line goes through these states, from its first move to its end.
pub open spec fn is_course<S: Scalar, F: Fn(&Vec<Move>) -> NodeKey>(
    course: Seq<PvWalk>,
    nodes: Map<NodeKey, NodeModel<S>>,
    root_key: NodeKey,
    root_is_black: bool,
    first_move: Move,
    key_after: F,
) -> bool {
    &&& course.len() > 0
    &&& course[0].begins(nodes, root_key, root_is_black, first_move)
    &&& forall|k: int|
        0 <= k < course.len() - 1 ==> #[trigger] steps_at(course, k, nodes, key_after)
    &&& course.last().at is None
}

/// Whether a line begins with a move of the root and goes on by the history.
pub open spec fn is_history_line<S: Scalar, F: Fn(&Vec<Move>) -> NodeKey>(
    pv: Seq<Move>,
    nodes: Map<NodeKey, NodeModel<S>>,
    root_key: NodeKey,
    root_is_black: bool,
    first_move: Move,
    key_after: F,
) -> bool {
    exists|course: Seq<PvWalk>| #[trigger]
        is_course(course, nodes, root_key, root_is_black, first_move, key_after)
            && course.last().pv@ == pv
}

/// Keys of a repository that all differ are no more than its nodes.
proof fn lemma_keys_fit<S: Scalar>(repository: NodeRepository<S>, keys: Seq<NodeKey>)
    requires
        keys.no_duplicates(),
        forall|i: int| 0 <= i < keys.len() ==> repository@.contains_key(#[trigger] keys[i]),
    ensures
        keys.len() <= repository.slots@.len(),
{
    broadcast use vstd::seq_lib::seq_to_set_is_finite;

    let all = Seq::new(repository.slots@.len(), |i: int| repository.slots@[i].key);
    assert forall|key: NodeKey| keys.to_set().contains(key) implies all.to_set().contains(key) by {
        assert(keys.contains(key));
        let i = choose|i: int| 0 <= i < keys.len() && keys[i] == key;
        assert(repository@.contains_key(keys[i]));
        let k = choose|k: int| 0 <= k < repository.slots@.len() && repository.slots@[k].key == key;
        assert(all[k] == key);
    }
    keys.unique_seq_to_set();
    all.lemma_cardinality_of_set();
    vstd::set_lib::lemma_len_subset(keys.to_set(), all.to_set());
}

/// A course that took its steps so far takes one more.
proof fn lemma_course_goes_on<S: Scalar, F: Fn(&Vec<Move>) -> NodeKey>(
    earlier: Seq<PvWalk>,
    walk: PvWalk,
    nodes: Map<NodeKey, NodeModel<S>>,
    key_after: F,
    played: Vec<Move>,
    key: NodeKey,
)
    requires
        earlier.len() > 0,
        earlier.last().at is Some,
        forall|k: int|
            0 <= k < earlier.len() - 1 ==> #[trigger] steps_at(earlier, k, nodes, key_after),
        played@ == moves_followed(earlier, nodes, earlier.len() - 1).push(
            earlier.last().pending(nodes),
        ),
        call_ensures(key_after, (&played,), key),
        earlier.last().follows(walk, nodes, key),
    ensures
        ({
            let course = earlier.push(walk);
            &&& played@ == moves_followed(course, nodes, course.len() - 1)
            &&& forall|k: int|
                0 <= k < course.len() - 1 ==> #[trigger] steps_at(course, k, nodes, key_after)
        }),
{
    let course = earlier.push(walk);
    let n = earlier.len() as int;
    assert(played@ =~= moves_followed(course, nodes, n));
    assert forall|k: int| 0 <= k < course.len() - 1 implies #[trigger] steps_at(
        course,
        k,
        nodes,
        key_after,
    ) by {
        if k < n - 1 {
            assert(steps_at(earlier, k, nodes, key_after));
            assert(course[k] == earlier[k] && course[k + 1] == earlier[k + 1]);
            assert(moves_followed(course, nodes, k + 1) =~= moves_followed(earlier, nodes, k + 1));
        } else {
            assert(course[k] == earlier.last() && course[k + 1] == walk);
        }
    }
}

/// The line of best moves that begins with a move of the root. Where an edge leads back to a
/// node of the line, or to none, the line goes on by the game's own history: `key_after` gives
/// the node of that history after some moves from the root.
pub fn principal_variation_from_root_edge<S: Scalar, F: Fn(&Vec<Move>) -> NodeKey>(
    repository: &NodeRepository<S>,
    root_key: NodeKey,
    root_is_black: bool,
    first_move: Move,
    key_after: &F,
) -> (pv: Vec<Move>)
    requires
        repository.wf(),
        forall|moves: &Vec<Move>| #[trigger] call_requires(*key_after, (moves,)),
    ensures
        is_history_line(pv@, repository@, root_key, root_is_black, first_move, *key_after),
{
    let ghost nodes = repository@;
    let mut walk: PvWalk = PvWalk::begin(repository, root_key, root_is_black, first_move);
    let mut played: Vec<Move> = Vec::new();
    let ghost mut course: Seq<PvWalk> = seq![walk];
    proof {
        assert(played@ =~= moves_followed(course, nodes, 0));
    }
    while walk.at.is_some()
        invariant
            repository.wf(),
            nodes == repository@,
            forall|moves: &Vec<Move>| #[trigger] call_requires(*key_after, (moves,)),
            walk.fits(nodes),
            course.len() > 0,
            course.last() == walk,
            course[0].begins(nodes, root_key, root_is_black, first_move),
            forall|k: int|
                0 <= k < course.len() - 1 ==> #[trigger] steps_at(course, k, nodes, *key_after),
            played@ == moves_followed(course, nodes, course.len() - 1),
            walk.seen@.no_duplicates(),
            walk.at is Some ==> forall|i: int|
                0 <= i < walk.seen@.len() ==> nodes.contains_key(#[trigger] walk.seen@[i]),
        decreases repository.slots@.len() - walk.seen@.len() + (if walk.at is Some {
                1int
            } else {
                0
            }),
    {
        let ghost before = walk;
        let ghost earlier = course;
        let mv: Move = walk.pending_move(repository).unwrap();
        played.push(mv);
        let key: NodeKey = key_after(&played);
        walk.follow(repository, key);
        proof {
            course = earlier.push(walk);
            assert(played@ =~= moves_followed(earlier, nodes, earlier.len() - 1).push(
                before.pending(nodes),
            ));
            lemma_course_goes_on(earlier, walk, nodes, *key_after, played, key);
            law_following_sees_more(before, walk, nodes, key);
            lemma_keys_fit(*repository, walk.seen@);
        }
    }
    assert(is_course(course, nodes, root_key, root_is_black, first_move, *key_after));
    walk.pv
}

/// The line of best moves from the root on that follows the game's own history.
pub fn principal_variation_with_history_and_params<S: Scalar, F: Fn(&Vec<Move>) -> NodeKey>(
    repository: &NodeRepository<S>,
    root_key: NodeKey,
    key_after: &F,
    root_is_black: bool,
    root_move_filter: &Vec<Move>,
    params: &SearchParams<S>,
) -> (pv: Vec<Move>)
    requires
        repository.wf(),
        forall|moves: &Vec<Move>| #[trigger] call_requires(*key_after, (moves,)),
    ensures
        exists|choice: Option<Move>| #[trigger]
            is_best_root(repository@, root_key, root_move_filter@, *params, choice)
                && match choice {
                Some(first_move) => is_history_line(
                    pv@,
                    repository@,
                    root_key,
                    root_is_black,
                    first_move,
                    *key_after,
                ),
                None => pv@.len() == 0,
            },
{
    let choice: Option<Move> = best_root_edge_absolute(
        repository,
        root_key,
        root_move_filter,
        params,
    );
    assert(is_best_root(repository@, root_key, root_move_filter@, *params, choice));
    match choice {
        Some(first_move) => principal_variation_from_root_edge(
            repository,
            root_key,
            root_is_black,
            first_move,
            key_after,
        ),
        None => Vec::new(),
    }
}

/// Whether a report holds the first lines of a ranking, each by the history.
pub open spec fn are_history_variations<S: Scalar, F: Fn(&Vec<Move>) -> NodeKey>(
    variations: Seq<RootVariation<S>>,
    ranked: Seq<Candidate<S>>,
    nodes: Map<NodeKey, NodeModel<S>>,
    root_key: NodeKey,
    root_is_black: bool,
    max_pv: int,
    key_after: F,
) -> bool {
    &&& variations.len() == (if max_pv < ranked.len() {
        max_pv
    } else {
        ranked.len() as int
    })
    &&& forall|k: int|
        0 <= k < variations.len() ==> is_history_variation_of(
            #[trigger] variations[k],
            nodes,
            root_key,
            root_is_black,
            nodes[root_key].edges[ranked[k].edge as int],
            key_after,
        )
}

/// Whether a report is that of an edge of the root: its figures, and its line by the history.
pub open spec fn is_history_variation_of<S: Scalar, F: Fn(&Vec<Move>) -> NodeKey>(
    variation: RootVariation<S>,
    nodes: Map<NodeKey, NodeModel<S>>,
    root_key: NodeKey,
    root_is_black: bool,
    edge: Edge<S>,
    key_after: F,
) -> bool {
    &&& has_figures_of(variation, nodes, nodes[root_key], edge)
    &&& is_history_line(
        variation.pv@,
        nodes,
        root_key,
        root_is_black,
        edge.mv,
        key_after,
    )
}

/// Reports the best candidates of the root, best first, with lines that follow the game's own
/// history.
pub fn root_variations_with_history<S: Scalar, F: Fn(&Vec<Move>) -> NodeKey>(
    repository: &NodeRepository<S>,
    root_key: NodeKey,
    key_after: &F,
    root_is_black: bool,
    root_move_filter: &Vec<Move>,
    max_pv: usize,
    params: &SearchParams<S>,
) -> (r: Vec<RootVariation<S>>)
    requires
        repository.wf(),
        forall|moves: &Vec<Move>| #[trigger] call_requires(*key_after, (moves,)),
    ensures
        !repository@.contains_key(root_key) ==> r@.len() == 0,
        repository@.contains_key(root_key) ==> exists|ranked: Seq<Candidate<S>>| #[trigger]
            is_ranking(ranked, repository@, repository@[root_key], root_move_filter@, *params)
                && are_history_variations(
                r@,
                ranked,
                repository@,
                root_key,
                root_is_black,
                max_pv as int,
                *key_after,
            ),
{
    let mut variations: Vec<RootVariation<S>> = Vec::new();
    let root: &Node<S> = match repository.get(root_key) {
        Some(root) => root,
        None => {
            return variations;
        },
    };
    let ranked: Vec<Candidate<S>> = ranked_root_edges(repository, root, root_move_filter, params);
    let mut k: usize = 0;
    while k < ranked.len() && k < max_pv
        invariant
            repository.wf(),
            forall|moves: &Vec<Move>| #[trigger] call_requires(*key_after, (moves,)),
            repository@.contains_key(root_key),
            root@ == repository@[root_key],
            root.wf(),
            are_candidates(ranked@, repository@, root.edges@, root_move_filter@),
            k <= ranked@.len(),
            k <= max_pv,
            variations@.len() == k,
            forall|j: int|
                0 <= j < k ==> is_history_variation_of(
                    #[trigger] variations@[j],
                    repository@,
                    root_key,
                    root_is_black,
                    root.edges@[ranked@[j].edge as int],
                    *key_after,
                ),
        decreases ranked@.len() - k,
    {
        assert(is_candidate(ranked@[k as int], repository@, root.edges@, root_move_filter@));
        let edge: Edge<S> = root.edges[ranked[k].edge];
        let pv: Vec<Move> = principal_variation_from_root_edge(
            repository,
            root_key,
            root_is_black,
            edge.mv(),
            key_after,
        );
        variations.push(variation_with_line(repository, root, &edge, pv));
        k += 1;
    }
    assert(are_history_variations(
        variations@,
        ranked@,
        repository@,
        root_key,
        root_is_black,
        max_pv as int,
        *key_after,
    ));
    variations
}

} // verus!
