//! What a tree search reports, how it starts and when it ends.
use vstd::prelude::*;

use crate::classic::node::{Node, Terminal};
use crate::classic::params::{ContemptMode, SearchParams};
use crate::classic::picking::{draw_score, draw_score_at};
use crate::classic::ranking::{
    best_child_edge, best_child_edges, child_node, is_ranking, lemma_listed_in_range, listed_edges,
};
use crate::classic::tree::{node_linked, NodeTree};
use crate::exact::{is_nearest, is_unrounded, rounds_by};
use crate::position::{orient_move, oriented, Move};
use crate::scalar::Scalar;

verus! {

/// Settles for which side draws are valued differently: the engine's own, unless
/// the search is infinite, where no side is. While pondering it is the opponent's
/// turn that is searched.
pub open spec fn settled_contempt(
    configured: ContemptMode,
    infinite: bool,
    root_is_black: bool,
    ponder: bool,
) -> ContemptMode {
    if configured != ContemptMode::Play {
        configured
    } else if infinite {
        ContemptMode::Disable
    } else if root_is_black != ponder {
        ContemptMode::Black
    } else {
        ContemptMode::White
    }
}

/// Settles for which side draws are valued differently.
pub fn resolve_contempt_mode(
    configured: ContemptMode,
    infinite: bool,
    root_is_black: bool,
    ponder: bool,
) -> (r: ContemptMode)
    ensures
        r == settled_contempt(configured, infinite, root_is_black, ponder),
{
    match configured {
        ContemptMode::Play => if infinite {
            ContemptMode::Disable
        } else if root_is_black != ponder {
            ContemptMode::Black
        } else {
            ContemptMode::White
        },
        mode => mode,
    }
}

/// Once a search has started the side is settled.
pub proof fn law_contempt_is_settled(
    configured: ContemptMode,
    infinite: bool,
    root_is_black: bool,
    ponder: bool,
)
    ensures
        settled_contempt(configured, infinite, root_is_black, ponder) != ContemptMode::Play,
{
}

/// The chances of winning, drawing and losing, in thousandths.
#[derive(Clone, Copy, Debug, PartialEq, Eq, Structural)]
pub struct Wdl {
    pub w: i32,
    pub d: i32,
    pub l: i32,
}

/// Chances whose sum is 1000, from rounded chances of winning and losing. Where
/// these leave less than nothing for a draw, both give way.
pub open spec fn balanced_wdl(w: i32, l: i32) -> Wdl {
    let win = if w > 0 {
        w as int
    } else {
        0
    };
    let loss = if l > 0 {
        l as int
    } else {
        0
    };
    let draw = 1000 - win - loss;
    if draw < 0 {
        let less = win - (-draw) / 2;
        let kept = if less < 0 {
            0
        } else if less > 1000 {
            1000
        } else {
            less
        };
        Wdl { w: kept as i32, d: 0, l: (1000 - kept) as i32 }
    } else {
        Wdl { w: win as i32, d: draw as i32, l: loss as i32 }
    }
}

/// The chances of a value and a draw share.
pub open spec fn wdl_of<S: Scalar>(wl: S, d: S) -> Wdl {
    balanced_wdl(
        S::spec_count(500).spec_times(S::spec_one().spec_plus(wl).spec_minus(d)).spec_rounded(),
        S::spec_count(500).spec_times(S::spec_one().spec_minus(wl).spec_minus(d)).spec_rounded(),
    )
}

/// The chances of a value and a draw share.
pub fn wdl_from_wl_d<S: Scalar>(wl: S, d: S) -> (r: Wdl)
    ensures
        r == wdl_of(wl, d),
{
    let win: i32 = S::count(500).times(S::one().plus(wl).minus(d)).rounded();
    let loss: i32 = S::count(500).times(S::one().minus(wl).minus(d)).rounded();
    let w: i64 = if win > 0 {
        win as i64
    } else {
        0
    };
    let l: i64 = if loss > 0 {
        loss as i64
    } else {
        0
    };
    let draw: i64 = 1000 - w - l;
    if draw < 0 {
        let less: i64 = w - ((-draw) as u64 / 2) as i64;
        let kept: i64 = if less < 0 {
            0
        } else if less > 1000 {
            1000
        } else {
            less
        };
        Wdl { w: kept as i32, d: 0, l: 1000 - kept as i32 }
    } else {
        Wdl { w: w as i32, d: draw as i32, l: l as i32 }
    }
}

/// The chances are never negative and always add up to 1000.
pub proof fn law_wdl_adds_up(w: i32, l: i32)
    ensures
        ({
            let wdl = balanced_wdl(w, l);
            &&& wdl.w >= 0 && wdl.d >= 0 && wdl.l >= 0
            &&& wdl.w + wdl.d + wdl.l == 1000
        }),
{
}

/// Whether an edge of a node stands first in some ranking.
pub open spec fn is_best_edge<S: Scalar>(
    tree: NodeTree<S>,
    parent: int,
    e: usize,
    draws: S,
    filter: Seq<Move>,
) -> bool {
    exists|order: Seq<usize>|
        #[trigger] is_ranking(order, tree, parent, draws, filter) && order.len() > 0 && order[0] == e
}

/// Whether a node offers no best edge: it has not been visited or lists none.
pub open spec fn has_no_best_edge<S: Scalar>(
    tree: NodeTree<S>,
    parent: int,
    draws: S,
    filter: Seq<Move>,
) -> bool {
    tree.nodes()[parent].n == 0 || exists|order: Seq<usize>|
        #[trigger] is_ranking(order, tree, parent, draws, filter) && order.len() == 0
}

/// The best edge of a node, or none.
pub open spec fn is_best_choice<S: Scalar>(
    tree: NodeTree<S>,
    parent: int,
    choice: Option<usize>,
    draws: S,
    filter: Seq<Move>,
) -> bool {
    match choice {
        Some(e) => tree.nodes()[parent].n > 0 && is_best_edge(tree, parent, e, draws, filter),
        None => has_no_best_edge(tree, parent, draws, filter),
    }
}

/// Whether `moves` are the move to play and the expected reply, for output, when
/// `best` and `reply` are the best edges of the root and of the node behind it.
///
/// Without a best edge it is the first move of the filter, or else the first legal
/// move, or else the null move. There is no reply to a move without a best edge.
pub open spec fn is_answer<S: Scalar>(
    tree: NodeTree<S>,
    params: SearchParams<S>,
    root_is_black: bool,
    filter: Seq<Move>,
    first_legal_move: Option<Move>,
    best: Option<usize>,
    reply: Option<usize>,
    moves: (Move, Move),
) -> bool {
    let root = tree.head();
    let null = Move { from: 0, to: 0 };
    &&& is_best_choice(tree, root, best, draw_score_at(params, root_is_black, false), filter)
    &&& match best {
        Some(e) => {
            &&& moves.0 == oriented(tree.nodes()[root].edges@[e as int].mv, root_is_black)
            &&& match tree.nodes()[root].children@[e as int] {
                Some(c) => continues_with(tree, params, root_is_black, c as int, reply, false)
                    && moves.1 == match reply {
                    Some(f) => oriented(
                        tree.nodes()[c as int].edges@[f as int].mv,
                        !root_is_black,
                    ),
                    None => null,
                },
                None => reply is None && moves.1 == null,
            }
        },
        None => {
            &&& moves.0 == match (filter.len() > 0, first_legal_move) {
                (true, _) => oriented(filter[0], root_is_black),
                (false, Some(mv)) => oriented(mv, root_is_black),
                (false, None) => null,
            }
            &&& reply is None
            &&& moves.1 == null
        },
    }
}

/// The moves that a search would play and expects in reply, for output.
///
/// Without a best edge it is the first move of the filter, or else the first legal
/// move, or else the null move. There is no reply to a move without a best edge.
pub fn best_move<S: Scalar>(
    tree: &NodeTree<S>,
    params: &SearchParams<S>,
    root_is_black: bool,
    root_move_filter: &Vec<Move>,
    first_legal_move: Option<Move>,
) -> (r: (Move, Move))
    requires
        tree.wf(),
        tree.current_head is Some,
    ensures
        exists|best: Option<usize>, reply: Option<usize>| #[trigger]
            is_answer(
                *tree,
                *params,
                root_is_black,
                root_move_filter@,
                first_legal_move,
                best,
                reply,
                r,
            ),
{
    let root: usize = tree.current_head();
    let none: Vec<Move> = Vec::new();
    assert(none@ =~= Seq::<Move>::empty());
    let best_edge: Option<usize> = best_child_edge(
        tree,
        root,
        params,
        root_is_black,
        false,
        root_move_filter,
    );
    proof {
        lemma_choice(
            *tree,
            root as int,
            best_edge,
            draw_score_at(*params, root_is_black, false),
            root_move_filter@,
        );
    }
    let best: Move = match best_edge {
        Some(e) => tree.node(root).edge(e).mv,
        None => if !root_move_filter.is_empty() {
            root_move_filter[0]
        } else {
            match first_legal_move {
                Some(mv) => mv,
                None => Move::null(),
            }
        },
    };
    let mut ponder: Move = Move::null();
    let ghost mut answer: Option<usize> = None;
    match best_edge {
        Some(e) => {
            proof {
                assert(node_linked(tree.nodes(), root as int));
            }
            match tree.node(root).child(e) {
                Some(child) => {
                    assert(tree.nodes()[root as int].children@[e as int] == Some(child));
                    let reply: Option<usize> = best_child_edge(
                        tree,
                        child,
                        params,
                        root_is_black,
                        true,
                        &none,
                    );
                    proof {
                        answer = reply;
                        lemma_choice(
                            *tree,
                            child as int,
                            reply,
                            draw_score_at(*params, root_is_black, true),
                            Seq::empty(),
                        );
                    }
                    match reply {
                        Some(f) => {
                            ponder = tree.node(child).edge(f).mv;
                        },
                        None => {},
                    }
                },
                None => {},
            }
        },
        None => {},
    }
    let result: (Move, Move) = (
        orient_move(best, root_is_black),
        orient_move(ponder, !root_is_black),
    );
    assert(is_answer(
        *tree,
        *params,
        root_is_black,
        root_move_filter@,
        first_legal_move,
        best_edge,
        answer,
        result,
    ));
    result
}

proof fn lemma_choice<S: Scalar>(
    tree: NodeTree<S>,
    parent: int,
    choice: Option<usize>,
    draws: S,
    filter: Seq<Move>,
)
    requires
        tree.nodes()[parent].n == 0 ==> choice is None,
        tree.nodes()[parent].n > 0 ==> exists|order: Seq<usize>|
            #[trigger] is_ranking(order, tree, parent, draws, filter) && choice == (if order.len() > 0 {
                Some(order[0])
            } else {
                None
            }),
    ensures
        is_best_choice(tree, parent, choice, draws, filter),
{
    if tree.nodes()[parent].n > 0 {
        let order = choose|order: Seq<usize>|
            #[trigger] is_ranking(order, tree, parent, draws, filter) && choice == (if order.len() > 0 {
                Some(order[0])
            } else {
                None
            });
        assert(is_ranking(order, tree, parent, draws, filter));
    }
}

/// The best edge of a node one ply below a node at a given depth, or none.
pub open spec fn continues_with<S: Scalar>(
    tree: NodeTree<S>,
    params: SearchParams<S>,
    root_is_black: bool,
    node: int,
    choice: Option<usize>,
    is_odd_depth: bool,
) -> bool {
    is_best_choice(
        tree,
        node,
        choice,
        draw_score_at(params, root_is_black, !is_odd_depth),
        Seq::empty(),
    )
}

/// Whether `pv` is a principal variation from edge `e` of a node: the moves of best
/// edges, one after the other, up to a null move or a node without a best edge.
pub open spec fn is_variation<S: Scalar>(
    tree: NodeTree<S>,
    params: SearchParams<S>,
    root_is_black: bool,
    node: int,
    e: int,
    is_odd_depth: bool,
    flip: bool,
    pv: Seq<Move>,
) -> bool
    decreases tree.nodes().len() - node,
{
    let mv = oriented(tree.nodes()[node].edges@[e].mv, flip);
    if mv.spec_is_null() {
        pv.len() == 0
    } else {
        &&& pv.len() > 0
        &&& pv[0] == mv
        &&& match tree.nodes()[node].children@[e] {
            None => pv.len() == 1,
            Some(c) => node < c && c < tree.nodes().len() && exists|next: Option<usize>|
                {
                    &&& #[trigger] continues_with(
                        tree,
                        params,
                        root_is_black,
                        c as int,
                        next,
                        is_odd_depth,
                    )
                    &&& match next {
                        None => pv.len() == 1,
                        Some(f) => is_variation(
                            tree,
                            params,
                            root_is_black,
                            c as int,
                            f as int,
                            !is_odd_depth,
                            !flip,
                            pv.skip(1),
                        ),
                    }
                },
        }
    }
}

/// The principal variation from an edge of a node.
pub fn principal_variation<S: Scalar>(
    tree: &NodeTree<S>,
    params: &SearchParams<S>,
    root_is_black: bool,
    node: usize,
    edge_idx: usize,
    is_odd_depth: bool,
    flip: bool,
) -> (pv: Vec<Move>)
    requires
        tree.wf(),
        node < tree.nodes().len(),
        edge_idx < tree.nodes()[node as int].edges@.len(),
    ensures
        is_variation(
            *tree,
            *params,
            root_is_black,
            node as int,
            edge_idx as int,
            is_odd_depth,
            flip,
            pv@,
        ),
    decreases tree.nodes().len() - node,
{
    proof {
        assert(node_linked(tree.nodes(), node as int));
    }
    let mv: Move = orient_move(tree.node(node).edge(edge_idx).mv, flip);
    let mut pv: Vec<Move> = Vec::new();
    if mv.is_null() {
        return pv;
    }
    match tree.node(node).child(edge_idx) {
        None => {
            pv.push(mv);
        },
        Some(child) => {
            assert(tree.nodes()[node as int].children@[edge_idx as int] == Some(child));
            let none: Vec<Move> = Vec::new();
            assert(none@ =~= Seq::<Move>::empty());
            let next: Option<usize> = best_child_edge(
                tree,
                child,
                params,
                root_is_black,
                !is_odd_depth,
                &none,
            );
            proof {
                lemma_choice(
                    *tree,
                    child as int,
                    next,
                    draw_score_at(*params, root_is_black, !is_odd_depth),
                    Seq::empty(),
                );
                assert(continues_with(
                    *tree,
                    *params,
                    root_is_black,
                    child as int,
                    next,
                    is_odd_depth,
                ));
            }
            match next {
                None => {
                    pv.push(mv);
                },
                Some(f) => {
                    pv = principal_variation(
                        tree,
                        params,
                        root_is_black,
                        child,
                        f,
                        !is_odd_depth,
                        !flip,
                    );
                    let ghost tail = pv@;
                    pv.insert(0, mv);
                    assert(pv@.skip(1) =~= tail);
                },
            }
        },
    }
    pv
}

/// The moves after which the game ends behind a node that is terminal. Results from a
/// tablebase count a hundred moves more.
pub open spec fn end_of<S: Scalar>(node: Node<S>) -> Option<int> {
    if !node.spec_is_terminal() {
        None
    } else {
        Some(
            halved(node.m.spec_rounded() as int) + if node.terminal == Terminal::Tablebase {
                101int
            } else {
                1
            },
        )
    }
}

/// The distance to mate of a line that ends after some moves and is shown with a value:
/// positive for a win. A line that ends in a draw has none.
pub open spec fn mate_of<S: Scalar>(ends_after: Option<i32>, wl: S) -> Option<i32> {
    match ends_after {
        Some(moves) => if wl.spec_same(S::spec_zero()) {
            None
        } else if S::spec_zero().spec_above(wl) {
            Some((-moves) as i32)
        } else {
            Some(moves)
        },
        None => None,
    }
}

/// The distance to mate of a line.
pub fn mate_distance<S: Scalar>(ends_after: Option<i32>, wl: S) -> (r: Option<i32>)
    requires
        ends_after matches Some(moves) ==> moves > i32::MIN,
    ensures
        r == mate_of(ends_after, wl),
{
    match ends_after {
        Some(moves) => if wl.same(S::zero()) {
            None
        } else if S::zero().above(wl) {
            Some(-moves)
        } else {
            Some(moves)
        },
        None => None,
    }
}

/// Half of a number, rounded towards zero.
pub open spec fn halved(x: int) -> int {
    if x < 0 {
        -((-x) / 2)
    } else {
        x / 2
    }
}

fn moves_to_the_end<S: Scalar>(node: &Node<S>) -> (r: Option<i32>)
    ensures
        r is Some == end_of(*node) is Some,
        r matches Some(moves) ==> Some(moves as int) == end_of(*node) && moves > i32::MIN,
{
    if !node.is_terminal() {
        return None;
    }
    let m: i64 = node.m().rounded() as i64;
    let half: i64 = if m < 0 {
        -(((-m) as u64 / 2) as i64)
    } else {
        (m as u64 / 2) as i64
    };
    let moves: i64 = half + if node.is_tablebase_terminal() {
        101
    } else {
        1
    };
    Some(moves as i32)
}

/// The counters that a report is made from.
#[derive(Clone, Copy, Debug, PartialEq, Eq, Structural)]
pub struct ReportCounters {
    pub total_playouts: u64,
    pub network_evaluations: u64,
    pub cum_depth: u64,
    pub max_depth: u16,
    pub initial_visits: u32,
    pub elapsed_ms: i64,
    /// Time since the first playout completed, once one has.
    pub nps_elapsed_ms: Option<u64>,
}

/// One line of a report: counters, the values of a line for conversion into a score,
/// and its moves.
#[derive(Debug)]
pub struct ThinkingInfo<S> {
    pub depth: u64,
    pub seldepth: u16,
    pub time: i64,
    pub nodes: u64,
    /// Playouts per second, once they can be told.
    pub nps: Option<u64>,
    /// Evaluations per second, once they can be told.
    pub eps: Option<u64>,
    /// The moves after which the game is over, where the line ends so.
    pub ends_after: Option<i32>,
    pub wl: S,
    pub d: S,
    pub q: S,
    pub pv: Vec<Move>,
    /// The number of the line, where several are reported.
    pub multipv: Option<usize>,
}

/// A count per second, which saturates before it is divided.
pub open spec fn per_second(count: u64, elapsed_ms: Option<u64>) -> Option<int> {
    match elapsed_ms {
        Some(ms) => if ms > 0 {
            Some((if count * 1000 > u64::MAX {
                u64::MAX as int
            } else {
                count * 1000
            }) / ms as int)
        } else {
            None
        },
        None => None,
    }
}

fn rate(count: u64, elapsed_ms: Option<u64>) -> (r: Option<u64>)
    ensures
        r is Some == per_second(count, elapsed_ms) is Some,
        r matches Some(value) ==> Some(value as int) == per_second(count, elapsed_ms),
{
    match elapsed_ms {
        Some(ms) => if ms > 0 {
            let scaled: u64 = if count > u64::MAX / 1000 {
                u64::MAX
            } else {
                count * 1000
            };
            Some(scaled / ms)
        } else {
            None
        },
        None => None,
    }
}

/// The value, draw and counted value of a line that begins with an edge of the
/// root: those of the node behind it once it has been visited, and before that
/// those of the root seen from the other side.
pub open spec fn line_values<S: Scalar>(
    tree: NodeTree<S>,
    root: int,
    e: int,
    draws: S,
) -> (S, S, S) {
    let node = tree.nodes()[root];
    match child_node(tree.nodes(), root, e) {
        Some(child) => if child.n > 0 {
            (child.wl, child.d, child.spec_q(draws))
        } else {
            (
                node.wl.spec_negated(),
                node.d,
                node.spec_q(draws.spec_negated()).spec_negated(),
            )
        },
        None => (
            node.wl.spec_negated(),
            node.d,
            node.spec_q(draws.spec_negated()).spec_negated(),
        ),
    }
}

/// One line of a report on edge `e` of the root, the `index`-th of the lines.
pub open spec fn is_info<S: Scalar>(
    info: ThinkingInfo<S>,
    tree: NodeTree<S>,
    params: SearchParams<S>,
    root_is_black: bool,
    counters: ReportCounters,
    e: int,
    index: int,
) -> bool {
    let root = tree.head();
    let child = child_node(tree.nodes(), root, e);
    let (wl, d, q) = line_values(tree, root, e, draw_score_at(params, root_is_black, false));
    &&& info.depth == counters.cum_depth as int / (if counters.total_playouts > 1 {
        counters.total_playouts as int
    } else {
        1
    })
    &&& info.seldepth == counters.max_depth
    &&& info.time == counters.elapsed_ms
    &&& info.nodes == (if params.per_pv_counters {
        match child {
            Some(node) => node.n as int,
            None => 0,
        }
    } else {
        counters.total_playouts + counters.initial_visits
    })
    &&& info.nps is Some == per_second(
        counters.total_playouts,
        counters.nps_elapsed_ms,
    ) is Some
    &&& (info.nps matches Some(nps) ==> Some(nps as int) == per_second(
        counters.total_playouts,
        counters.nps_elapsed_ms,
    ))
    &&& info.eps is Some == per_second(
        counters.network_evaluations,
        counters.nps_elapsed_ms,
    ) is Some
    &&& (info.eps matches Some(eps) ==> Some(eps as int) == per_second(
        counters.network_evaluations,
        counters.nps_elapsed_ms,
    ))
    &&& info.ends_after is Some == (child matches Some(node) && end_of(node) is Some)
    &&& (info.ends_after matches Some(moves) ==> Some(moves as int) == end_of(child->Some_0)
        && moves > i32::MIN)
    &&& (info.wl, info.d, info.q) == (wl, d, q)
    &&& is_variation(tree, params, root_is_black, root, e, false, root_is_black, info.pv@)
    &&& info.multipv == (if params.multi_pv > 1 {
        Some((index + 1) as usize)
    } else {
        None
    })
}

/// Reports the best lines of a search, best first.
pub fn snapshot_infos<S: Scalar>(
    tree: &NodeTree<S>,
    params: &SearchParams<S>,
    root_is_black: bool,
    root_move_filter: &Vec<Move>,
    counters: &ReportCounters,
) -> (r: Vec<ThinkingInfo<S>>)
    requires
        tree.wf(),
        tree.current_head is Some,
        counters.total_playouts + counters.initial_visits <= u64::MAX,
    ensures
        tree.nodes()[tree.head()].n == 0 ==> r@.len() == 0,
        tree.nodes()[tree.head()].n > 0 ==> exists|order: Seq<usize>|
            #[trigger] is_ranking(
                order,
                *tree,
                tree.head(),
                draw_score_at(*params, root_is_black, false),
                root_move_filter@,
            ) && r@.len() == (if params.multi_pv < order.len() {
                params.multi_pv as int
            } else {
                order.len() as int
            }) && forall|k: int|
                0 <= k < r@.len() ==> is_info(
                    #[trigger] r@[k],
                    *tree,
                    *params,
                    root_is_black,
                    *counters,
                    order[k] as int,
                    k,
                ),
{
    let root: usize = tree.current_head();
    let edges: Vec<usize> = best_child_edges(
        tree,
        root,
        params,
        root_is_black,
        params.multi_pv,
        false,
        root_move_filter,
    );
    let draws: S = draw_score(params, root_is_black, false);
    let playouts: u64 = if counters.total_playouts > 1 {
        counters.total_playouts
    } else {
        1
    };
    let mut infos: Vec<ThinkingInfo<S>> = Vec::new();
    let mut k: usize = 0;
    while k < edges.len()
        invariant
            tree.wf(),
            tree.current_head == Some(root),
            root < tree.nodes().len(),
            counters.total_playouts + counters.initial_visits <= u64::MAX,
            draws == draw_score_at(*params, root_is_black, false),
            playouts == (if counters.total_playouts > 1 {
                counters.total_playouts
            } else {
                1
            }),
            k <= edges@.len(),
            infos@.len() == k,
            forall|j: int|
                0 <= j < edges@.len() ==> #[trigger] edges@[j] < tree.nodes()[root as int].edges@.len(),
            forall|j: int|
                0 <= j < k ==> is_info(
                    #[trigger] infos@[j],
                    *tree,
                    *params,
                    root_is_black,
                    *counters,
                    edges@[j] as int,
                    j,
                ),
        decreases edges@.len() - k,
    {
        let e: usize = edges[k];
        assert(edges@[k as int] < tree.nodes()[root as int].edges@.len());
        proof {
            assert(node_linked(tree.nodes(), root as int));
        }
        let edge = tree.edge_and_node(root, e);
        let node: &Node<S> = tree.node(root);
        let mut wl: S = node.wl().negated();
        let mut d: S = node.d();
        let mut q: S = node.q(draws.negated()).negated();
        let mut ends_after: Option<i32> = None;
        let mut child_n: u32 = 0;
        match edge.node {
            Some(child) => {
                child_n = child.n();
                ends_after = moves_to_the_end(child);
                if child.n() > 0 {
                    wl = child.wl();
                    d = child.d();
                    q = child.q(draws);
                }
            },
            None => {},
        }
        let pv: Vec<Move> = principal_variation(
            tree,
            params,
            root_is_black,
            root,
            e,
            false,
            root_is_black,
        );
        let info: ThinkingInfo<S> = ThinkingInfo {
            depth: counters.cum_depth / playouts,
            seldepth: counters.max_depth,
            time: counters.elapsed_ms,
            nodes: if params.per_pv_counters {
                child_n as u64
            } else {
                counters.total_playouts + counters.initial_visits as u64
            },
            nps: rate(counters.total_playouts, counters.nps_elapsed_ms),
            eps: rate(counters.network_evaluations, counters.nps_elapsed_ms),
            ends_after,
            wl,
            d,
            q,
            pv,
            multipv: if params.multi_pv > 1 {
                Some(k + 1)
            } else {
                None
            },
        };
        infos.push(info);
        k += 1;
    }
    proof {
        if tree.nodes()[tree.head()].n > 0 {
            let order = choose|order: Seq<usize>|
                #[trigger] is_ranking(
                    order,
                    *tree,
                    root as int,
                    draw_score_at(*params, root_is_black, false),
                    root_move_filter@,
                ) && edges@ == order.take(
                    if params.multi_pv < order.len() {
                        params.multi_pv as int
                    } else {
                        order.len() as int
                    },
                );
            assert(is_ranking(
                order,
                *tree,
                root as int,
                draw_score_at(*params, root_is_black, false),
                root_move_filter@,
            ));
            assert forall|j: int| 0 <= j < infos@.len() implies is_info(
                #[trigger] infos@[j],
                *tree,
                *params,
                root_is_black,
                *counters,
                order[j] as int,
                j,
            ) by {
                assert(edges@[j] == order[j]);
            }
        }
    }
    infos
}

/// Where nothing is rounded, the chances of a value `wl` and a draw share `d` are no more
/// than one in a thousand from `(1 + wl - d) / 2` for a win and `(1 - wl - d) / 2` for a
/// loss, and with the draws they add up to all.
pub proof fn law_chances_are_those_of_the_value<S: Scalar>(
    value: spec_fn(S) -> real,
    wl: S,
    d: S,
    r: Wdl,
)
    requires
        is_unrounded(value),
        value(d) >= 0real,
        value(wl) + value(d) <= 1real,
        value(d) - value(wl) <= 1real,
        call_ensures(wdl_from_wl_d::<S>, (wl, d), r),
    ensures
        ({
            let win = 500real * (1real + value(wl) - value(d));
            let loss = 500real * (1real - value(wl) - value(d));
            &&& win - 1real <= r.w as real <= win + 1real
            &&& loss - 1real <= r.l as real <= loss + 1real
            &&& r.w >= 0 && r.d >= 0 && r.l >= 0
            &&& r.w + r.d + r.l == 1000
        }),
{
    let (w, l) = lemma_nearest_chances(value, wl, d);
}

/// The integers nearest to the chances of a win and of a loss, in thousandths.
proof fn lemma_nearest_chances<S: Scalar>(value: spec_fn(S) -> real, wl: S, d: S) -> (r: (i32, i32))
    requires
        is_unrounded(value),
        value(d) >= 0real,
        value(wl) + value(d) <= 1real,
        value(d) - value(wl) <= 1real,
    ensures
        wdl_of(wl, d) == balanced_wdl(r.0, r.1),
        is_nearest(500real * (1real + value(wl) - value(d)), r.0),
        is_nearest(500real * (1real - value(wl) - value(d)), r.1),
        0 <= r.0,
        0 <= r.1,
        r.0 + r.1 <= 1001,
{
    let (x, y) = (value(wl), value(d));
    let half = value(S::spec_count(500));
    let (a, b) = (
        S::spec_count(500).spec_times(S::spec_one().spec_plus(wl).spec_minus(d)),
        S::spec_count(500).spec_times(S::spec_one().spec_minus(wl).spec_minus(d)),
    );
    assert(half * (1real + x - y) == 500real * (1real + x - y) && half * (1real - x - y) == 500real
        * (1real - x - y)) by (nonlinear_arith)
        requires
            half == 500real,
    ;
    assert(is_nearest(value(a), a.spec_rounded()));
    assert(is_nearest(value(b), b.spec_rounded()));
    (a.spec_rounded(), b.spec_rounded())
}

proof fn lemma_nearest_keeps_order(x: real, y: real, a: i32, b: i32)
    requires
        0real <= x <= y <= 1000real,
        is_nearest(x, a),
        is_nearest(y, b),
    ensures
        a <= b,
{
}

proof fn lemma_balancing_keeps_order(w: i32, l: i32, better_w: i32, better_l: i32)
    requires
        0 <= w <= better_w,
        0 <= better_l <= l,
        w + l <= 1001,
        better_w + better_l <= 1001,
    ensures
        balanced_wdl(w, l).w <= balanced_wdl(better_w, better_l).w,
        balanced_wdl(w, l).l >= balanced_wdl(better_w, better_l).l,
{
}

/// The nearest integers keep the order of two chances.
proof fn lemma_better_chances(x: real, z: real, y: real, c: (i32, i32), better: (i32, i32))
    requires
        y >= 0real,
        x <= z,
        z + y <= 1real,
        y - x <= 1real,
        is_nearest(500real * (1real + x - y), c.0),
        is_nearest(500real * (1real - x - y), c.1),
        is_nearest(500real * (1real + z - y), better.0),
        is_nearest(500real * (1real - z - y), better.1),
    ensures
        c.0 <= better.0,
        better.1 <= c.1,
{
    lemma_nearest_keeps_order(
        500real * (1real + x - y),
        500real * (1real + z - y),
        c.0,
        better.0,
    );
    lemma_nearest_keeps_order(
        500real * (1real - z - y),
        500real * (1real - x - y),
        better.1,
        c.1,
    );
}

/// A greater value, with as many draws, has no smaller chance of a win and no greater one of
/// a loss, where nothing is rounded but the chances.
pub proof fn law_better_value_wins_no_less<S: Scalar>(
    value: spec_fn(S) -> real,
    wl: S,
    better_wl: S,
    d: S,
    r: Wdl,
    better: Wdl,
)
    requires
        is_unrounded(value),
        value(d) >= 0real,
        value(wl) <= value(better_wl),
        value(better_wl) + value(d) <= 1real,
        value(d) - value(wl) <= 1real,
        call_ensures(wdl_from_wl_d::<S>, (wl, d), r),
        call_ensures(wdl_from_wl_d::<S>, (better_wl, d), better),
    ensures
        r.w <= better.w,
        r.l >= better.l,
{
    let c = lemma_nearest_chances(value, wl, d);
    let b = lemma_nearest_chances(value, better_wl, d);
    lemma_better_chances(value(wl), value(better_wl), value(d), c, b);
    lemma_balancing_keeps_order(c.0, c.1, b.0, b.1);
}

/// A line that ends in a win has the moves to its end for a distance, one that ends in a
/// loss the opposite, and a draw has none.
pub proof fn law_distance_takes_the_side_of_the_value<S: Scalar>(
    value: spec_fn(S) -> real,
    round: spec_fn(real) -> real,
    ends_after: Option<i32>,
    wl: S,
    r: Option<i32>,
)
    requires
        rounds_by(value, round),
        ends_after matches Some(moves) ==> moves > i32::MIN,
        call_ensures(mate_distance::<S>, (ends_after, wl), r),
    ensures
        r is Some <==> ends_after is Some && value(wl) != 0real,
        r matches Some(moves) ==> {
            &&& value(wl) > 0real ==> moves == ends_after->Some_0
            &&& value(wl) < 0real ==> moves == -ends_after->Some_0
        },
{
}

/// Whether a line of a report tells what is known of edge `e` of the root: the averages of
/// the node behind it once that was visited, and before that those of the root seen from the
/// other side.
pub open spec fn tells_of_edge<S: Scalar>(
    value: spec_fn(S) -> real,
    info: ThinkingInfo<S>,
    tree: NodeTree<S>,
    draws: S,
    e: int,
) -> bool {
    let node = tree.nodes()[tree.head()];
    &&& 0 <= e < node.edges@.len()
    &&& match child_node(tree.nodes(), tree.head(), e) {
        Some(child) if child.n > 0 => {
            &&& info.wl == child.wl
            &&& info.d == child.d
            &&& value(info.q) == value(child.wl) + value(draws) * value(child.d)
        },
        _ => {
            &&& value(info.wl) == -value(node.wl)
            &&& info.d == node.d
            &&& value(info.q) == value(draws) * value(node.d) - value(node.wl)
        },
    }
}

/// Where nothing is rounded, each line of a report tells of an edge of the root, from the
/// side of the player to move there. The depth is the whole part of the mean over all
/// playouts, the rate that of a thousand playouts over the milliseconds.
pub proof fn law_report_tells_of_the_root<S: Scalar>(
    value: spec_fn(S) -> real,
    tree: NodeTree<S>,
    params: SearchParams<S>,
    root_is_black: bool,
    root_move_filter: Vec<Move>,
    counters: ReportCounters,
    r: Vec<ThinkingInfo<S>>,
    k: int,
)
    requires
        is_unrounded(value),
        call_ensures(
            snapshot_infos::<S>,
            (&tree, &params, root_is_black, &root_move_filter, &counters),
            r,
        ),
        0 <= k < r@.len(),
    ensures
        r@.len() <= params.multi_pv,
        tree.nodes()[tree.head()].n > 0,
        exists|e: int|
            #[trigger] tells_of_edge(
                value,
                r@[k],
                tree,
                draw_score_at(params, root_is_black, false),
                e,
            ),
        counters.total_playouts > 0 ==> r@[k].depth * counters.total_playouts
            <= counters.cum_depth < (r@[k].depth + 1) * counters.total_playouts,
        r@[k].seldepth == counters.max_depth,
        r@[k].time == counters.elapsed_ms,
        !params.per_pv_counters ==> r@[k].nodes == counters.total_playouts
            + counters.initial_visits,
        counters.nps_elapsed_ms matches Some(ms) ==> ms > 0 && counters.total_playouts * 1000
            <= u64::MAX ==> r@[k].nps is Some && r@[k].nps->Some_0 * ms <= counters.total_playouts
            * 1000 < (r@[k].nps->Some_0 + 1) * ms,
        params.multi_pv > 1 ==> r@[k].multipv == Some((k + 1) as usize),
{
    let draws = draw_score_at(params, root_is_black, false);
    let order = choose|order: Seq<usize>|
        #[trigger] is_ranking(order, tree, tree.head(), draws, root_move_filter@) && r@.len() == (
        if params.multi_pv < order.len() {
            params.multi_pv as int
        } else {
            order.len() as int
        }) && forall|j: int|
            0 <= j < r@.len() ==> is_info(
                #[trigger] r@[j],
                tree,
                params,
                root_is_black,
                counters,
                order[j] as int,
                j,
            );
    let e = order[k] as int;
    let info = r@[k];
    assert(is_info(info, tree, params, root_is_black, counters, e, k));
    let node = tree.nodes()[tree.head()];
    let listed = listed_edges(tree, tree.head(), node.edges@.len() as int, root_move_filter@);
    assert(listed.contains(order[k])) by {
        broadcast use vstd::seq_lib::group_to_multiset_ensures;

        assert(order.contains(order[k]));
        assert(order.to_multiset().contains(order[k]));
        assert(order.to_multiset() == listed.to_multiset());
    }
    assert(node.edges.len() == node.edges@.len());
    lemma_listed_in_range(tree, tree.head(), node.edges@.len() as int, root_move_filter@);
    let (x, y) = (value(draws), value(node.d));
    assert((-x) * y == -(x * y)) by (nonlinear_arith);
    assert(tells_of_edge(value, info, tree, draws, e));
    let (all, n) = (counters.cum_depth as int, counters.total_playouts as int);
    if n > 0 {
        let depth = info.depth as int;
        assert(depth == all / n);
        assert(depth * n <= all < (depth + 1) * n) by (nonlinear_arith)
            requires
                depth == all / n,
                n > 0,
        ;
    }
    if counters.nps_elapsed_ms matches Some(ms) && ms > 0 && n * 1000 <= u64::MAX {
        let (rate, ms) = (info.nps->Some_0 as int, counters.nps_elapsed_ms->Some_0 as int);
        let scaled = n * 1000;
        assert(rate == scaled / ms);
        assert(rate * ms <= scaled < (rate + 1) * ms) by (nonlinear_arith)
            requires
                rate == scaled / ms,
                ms > 0,
        ;
    }
}

} // verus!
