//! Giving a leaf its edges, or finding that the game ends there.
use vstd::prelude::*;

use crate::classic::node::{Edge, Node, Terminal};
use crate::classic::tree::{node_linked, well_linked, NodeTree};
use crate::position::{GameResult, Move, Position};
use crate::scalar::Scalar;

verus! {

/// The length of a line after which the game is drawn without a capture, in plies.
pub const DRAW_PLIES: u32 = 120;

/// What the rules say about the position of a leaf.
#[derive(Debug)]
pub struct LeafPosition {
    pub legal_moves: Vec<Move>,
    /// The positions of the game and of the line to the leaf, the leaf's last.
    pub positions: Vec<Position>,
    /// How the rules on repetitions judge the line.
    pub rule_judge: GameResult,
    /// Whether some side still can give mate.
    pub has_mating_material: bool,
}

/// What becomes of a leaf.
#[derive(Clone, Copy, Debug, PartialEq, Eq, Structural)]
pub enum Extension {
    /// The game ends, or is taken to end, there.
    Terminal { result: GameResult, plies_left: u32, kind: Terminal },
    /// It gets its edges.
    Expand,
}

/// The last position before the leaf, among the first `k`, with the leaf's board; 0
/// where there is none.
pub open spec fn earlier_same_board(positions: Seq<Position>, k: int) -> int
    decreases k,
{
    if k <= 0 {
        0
    } else if positions[k - 1].board == positions.last().board {
        k - 1
    } else {
        earlier_same_board(positions, k - 1)
    }
}

/// The leaf closes a cycle that repeats move by move: the positions before both
/// ends of the cycle agree too, and no position within it had occurred before.
pub open spec fn closes_clean_cycle(positions: Seq<Position>) -> bool {
    let last = positions.len() - 1;
    let first = earlier_same_board(positions, last);
    &&& first > 0
    &&& positions[last - 1].board == positions[first - 1].board
    &&& forall|j: int| first < j < last - 1 ==> (#[trigger] positions[j]).repetitions == 0
}

/// What becomes of a leaf at a depth. Results are seen by the player who just moved:
/// where the other side, whichever it is, has no legal move, that player has won.
pub open spec fn extension_of(
    leaf: LeafPosition,
    depth: u16,
    is_root: bool,
    two_fold_draws: bool,
) -> Extension {
    let last = leaf.positions@.last();
    let plies = if depth == 0 {
        0
    } else {
        depth - 1
    };
    if leaf.legal_moves@.len() == 0 {
        Extension::Terminal {
            result: GameResult::WhiteWon,
            plies_left: 0,
            kind: Terminal::EndOfGame,
        }
    } else if is_root {
        Extension::Expand
    } else if last.repetitions >= 2 {
        Extension::Terminal {
            result: leaf.rule_judge,
            plies_left: 0,
            kind: Terminal::EndOfGame,
        }
    } else if last.repetitions == 1 && plies >= 4 && two_fold_draws && plies >= last.cycle_length && (
    leaf.rule_judge == GameResult::Draw || (closes_clean_cycle(leaf.positions@) && last.rule60_ply
        < DRAW_PLIES)) {
        Extension::Terminal {
            result: leaf.rule_judge,
            plies_left: last.cycle_length,
            kind: Terminal::TwoFold,
        }
    } else if !leaf.has_mating_material || last.rule60_ply >= DRAW_PLIES {
        Extension::Terminal {
            result: GameResult::Draw,
            plies_left: 0,
            kind: Terminal::EndOfGame,
        }
    } else {
        Extension::Expand
    }
}

fn is_clean_cycle(positions: &Vec<Position>) -> (r: bool)
    requires
        positions@.len() > 0,
    ensures
        r == closes_clean_cycle(positions@),
{
    let last: usize = positions.len() - 1;
    let mut first: usize = last;
    let mut found: bool = false;
    while first > 0 && !found
        invariant
            positions@.len() > 0,
            last == positions@.len() - 1,
            first <= last,
            !found ==> earlier_same_board(positions@, last as int) == earlier_same_board(
                positions@,
                first as int,
            ),
            found ==> earlier_same_board(positions@, last as int) == first,
        decreases first + (if found { 0int } else { 1 }),
    {
        first = first - 1;
        if positions[first].board == positions[last].board {
            found = true;
        }
    }
    if first == 0 {
        return false;
    }
    if positions[last - 1].board != positions[first - 1].board {
        return false;
    }
    let mut j: usize = first + 1;
    while j < last - 1
        invariant
            0 < last == positions@.len() - 1,
            first < j,
            j <= last - 1 || first >= last - 2,
            first == earlier_same_board(positions@, last as int),
            forall|k: int| first < k < j && k < last - 1 ==> (#[trigger] positions@[k]).repetitions == 0,
        decreases last - j,
    {
        if positions[j].repetitions > 0 {
            assert(positions@[j as int].repetitions != 0);
            return false;
        }
        j += 1;
    }
    true
}

/// Decides what becomes of a leaf. The root of a search always gets edges where
/// there are legal moves.
pub fn classify_leaf(
    leaf: &LeafPosition,
    depth: u16,
    is_root: bool,
    two_fold_draws: bool,
) -> (r: Extension)
    requires
        leaf.positions@.len() > 0,
    ensures
        r == extension_of(*leaf, depth, is_root, two_fold_draws),
{
    if leaf.legal_moves.is_empty() {
        return Extension::Terminal {
            result: GameResult::WhiteWon,
            plies_left: 0,
            kind: Terminal::EndOfGame,
        };
    }
    if is_root {
        return Extension::Expand;
    }
    let last: Position = leaf.positions[leaf.positions.len() - 1];
    if last.repetitions >= 2 {
        return Extension::Terminal {
            result: leaf.rule_judge,
            plies_left: 0,
            kind: Terminal::EndOfGame,
        };
    }
    let plies: u32 = if depth == 0 {
        0
    } else {
        depth as u32 - 1
    };
    if last.repetitions == 1 && plies >= 4 && two_fold_draws && plies >= last.cycle_length {
        if leaf.rule_judge == GameResult::Draw || (is_clean_cycle(&leaf.positions) && last.rule60_ply
            < DRAW_PLIES) {
            return Extension::Terminal {
                result: leaf.rule_judge,
                plies_left: last.cycle_length,
                kind: Terminal::TwoFold,
            };
        }
    }
    if !leaf.has_mating_material || last.rule60_ply >= DRAW_PLIES {
        return Extension::Terminal {
            result: GameResult::Draw,
            plies_left: 0,
            kind: Terminal::EndOfGame,
        };
    }
    Extension::Expand
}

/// Extends a leaf: it becomes terminal, or gets an edge for each legal move.
pub fn extend_node<S: Scalar>(
    tree: &mut NodeTree<S>,
    node_idx: usize,
    depth: u16,
    leaf: &LeafPosition,
    two_fold_draws: bool,
)
    requires
        old(tree).wf(),
        node_idx < old(tree).nodes().len(),
        leaf.positions@.len() > 0,
        leaf.legal_moves@.len() <= u8::MAX,
        old(tree).nodes()[node_idx as int].edges@.len() == 0,
        old(tree).nodes()[node_idx as int].parent matches Some(p)
            ==> old(tree).nodes()[node_idx as int].edge_index
            < old(tree).nodes()[p as int].edges@.len(),
    ensures
        final(tree).wf(),
        *final(tree) == (NodeTree { arena: final(tree).arena, ..*old(tree) }),
        match extension_of(
            *leaf,
            depth,
            old(tree).current_head == Some(node_idx),
            two_fold_draws,
        ) {
            Extension::Terminal { result, plies_left, kind } => NodeTree::<S>::after_make_terminal(
                old(tree).nodes(),
                final(tree).nodes(),
                node_idx as int,
                result,
                S::spec_count(plies_left),
                kind,
            ),
            Extension::Expand => {
                let before = old(tree).nodes();
                let after = final(tree).nodes();
                let i = node_idx as int;
                &&& after == before.update(i, after[i])
                &&& after[i] == (Node {
                    edges: after[i].edges,
                    children: after[i].children,
                    ..before[i]
                })
                &&& after[i].edges@ == leaf.legal_moves@.map_values(|mv: Move| Edge { mv, p: 0 })
                &&& after[i].children@ == Seq::new(leaf.legal_moves@.len(), |k: int| None::<usize>)
            },
        },
{
    let is_root: bool = match tree.current_head {
        Some(head) => head == node_idx,
        None => false,
    };
    let ghost before = tree.nodes();
    match classify_leaf(leaf, depth, is_root, two_fold_draws) {
        Extension::Terminal { result, plies_left, kind } => {
            tree.make_terminal(node_idx, result, S::count(plies_left), kind);
        },
        Extension::Expand => {
            proof {
                assert(node_linked(before, node_idx as int));
            }
            tree.arena.nodes[node_idx].create_edges(&leaf.legal_moves);
            proof {
                let i = node_idx as int;
                let after = tree.nodes();
                assert(after =~= before.update(i, after[i]));
                assert(well_linked(after)) by {
                    assert forall|j: int| 0 <= j < after.len() implies #[trigger] node_linked(after, j) by {
                        assert(node_linked(before, j));
                        assert forall|e: int| 0 <= e < after[j].children@.len() implies (
                        #[trigger] after[j].children@[e] matches Some(c) ==> j < c < after.len()
                            && after[c as int].parent == Some(j as usize)
                            && after[c as int].edge_index == e) by {
                            if j != i {
                                assert(before[j].children@[e] == after[j].children@[e]);
                            }
                        }
                    }
                }
            }
        },
    }
}

/// A leaf without a legal move is a sure win for the player who moved there, whichever
/// side is to move.
pub proof fn law_leaf_without_moves_is_won<S: Scalar>(
    node: Node<S>,
    leaf: LeafPosition,
    depth: u16,
    is_root: bool,
    two_fold_draws: bool,
)
    requires
        leaf.legal_moves@.len() == 0,
    ensures
        extension_of(leaf, depth, is_root, two_fold_draws) matches Extension::Terminal {
            result,
            plies_left,
            kind,
        } && ({
            let after = node.made_terminal(result, S::spec_count(plies_left), kind);
            &&& after.wl == S::spec_one()
            &&& after.d == S::spec_zero()
            &&& after.m == S::spec_count(0)
            &&& after.terminal == Terminal::EndOfGame
        }),
{
}

/// The root of a search with a legal move is never taken for terminal.
pub proof fn law_root_with_moves_expands(leaf: LeafPosition, depth: u16, two_fold_draws: bool)
    requires
        leaf.legal_moves@.len() > 0,
    ensures
        extension_of(leaf, depth, true, two_fold_draws) == Extension::Expand,
{
}

/// A two-fold repetition is only recorded where the whole cycle was played within
/// the line of the search.
pub proof fn law_twofold_cycle_is_in_the_line(
    leaf: LeafPosition,
    depth: u16,
    is_root: bool,
    two_fold_draws: bool,
)
    ensures
        extension_of(leaf, depth, is_root, two_fold_draws) matches Extension::Terminal {
            result,
            plies_left,
            kind,
        } ==> kind == Terminal::TwoFold ==> plies_left < depth && two_fold_draws && !is_root,
{
}

/// A leaf that repeats no position and has a legal move is drawn where no side can give
/// mate any more, or after 120 plies without a capture. Otherwise it gets its edges.
pub proof fn law_unrepeated_leaf_is_drawn_or_goes_on(
    leaf: LeafPosition,
    depth: u16,
    two_fold_draws: bool,
    r: Extension,
)
    requires
        leaf.positions@.len() > 0,
        leaf.legal_moves@.len() > 0,
        leaf.positions@.last().repetitions == 0,
        call_ensures(classify_leaf, (&leaf, depth, false, two_fold_draws), r),
    ensures
        !leaf.has_mating_material || leaf.positions@.last().rule60_ply >= 120 ==> r
            == (Extension::Terminal {
            result: GameResult::Draw,
            plies_left: 0,
            kind: Terminal::EndOfGame,
        }),
        leaf.has_mating_material && leaf.positions@.last().rule60_ply < 120 ==> r
            == Extension::Expand,
{
}

/// A leaf with a legal move is won or lost only where it repeats a position and the rules on
/// repetitions say so.
pub proof fn law_leaf_with_moves_is_decided_by_repetition_alone(
    leaf: LeafPosition,
    depth: u16,
    is_root: bool,
    two_fold_draws: bool,
    r: Extension,
)
    requires
        leaf.positions@.len() > 0,
        leaf.legal_moves@.len() > 0,
        call_ensures(classify_leaf, (&leaf, depth, is_root, two_fold_draws), r),
    ensures
        r matches Extension::Terminal { result, plies_left, kind } ==> !is_root && (result
            == GameResult::Draw || (result == leaf.rule_judge && leaf.positions@.last().repetitions
            >= 1)),
{
}

/// A leaf without a legal move ends the game at once, won by the player who moved there.
pub proof fn law_leaf_without_moves_ends_at_once(
    leaf: LeafPosition,
    depth: u16,
    is_root: bool,
    two_fold_draws: bool,
    r: Extension,
)
    requires
        leaf.positions@.len() > 0,
        leaf.legal_moves@.len() == 0,
        call_ensures(classify_leaf, (&leaf, depth, is_root, two_fold_draws), r),
    ensures
        r == (Extension::Terminal {
            result: GameResult::WhiteWon,
            plies_left: 0,
            kind: Terminal::EndOfGame,
        }),
{
}

/// A leaf that repeats a position for the second time ends as the rules on repetitions
/// judge it, whatever else holds.
pub proof fn law_threefold_leaf_ends_as_judged(
    leaf: LeafPosition,
    depth: u16,
    two_fold_draws: bool,
    r: Extension,
)
    requires
        leaf.positions@.len() > 0,
        leaf.legal_moves@.len() > 0,
        leaf.positions@.last().repetitions >= 2,
        call_ensures(classify_leaf, (&leaf, depth, false, two_fold_draws), r),
    ensures
        r == (Extension::Terminal {
            result: leaf.rule_judge,
            plies_left: 0,
            kind: Terminal::EndOfGame,
        }),
{
}

/// A leaf that repeats a position for the first time ends as a two-fold repetition where
/// these are wanted, the leaf is at depth 5 or deeper, the whole cycle was played within
/// the line, and either the rules judge it drawn or the cycle is clean and a capture is not
/// 120 plies ago. It is clean where its moves were played before, from the latest earlier
/// position with the leaf's board, and nothing within it had been repeated. Where it does
/// not end so, it is treated as if it repeated nothing.
pub proof fn law_twofold_leaf_ends_with_its_cycle(
    leaf: LeafPosition,
    depth: u16,
    two_fold_draws: bool,
    first: int,
    r: Extension,
)
    requires
        leaf.legal_moves@.len() > 0,
        leaf.positions@.last().repetitions == 1,
        0 < first < leaf.positions@.len() - 1,
        leaf.positions@[first].board == leaf.positions@.last().board,
        forall|j: int|
            first < j < leaf.positions@.len() - 1 ==> (#[trigger] leaf.positions@[j]).board
                != leaf.positions@.last().board,
        call_ensures(classify_leaf, (&leaf, depth, false, two_fold_draws), r),
    ensures
        ({
            let positions = leaf.positions@;
            let last = positions.len() - 1;
            let is_clean = positions[last - 1].board == positions[first - 1].board && forall|j: int|
                first < j < last - 1 ==> (#[trigger] positions[j]).repetitions == 0;
            let ends = two_fold_draws && depth >= 5 && positions[last].cycle_length < depth && (
            leaf.rule_judge == GameResult::Draw || (is_clean && positions[last].rule60_ply < 120));
            &&& ends ==> r == (Extension::Terminal {
                result: leaf.rule_judge,
                plies_left: positions[last].cycle_length,
                kind: Terminal::TwoFold,
            })
            &&& !ends && (!leaf.has_mating_material || positions[last].rule60_ply >= 120) ==> r
                == (Extension::Terminal {
                result: GameResult::Draw,
                plies_left: 0,
                kind: Terminal::EndOfGame,
            })
            &&& !ends && leaf.has_mating_material && positions[last].rule60_ply < 120 ==> r
                == Extension::Expand
        }),
{
    lemma_latest_same_board(leaf.positions@, first, leaf.positions@.len() - 1);
}

proof fn lemma_latest_same_board(positions: Seq<Position>, first: int, k: int)
    requires
        0 < first < k < positions.len(),
        positions[first].board == positions.last().board,
        forall|j: int|
            first < j < k ==> (#[trigger] positions[j]).board != positions.last().board,
    ensures
        earlier_same_board(positions, k) == first,
    decreases k,
{
    if k - 1 > first {
        assert(positions[k - 1].board != positions.last().board);
        lemma_latest_same_board(positions, first, k - 1);
    }
}

/// What a leaf holds once it was extended. Without a legal move it is a sure win for the
/// player who moved there. Where it repeats nothing and is not the head, it is a sure draw
/// without mating material or after 120 plies without a capture, and otherwise has one edge
/// for each legal move, in their order, and no result.
pub proof fn law_extended_leaf_holds_its_result<S: Scalar>(
    tree: &mut NodeTree<S>,
    node_idx: usize,
    depth: u16,
    leaf: LeafPosition,
    two_fold_draws: bool,
)
    requires
        node_idx < old(tree).nodes().len(),
        leaf.positions@.len() > 0,
        call_ensures(extend_node::<S>, (tree, node_idx, depth, &leaf, two_fold_draws), ()),
    ensures
        ({
            let before = old(tree).nodes()[node_idx as int];
            let after = final(tree).nodes()[node_idx as int];
            let last = leaf.positions@.last();
            let plays_on = leaf.legal_moves@.len() > 0 && old(tree).current_head != Some(node_idx)
                && last.repetitions == 0;
            let is_drawn = !leaf.has_mating_material || last.rule60_ply >= 120;
            &&& leaf.legal_moves@.len() == 0 ==> {
                &&& after.terminal == Terminal::EndOfGame
                &&& after.wl == S::spec_one()
                &&& after.d == S::spec_zero()
                &&& after.m == S::spec_count(0)
                &&& after.lower_bound == GameResult::WhiteWon
                &&& after.upper_bound == GameResult::WhiteWon
            }
            &&& plays_on && is_drawn ==> {
                &&& after.terminal == Terminal::EndOfGame
                &&& after.wl == S::spec_zero()
                &&& after.d == S::spec_one()
                &&& after.m == S::spec_count(0)
                &&& after.lower_bound == GameResult::Draw
                &&& after.upper_bound == GameResult::Draw
            }
            &&& plays_on && !is_drawn ==> {
                &&& after.terminal == before.terminal
                &&& after.edges@.len() == leaf.legal_moves@.len()
                &&& forall|k: int|
                    0 <= k < leaf.legal_moves@.len() ==> (#[trigger] after.edges@[k]).mv
                        == leaf.legal_moves@[k]
            }
        }),
{
}

} // verus!
