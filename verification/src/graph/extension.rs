//! What a leaf of the graph turns out to be: finished for every line that reaches its
//! board, finished for this line only, or a position to evaluate.
use vstd::prelude::*;

use crate::exact::{is_even_rounding, rounds_by};
use crate::position::GameResult;
use crate::scalar::Scalar;
use crate::stream::expand::{result_for_node, terminal_wl_for_node};

verus! {

/// What is to be done with a leaf. Values are seen by the side that moved in.
#[derive(Clone, Copy, Debug)]
pub enum ExtensionKind<S> {
    /// The network evaluates the position and its legal moves become edges.
    Evaluate,
    /// The board alone ends the game, for every line.
    SharedTerminal { wl: S, draw: S, plies_left: S },
    /// The line ends the game; the shared node stays as it is.
    PathTerminal { wl: S, draw: S, plies_left: S },
}

/// What the rules say about a leaf.
#[derive(Clone, Copy, Debug, PartialEq, Eq, Structural)]
pub struct LeafFacts {
    pub has_legal_move: bool,
    pub has_mating_material: bool,
    /// How often the position occurred before.
    pub repetitions: u32,
    /// Plies since the last capture.
    pub rule60_ply: u32,
    /// How the rules on repetitions judge the line, for the side that moved in.
    pub rule_judge: GameResult,
    /// How the game has ended.
    pub game_result: GameResult,
    pub black_to_move: bool,
}

/// The value and the draw share of a judgement for the side that moved in.
pub open spec fn judged<S: Scalar>(result: GameResult) -> (S, S) {
    match result {
        GameResult::WhiteWon => (S::spec_one(), S::spec_zero()),
        GameResult::BlackWon => (S::spec_one().spec_negated(), S::spec_zero()),
        GameResult::Draw => (S::spec_zero(), S::spec_one()),
        GameResult::Undecided => (S::spec_zero(), S::spec_one()),
    }
}

/// The value and the draw share of a judgement for the side that moved in. What is not
/// decided counts as drawn.
pub fn rule_judge_wl_for_node<S: Scalar>(result: GameResult) -> (r: (S, S))
    ensures
        r == judged::<S>(result),
{
    match result {
        GameResult::WhiteWon => (S::one(), S::zero()),
        GameResult::BlackWon => (S::one().negated(), S::zero()),
        GameResult::Draw => (S::zero(), S::one()),
        GameResult::Undecided => (S::zero(), S::one()),
    }
}

/// The result that a line has by its own history, if it has one. The root has it where
/// the game is over; below, the second repetition is judged and 120 plies without a
/// capture are a draw.
pub open spec fn spec_path_terminal<S: Scalar>(facts: LeafFacts, depth: usize) -> Option<(S, S, S)> {
    if depth == 0 {
        if facts.game_result == GameResult::Undecided {
            None
        } else {
            let (wl, draw) = result_for_node::<S>(facts.game_result, facts.black_to_move);
            Some((wl, draw, S::spec_zero()))
        }
    } else if facts.repetitions >= 2 {
        let (wl, draw) = judged::<S>(facts.rule_judge);
        Some((wl, draw, S::spec_zero()))
    } else if facts.rule60_ply >= 120 {
        Some((S::spec_zero(), S::spec_one(), S::spec_zero()))
    } else {
        None
    }
}

/// The result that a line has by its own history, if it has one.
pub fn path_terminal_value<S: Scalar>(facts: &LeafFacts, depth: usize) -> (r: Option<(S, S, S)>)
    ensures
        r == spec_path_terminal::<S>(*facts, depth),
{
    if depth == 0 {
        if facts.game_result == GameResult::Undecided {
            return None;
        }
        let (wl, draw) = terminal_wl_for_node::<S>(facts.game_result, facts.black_to_move);
        return Some((wl, draw, S::zero()));
    }
    if facts.repetitions >= 2 {
        let (wl, draw) = rule_judge_wl_for_node::<S>(facts.rule_judge);
        return Some((wl, draw, S::zero()));
    }
    if facts.rule60_ply >= 120 {
        return Some((S::zero(), S::one(), S::zero()));
    }
    None
}

/// What is to be done with a leaf.
pub open spec fn spec_classify<S: Scalar>(facts: LeafFacts, depth: usize) -> ExtensionKind<S> {
    let zero = S::spec_zero();
    let one = S::spec_one();
    if !facts.has_legal_move {
        ExtensionKind::SharedTerminal { wl: one, draw: zero, plies_left: zero }
    } else if !facts.has_mating_material {
        ExtensionKind::SharedTerminal { wl: zero, draw: one, plies_left: zero }
    } else {
        match spec_path_terminal::<S>(facts, depth) {
            Some((wl, draw, plies_left)) => ExtensionKind::PathTerminal { wl, draw, plies_left },
            None => ExtensionKind::Evaluate,
        }
    }
}

/// Says what is to be done with a leaf at a depth below the root.
pub fn classify_extension<S: Scalar>(facts: &LeafFacts, depth: usize) -> (r: ExtensionKind<S>)
    ensures
        r == spec_classify::<S>(*facts, depth),
{
    if !facts.has_legal_move {
        return ExtensionKind::SharedTerminal {
            wl: S::one(),
            draw: S::zero(),
            plies_left: S::zero(),
        };
    }
    if !facts.has_mating_material {
        return ExtensionKind::SharedTerminal {
            wl: S::zero(),
            draw: S::one(),
            plies_left: S::zero(),
        };
    }
    match path_terminal_value::<S>(facts, depth) {
        Some((wl, draw, plies_left)) => ExtensionKind::PathTerminal { wl, draw, plies_left },
        None => ExtensionKind::Evaluate,
    }
}

/// What is shared between lines depends on the board alone: not on repetitions, on plies
/// without a capture, or on the depth.
pub proof fn law_shared_results_depend_on_the_board<S: Scalar>(
    a: LeafFacts,
    b: LeafFacts,
    depth: usize,
    other_depth: usize,
)
    requires
        a.has_legal_move == b.has_legal_move,
        a.has_mating_material == b.has_mating_material,
    ensures
        spec_classify::<S>(a, depth) is SharedTerminal ==> spec_classify::<S>(b, other_depth)
            == spec_classify::<S>(a, depth),
{
}

/// Below the root the first repetition does not end a line.
pub proof fn law_first_repetition_goes_on<S: Scalar>(facts: LeafFacts, depth: usize)
    requires
        facts.has_legal_move,
        facts.has_mating_material,
        facts.repetitions <= 1,
        facts.rule60_ply < 120,
        depth > 0,
    ensures
        spec_classify::<S>(facts, depth) is Evaluate,
{
}

/// A leaf without a legal move is won, for every line, by the side that moved in; one where
/// no side can give mate any more is drawn.
pub proof fn law_board_alone_ends_the_game<S: Scalar>(
    facts: LeafFacts,
    depth: usize,
    r: ExtensionKind<S>,
)
    requires
        call_ensures(classify_extension::<S>, (&facts, depth), r),
    ensures
        !facts.has_legal_move ==> r == (ExtensionKind::SharedTerminal {
            wl: S::spec_one(),
            draw: S::spec_zero(),
            plies_left: S::spec_zero(),
        }),
        facts.has_legal_move && !facts.has_mating_material ==> r
            == (ExtensionKind::SharedTerminal {
            wl: S::spec_zero(),
            draw: S::spec_one(),
            plies_left: S::spec_zero(),
        }),
        facts.has_legal_move && facts.has_mating_material ==> !(r is SharedTerminal),
{
}

/// Below the root a line with moves left ends just where it repeats a position for the
/// second time, as judged, or where 120 plies have passed without a capture, drawn.
pub proof fn law_line_ends_by_its_history<S: Scalar>(
    facts: LeafFacts,
    depth: usize,
    r: ExtensionKind<S>,
)
    requires
        depth > 0,
        facts.has_legal_move,
        facts.has_mating_material,
        call_ensures(classify_extension::<S>, (&facts, depth), r),
    ensures
        facts.repetitions >= 2 && facts.rule_judge == GameResult::WhiteWon ==> r
            == (ExtensionKind::PathTerminal {
            wl: S::spec_one(),
            draw: S::spec_zero(),
            plies_left: S::spec_zero(),
        }),
        facts.repetitions >= 2 && facts.rule_judge == GameResult::BlackWon ==> r
            == (ExtensionKind::PathTerminal {
            wl: S::spec_one().spec_negated(),
            draw: S::spec_zero(),
            plies_left: S::spec_zero(),
        }),
        (facts.repetitions >= 2 && facts.rule_judge != GameResult::WhiteWon && facts.rule_judge
            != GameResult::BlackWon) || (facts.repetitions < 2 && facts.rule60_ply >= 120) ==> r
            == (ExtensionKind::PathTerminal {
            wl: S::spec_zero(),
            draw: S::spec_one(),
            plies_left: S::spec_zero(),
        }),
        facts.repetitions < 2 && facts.rule60_ply < 120 ==> r is Evaluate,
{
}

/// At the root only a finished game ends the line. Seen by the side that moved in, it is won
/// where that side has won, however results are rounded as long as both sides are treated
/// alike.
pub proof fn law_finished_game_is_seen_by_the_side_that_moved<S: Scalar>(
    value: spec_fn(S) -> real,
    round: spec_fn(real) -> real,
    facts: LeafFacts,
    r: Option<(S, S, S)>,
)
    requires
        rounds_by(value, round),
        is_even_rounding(round),
        call_ensures(path_terminal_value::<S>, (&facts, 0), r),
    ensures
        r is None <==> facts.game_result == GameResult::Undecided,
        r matches Some(end) ==> {
            let white_moved_in = facts.black_to_move;
            &&& value(end.0) == (match facts.game_result {
                GameResult::WhiteWon => if white_moved_in {
                    1real
                } else {
                    -1real
                },
                GameResult::BlackWon => if white_moved_in {
                    -1real
                } else {
                    1real
                },
                _ => 0real,
            })
            &&& value(end.1) == (if facts.game_result == GameResult::Draw {
                1real
            } else {
                0real
            })
            &&& value(end.2) == 0real
        },
{
    let (zero, one) = (value(S::spec_zero()), value(S::spec_one()));
    assert(round(-one) == -round(one));
    let less = value(S::spec_one().spec_negated());
    assert(round(-less) == -round(less));
    assert(round(-zero) == -round(zero));
}

} // verus!
